use clog_core::pattern::HeaderFields;
use clog_core::record::{Level, RecordHeader};
use clog_core::timestamps::{extract_record_timestamp_ms, parse_yyyy_mm_dd_hh_mm_ss_sss, ts_would_split_char};

#[test]
fn parses_a_full_timestamp() {
    let ms = parse_yyyy_mm_dd_hh_mm_ss_sss("2026-05-21 00:00:04.401").expect("parses");
    let expected = ((2026i64 * 372 + 4 * 31 + 20) * 86_400 + 4) * 1000 + 401;
    assert_eq!(ms, expected);
}

#[test]
fn later_timestamps_are_larger() {
    let a = parse_yyyy_mm_dd_hh_mm_ss_sss("2026-05-21 23:59:59.999").unwrap();
    let b = parse_yyyy_mm_dd_hh_mm_ss_sss("2026-05-22 00:00:00.000").unwrap();
    assert_eq!(b - a, 1);
}

#[test]
fn rejects_wrong_length_and_non_digits() {
    assert_eq!(parse_yyyy_mm_dd_hh_mm_ss_sss("2026-05-21 00:00:04.40"), None);
    assert_eq!(parse_yyyy_mm_dd_hh_mm_ss_sss("2026-05-21 00:00:04.4x1"), None);
    assert_eq!(parse_yyyy_mm_dd_hh_mm_ss_sss(""), None);
}

#[test]
fn signed_fields_parse_like_i64_from_str() {
    let v = parse_yyyy_mm_dd_hh_mm_ss_sss("+026-05-21 00:00:04.401").expect("plus sign accepted");
    assert_eq!(v, ((26i64 * 372 + 4 * 31 + 20) * 86_400 + 4) * 1000 + 401);
    assert!(parse_yyyy_mm_dd_hh_mm_ss_sss("2026--5-21 00:00:04.401").is_some());
    assert_eq!(parse_yyyy_mm_dd_hh_mm_ss_sss("2026-+-21 00:00:04.401"), None);
}

#[test]
fn detects_text_that_would_split_a_character() {
    assert!(!ts_would_split_char("2026-05-21 00:00:04.401"));
    // "é" is two bytes: field 2 would start inside it.
    assert!(ts_would_split_char("2026-05\u{e9}1 00:00:04.401"));
    // A bad year stops parsing before any split.
    assert!(!ts_would_split_char("x026-05\u{e9}1 00:00:04.401"));
}

#[test]
fn extracts_the_timestamp_field_of_a_record() {
    let bytes = b"junk[INFO ] 2026-05-22 16:28:59.246 [main] x\n";
    let rec = RecordHeader {
        byte_offset: 4,
        byte_len: 42,
        line_offset: 0,
        line_count: 1,
        level: Level::Info,
        fields: HeaderFields {
            level: Some((1, 6)),
            timestamp: Some((8, 31)),
            thread: None,
            logger: None,
            message: None,
        },
    };
    let ms = extract_record_timestamp_ms(&rec, bytes).expect("timestamp");
    assert_eq!(ms, parse_yyyy_mm_dd_hh_mm_ss_sss("2026-05-22 16:28:59.246").unwrap());
    let mut no_ts = rec;
    no_ts.fields.timestamp = None;
    assert_eq!(extract_record_timestamp_ms(&no_ts, bytes), None);
    let mut out_of_range = rec;
    out_of_range.fields.timestamp = Some((8, 300));
    assert_eq!(extract_record_timestamp_ms(&out_of_range, bytes), None);
    let bad_utf8 = b"\xff\xfe26-05-22 16:28:59.246";
    let rec2 = RecordHeader { byte_offset: 0, fields: HeaderFields { timestamp: Some((0, 23)), ..rec.fields }, ..rec };
    assert_eq!(extract_record_timestamp_ms(&rec2, bad_utf8), None);
}
