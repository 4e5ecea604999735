use clog_core::record::{Level, LooseScanner};
use clog_core::search::{smart_match, smart_tokens};
use clog_core::pattern::builtin_pattern;
use clog_core::scanners::ScannerKind;
use clog_core::viewer::{apply_appended, build_lines_payload, OpenedFile};

fn file_with(body: &[u8]) -> (OpenedFile, clog_core::scanners::CompiledScanner) {
    let src = builtin_pattern("wsl-dev").unwrap();
    let scanner = ScannerKind::Pattern(src.to_string()).compile().ok().unwrap();
    let f = OpenedFile::new("f.log".to_string(), body.to_vec(), &scanner, src.to_string(), None, false);
    (f, scanner)
}

#[test]
fn appending_whole_lines_matches_a_fresh_index() {
    let a = b"[INFO ] 2026-01-01 00:00:00.000 [t] play - a\n".to_vec();
    let b = b"  continuation\n[WARN ] 2026-01-01 00:00:01.000 [t] play - b\n".to_vec();
    let (mut grown, scanner) = file_with(&a);
    let delta = apply_appended(&mut grown, &scanner, a.len() as u64, &b);
    let mut all = a.clone();
    all.extend_from_slice(&b);
    let (fresh, _) = file_with(&all);
    assert_eq!(grown.records, fresh.records);
    assert_eq!(grown.line_offsets, fresh.line_offsets);
    assert_eq!(grown.record_first_line, fresh.record_first_line);
    assert_eq!(delta.new_record_count, 1);
    assert_eq!(delta.record_count, 2);
    assert_eq!(delta.line_count, 3);
    assert_eq!(delta.last_offset, all.len() as u64);
    assert!(!delta.rotated);
}

#[test]
fn a_partial_line_is_completed_not_duplicated() {
    let (mut f, scanner) = file_with(b"");
    let from = f.bytes.len() as u64;
    apply_appended(&mut f, &scanner, from, b"[INFO ] 2026-01-01 00:00:00.000 [t] play - hal");
    assert_eq!(f.line_count, 1);
    assert_eq!(f.records.len(), 1);
    let from = f.bytes.len() as u64;
    apply_appended(&mut f, &scanner, from, b"f done\n[ERROR] 2026-01-01 00:00:01.000 [t] play - x\n");
    assert_eq!(f.line_count, 2);
    assert_eq!(f.records.len(), 2);
    assert_eq!(f.records[0].byte_len as usize, 53);
    let lines = build_lines_payload(&f, 0, 2).ok().unwrap();
    assert!(lines.lines[0].text.ends_with("half done"));
}

#[test]
fn reindex_after_rotation_starts_over() {
    let (mut f, scanner) = file_with(b"[INFO ] 2026-01-01 00:00:00.000 [t] play - old\n");
    let (lines, records, size) = f.reindex(&scanner, b"[WARN ] 2026-01-01 00:00:01.000 [t] play - new\n  more\n".to_vec());
    assert_eq!((lines, records, size), (2, 1, 54));
    assert_eq!(f.records[0].line_count, 2);
}

#[test]
fn invalid_utf8_is_shown_with_replacement_characters() {
    let (f, _) = file_with(b"[INFO ] 2026-01-01 00:00:00.000 [t] play - \xff\xfe\n");
    let lines = build_lines_payload(&f, 0, 1).ok().unwrap();
    assert!(lines.lines[0].text.ends_with("- \u{fffd}\u{fffd}"));
    assert_eq!(lines.lines[0].full_len, 43 + 6);
}

#[test]
fn smart_match_keeps_the_tightest_alignment() {
    let text = b"connection was refused; then connection refused";
    let tokens = smart_tokens("connection refused", false);
    let (ranges, gap) = smart_match(text, &tokens, false).expect("both tokens occur");
    // The later pair is one byte apart; the first is five apart.
    assert_eq!(gap, 1);
    assert_eq!(ranges, vec![(29, 39), (40, 47)]);
    // The alignment on the first `connection` leaves a gap of five.
    assert!(gap < 5);
    assert!(smart_match(b"refused connection", &tokens, false).is_none());
}

#[test]
fn loose_scanner_makes_each_line_a_record() {
    let src = builtin_pattern("wsl-dev").unwrap();
    let scanner = ScannerKind::Pattern(src.to_string()).compile().ok().unwrap();
    let body = b"[INFO ] 2026-01-01 00:00:00.000 [t] play - a\n  at Foo.bar(Foo.java:1)\n\n[WARN ] 2026-01-01 00:00:01.000 [t] play - b\n";
    let f = OpenedFile::new("f.log".to_string(), body.to_vec(), &LooseScanner::new(&scanner), src.to_string(), None, true);
    assert_eq!(f.records.len(), 4);
    assert_eq!(f.line_count, 4);
    let levels: Vec<Level> = f.records.iter().map(|r| r.level).collect();
    assert_eq!(levels, vec![Level::Info, Level::Unknown, Level::Unknown, Level::Warn]);
    for (k, r) in f.records.iter().enumerate() {
        assert_eq!(r.line_count, 1);
        assert_eq!(r.line_offset as usize, k);
        assert_eq!(r.byte_offset, f.line_offsets[k]);
    }
}

#[test]
fn smart_match_finds_overlapping_placements() {
    let tokens = vec![b"xa".to_vec(), b"aa".to_vec()];
    let (ranges, gap) = smart_match(b"xaaa", &tokens, true).expect("xa at 0, aa at 2");
    assert_eq!(ranges, vec![(0, 2), (2, 4)]);
    assert_eq!(gap, 0);
    let tokens = smart_tokens("aa x", false);
    let (ranges, gap) = smart_match(b"aaax", &tokens, false).expect("aa at 1, x at 3");
    assert_eq!(ranges, vec![(1, 3), (3, 4)]);
    assert_eq!(gap, 0);
    let tokens = smart_tokens("connection refused", false);
    let (ranges, gap) = smart_match(b"connection was refused", &tokens, false).unwrap();
    assert_eq!((ranges, gap), (vec![(0, 10), (15, 22)], 5));
}

#[test]
fn records_tile_the_lines_and_open_on_headers() {
    let body = b"  orphan\n[INFO ] 2026-01-01 00:00:00.000 [t] play - a\n  cont\n\n[WARN ] 2026-01-01 00:00:01.000 [t] play - b\n";
    let (f, _) = file_with(body);
    assert_eq!(f.records.len(), 3);
    assert_eq!(f.records[0].line_offset, 0);
    for w in f.records.windows(2) {
        assert_eq!(w[0].line_offset + w[0].line_count, w[1].line_offset);
    }
    let last = f.records.last().unwrap();
    assert_eq!(u64::from(last.line_offset + last.line_count), f.line_count);
    assert_eq!(f.records[1].line_offset, 1);
    assert_eq!(f.records[2].line_offset, 4);
}
