use clog_core::markers::{builtin_marker_rules, scan_markers, MarkerKind, MarkerRule};
use clog_core::minimap::build_level_minimap_payload;
use clog_core::pattern::{builtin_pattern, HeaderFields};
use clog_core::record::{Level, RecordHeader, RecordScanner};
use clog_core::scanners::{CompiledScanner, ScannerKind};
use clog_core::viewer::{
    build_line_window, build_lines_payload, build_lines_payload_capped, extend_with_appended,
    line_text_cap, OpenedFile, ViewError, WindowError,
};

/// A fresh, empty file wired to the wsl-dev builtin pattern.
fn fresh_file() -> (OpenedFile, CompiledScanner) {
    let pattern_src = builtin_pattern("wsl-dev").expect("wsl-dev builtin");
    let scanner_kind = ScannerKind::Pattern(pattern_src.to_string());
    let scanner = scanner_kind.compile().expect("compile wsl-dev");
    let file = OpenedFile::new(
        "test.log".to_string(),
        Vec::new(),
        &scanner,
        pattern_src.to_string(),
        Some("wsl-dev".to_string()),
        false,
    );
    (file, scanner)
}

fn extend(file: &mut OpenedFile, scanner: &CompiledScanner, payload: &[u8]) {
    let from = file.bytes.len() as u64;
    extend_with_appended(file, scanner, from, payload);
}

#[test]
fn level_minimap_baseline_worst_severity_per_bucket() {
    let (mut file, scanner) = fresh_file();
    let body = "[INFO ] 2026-05-22 16:28:59.246 [main] play - one\n[ERROR] 2026-05-22 16:28:59.247 [main] play - two\n[INFO ] 2026-05-22 16:28:59.248 [main] play - three\n";
    extend(&mut file, &scanner, body.as_bytes());
    assert_eq!(file.line_count, 3);
    let payload = build_level_minimap_payload(&file.records, file.line_count, 3);
    assert_eq!(payload.buckets.len(), 3);
    assert_eq!(payload.buckets[0].worst, Level::Info);
    assert_eq!(payload.buckets[1].worst, Level::Error);
    assert_eq!(payload.buckets[2].worst, Level::Info);
    assert_eq!(payload.line_count, 3);
}

#[test]
fn level_minimap_counts_errors_and_warns_per_bucket() {
    let (mut file, scanner) = fresh_file();
    let body = "[WARN ] 2026-05-22 16:28:59.246 [main] play - w\n[ERROR] 2026-05-22 16:28:59.247 [main] play - e\n[FATAL] 2026-05-22 16:28:59.248 [main] play - f\n[INFO ] 2026-05-22 16:28:59.249 [main] play - i\n";
    extend(&mut file, &scanner, body.as_bytes());
    assert_eq!(file.line_count, 4);
    let p = build_level_minimap_payload(&file.records, file.line_count, 1);
    assert_eq!(p.buckets.len(), 1);
    let b = &p.buckets[0];
    assert_eq!(b.worst, Level::Fatal);
    assert_eq!(b.error, 2, "ERROR + FATAL count");
    assert_eq!(b.warn, 1, "WARN count");
    assert_eq!(b.total, 4);
    assert_eq!(p.max_error_warn_sum, 3, "(error + warn) max");
    assert_eq!(p.max_total, 4);
}

#[test]
fn apply_truncate_rejects_inverted_and_counts_window() {
    let (mut file, scanner) = fresh_file();
    let mut body = String::new();
    for i in 0..100 {
        body.push_str(&format!("[INFO ] 2026-05-22 16:28:59.246 [main] play - line {i}\n"));
    }
    extend(&mut file, &scanner, body.as_bytes());
    assert_eq!(file.line_count, 100);
    assert_eq!(file.records.len(), 100);

    let err = file.apply_truncate(Some(50), Some(20)).expect_err("inverted window must be rejected");
    assert!(matches!(err, WindowError::Inverted { .. }));

    let payload = file.apply_truncate(Some(10), Some(40)).expect("valid window accepted");
    assert_eq!(payload.before, Some(10));
    assert_eq!(payload.after, Some(40));
    assert_eq!(payload.line_count, 30);
    assert_eq!(payload.record_count, 30);

    let cleared = file.apply_truncate(None, None).expect("clear accepted");
    assert_eq!(cleared.line_count, 100);
    assert_eq!(cleared.record_count, 100);
}

#[test]
fn get_lines_caps_long_line_and_reports_full_len() {
    let (mut file, scanner) = fresh_file();
    let prefix = "[INFO ] 2026-05-22 16:28:59.246 [main] play - ";
    let long_msg = "x".repeat(5000);
    let body = format!("{prefix}{long_msg}\n");
    extend(&mut file, &scanner, body.as_bytes());
    assert_eq!(file.line_count, 1);

    let payload = build_lines_payload(&file, 0, 1).expect("payload");
    let line = &payload.lines[0];
    let real_len = prefix.len() + long_msg.len();
    assert_eq!(line.full_len, real_len as u64, "full_len is the untruncated length");
    assert_eq!(line.text.len(), line_text_cap(), "text capped to the limit");
    assert!(line.text.len() < real_len, "line was actually truncated");
    assert!(line.truncated, "capped line is flagged truncated");
    assert!(body.starts_with(&line.text), "capped text is a prefix of the line");

    let full = build_lines_payload_capped(&file, 0, 1, None).expect("uncapped");
    assert_eq!(full.lines[0].text.len(), real_len, "uncapped is complete");
    assert_eq!(full.lines[0].full_len, real_len as u64);
    assert!(!full.lines[0].truncated, "uncapped line is not flagged truncated");
}

#[test]
fn get_lines_leaves_short_line_intact() {
    let (mut file, scanner) = fresh_file();
    let body = "[INFO ] 2026-05-22 16:28:59.246 [main] play - short\n";
    extend(&mut file, &scanner, body.as_bytes());
    let payload = build_lines_payload(&file, 0, 1).expect("payload");
    let line = &payload.lines[0];
    assert_eq!(line.text, "[INFO ] 2026-05-22 16:28:59.246 [main] play - short");
    assert_eq!(line.full_len, line.text.len() as u64);
    assert!(!line.truncated, "short line is not flagged truncated");
}

#[test]
fn multibyte_line_under_cap_is_not_flagged_truncated() {
    let (mut file, scanner) = fresh_file();
    let body = "[INFO ] 2026-05-22 16:28:59.246 [main] play - \u{00b5}m \u{00d7} 3 \u{2192} ok\n";
    extend(&mut file, &scanner, body.as_bytes());
    let payload = build_lines_payload(&file, 0, 1).expect("payload");
    let line = &payload.lines[0];
    assert!(line.full_len > line.text.chars().count() as u64, "precondition: more bytes than chars");
    assert!(!line.truncated, "multi-byte line under the cap is intact");
}

#[test]
fn line_window_centres_on_offset_and_clamps() {
    let (mut file, scanner) = fresh_file();
    let prefix = "[INFO ] 2026-05-22 16:28:59.246 [main] play - ";
    let long_msg = "x".repeat(5000);
    let body = format!("{prefix}{long_msg}\n");
    extend(&mut file, &scanner, body.as_bytes());
    let line_len = (prefix.len() + long_msg.len()) as u64;

    let w = build_line_window(&file, 0, 4000, 100).expect("window");
    assert_eq!(w.full_len, line_len);
    assert_eq!(w.start, 3900);
    assert_eq!(w.text.len(), 200);
    assert!(w.text.chars().all(|c| c == 'x'));

    let tail = build_line_window(&file, 0, line_len + 999, 50).expect("window");
    assert_eq!(tail.start, line_len - 50);
    assert_eq!(tail.text.len(), 50);

    assert!(matches!(build_line_window(&file, 9, 0, 10), Err(ViewError::OutOfRange)));
}

#[test]
fn level_minimap_empty_file_zeroes_counts() {
    let (file, _scanner) = fresh_file();
    let p = build_level_minimap_payload(&file.records, file.line_count, 8);
    assert_eq!(p.buckets.len(), 8);
    for b in &p.buckets {
        assert_eq!(b.worst, Level::Unknown);
        assert_eq!(b.error, 0);
        assert_eq!(b.warn, 0);
        assert_eq!(b.total, 0);
    }
    assert_eq!(p.max_error_warn_sum, 0);
    assert_eq!(p.max_total, 0);
}

#[test]
fn level_minimap_multi_line_record_bumps_every_touched_bucket_once() {
    let (mut file, scanner) = fresh_file();
    let body = "[ERROR] 2026-05-22 16:28:59.246 [main] play - boom\n    at com.example.A.foo(A.java:12)\n    at com.example.B.bar(B.java:34)\n";
    extend(&mut file, &scanner, body.as_bytes());
    assert_eq!(file.line_count, 3);
    assert_eq!(file.records.len(), 1);
    let p = build_level_minimap_payload(&file.records, file.line_count, 3);
    assert_eq!(p.buckets.len(), 3);
    for (i, b) in p.buckets.iter().enumerate() {
        assert_eq!(b.worst, Level::Error, "bucket {i}");
        assert_eq!(b.error, 1, "bucket {i} - counted once per touched bucket");
        assert_eq!(b.warn, 0, "bucket {i}");
        assert_eq!(b.total, 1, "bucket {i}");
    }
    assert_eq!(p.max_error_warn_sum, 1);
    assert_eq!(p.max_total, 1);
}

#[test]
fn windowed_minimap_relabels_buckets_to_span() {
    let wb = RecordHeader {
        byte_offset: 0,
        byte_len: 0,
        line_offset: 0,
        line_count: 1,
        level: Level::Error,
        fields: HeaderFields::default(),
    };
    let payload = build_level_minimap_payload(&[wb], 5, 1);
    assert_eq!(payload.buckets[0].worst, Level::Error);
    assert_eq!(payload.buckets[0].error, 1);
}

#[test]
fn appending_lines_one_at_a_time_keeps_get_lines_consistent() {
    let (mut file, scanner) = fresh_file();
    let body = [
        "[INFO ] 2026-05-22 16:28:59.246 [main] play - Starting /var/play/sites/cheesecake\n",
        "[INFO ] 2026-05-22 16:28:59.390 [main] play - Module crud is available\n",
        "[INFO ] 2026-05-22 16:28:59.391 [main] play - Module secure is available\n",
        "[INFO ] 2026-05-22 16:28:59.392 [main] play - Module crud is available\n",
    ];
    let expected_text: Vec<String> = body.iter().map(|l| l.trim_end().to_string()).collect();
    for (tick, payload) in body.iter().enumerate() {
        extend(&mut file, &scanner, payload.as_bytes());
        assert_eq!(file.line_count, (tick + 1) as u64, "line_count after tick {tick}");
        assert_eq!(file.records.len(), tick + 1, "records after tick {tick}");
        assert_eq!(file.record_first_line.len(), tick + 1);
        let lines = build_lines_payload(&file, 0, file.line_count).expect("build_lines_payload");
        assert_eq!(lines.lines.len(), tick + 1);
        for (i, got) in lines.lines.iter().enumerate() {
            assert_eq!(got.text, expected_text[i], "tick {tick}, line {i}");
            assert_eq!(got.line_within_record, 0, "tick {tick}, line {i}");
            assert!(got.fields.is_some(), "tick {tick}, line {i} should have axis-1 fields");
        }
    }
}

#[test]
fn appending_two_lines_in_one_batch_lands_them_both() {
    let (mut file, scanner) = fresh_file();
    let first = "[INFO ] 2026-05-22 16:28:59.246 [main] play - one\n";
    let second = "[INFO ] 2026-05-22 16:28:59.247 [main] play - two\n";
    let combined = format!("{first}{second}");
    extend(&mut file, &scanner, combined.as_bytes());
    assert_eq!(file.line_count, 2);
    assert_eq!(file.records.len(), 2);
    let r0 = &file.records[0];
    let r1 = &file.records[1];
    assert_eq!(r0.byte_offset + u64::from(r0.byte_len), r1.byte_offset);
    let lines = build_lines_payload(&file, 0, 2).expect("build_lines_payload");
    assert!(lines.lines[0].text.ends_with("- one"));
    assert!(lines.lines[1].text.ends_with("- two"));
}

#[test]
fn continuation_lines_extend_the_preceding_record() {
    let (mut file, scanner) = fresh_file();
    let header = "[ERROR] 2026-05-22 16:28:59.246 [main] play - boom\n";
    extend(&mut file, &scanner, header.as_bytes());
    assert_eq!(file.records.len(), 1);
    assert_eq!(file.records[0].line_count, 1);
    let stack = "\tat com.example.Foo.bar(Foo.java:42)\n\tat com.example.Foo.baz(Foo.java:17)\n";
    extend(&mut file, &scanner, stack.as_bytes());
    assert_eq!(file.line_count, 3);
    assert_eq!(file.records.len(), 1, "stack lines must not create new records");
    assert_eq!(file.records[0].line_count, 3);
    let lines = build_lines_payload(&file, 0, 3).expect("build_lines_payload");
    assert_eq!(lines.lines[0].line_within_record, 0);
    assert!(lines.lines[0].fields.is_some());
    assert_eq!(lines.lines[1].line_within_record, 1);
    assert!(lines.lines[1].fields.is_none());
    assert!(lines.lines[1].text.contains("Foo.java:42"));
    assert_eq!(lines.lines[2].line_within_record, 2);
    assert!(lines.lines[2].text.contains("Foo.java:17"));
}

#[test]
fn five_line_mixed_levels_each_become_their_own_record() {
    let body = [
        "[WARN ] 2026-05-22 16:28:59.246 [main] play - Starting /var/play/sites/cheesecake\n",
        "[DEBUG] 2026-05-22 16:28:59.390 [main] play - Module crud is available\n",
        "[TRACE] 2026-05-22 16:28:59.391 [main] play - Module secure is available\n",
        "[ERROR] 2026-05-22 16:28:59.392 [main] play - Module secure is available\n",
        "[ERROR] 2026-05-22 16:28:59.393 [main] play - Module secure is available\n",
    ];
    let expected_text: Vec<String> = body.iter().map(|l| l.trim_end().to_string()).collect();
    let expected_levels = [Level::Warn, Level::Debug, Level::Trace, Level::Error, Level::Error];

    let (mut file, scanner) = fresh_file();
    for (tick, payload) in body.iter().enumerate() {
        extend(&mut file, &scanner, payload.as_bytes());
        assert_eq!(file.line_count, (tick + 1) as u64, "tick {tick}: line_count");
        assert_eq!(file.records.len(), tick + 1, "tick {tick}: records.len");
        for (ri, rec) in file.records.iter().enumerate() {
            assert_eq!(rec.line_count, 1, "tick {tick}: record {ri} should be one line");
            assert_eq!(rec.level, expected_levels[ri], "tick {tick}: record {ri} level");
        }
        let lines = build_lines_payload(&file, 0, file.line_count).expect("build_lines_payload");
        assert_eq!(lines.lines.len(), tick + 1);
        for (i, got) in lines.lines.iter().enumerate() {
            assert_eq!(got.text, expected_text[i], "tick {tick} line {i} text");
            assert_eq!(got.line_within_record, 0, "tick {tick} line {i} l-w-r");
            assert_eq!(got.byte_offset_in_record, 0, "tick {tick} line {i} byte_offset_in_record");
            assert!(got.fields.is_some(), "tick {tick} line {i} fields present");
        }
    }

    let (mut file, scanner) = fresh_file();
    let combined: String = body.concat();
    extend(&mut file, &scanner, combined.as_bytes());
    assert_eq!(file.line_count, 5);
    assert_eq!(file.records.len(), 5);
    for (ri, rec) in file.records.iter().enumerate() {
        assert_eq!(rec.line_count, 1, "batch record {ri} should be one line");
        assert_eq!(rec.level, expected_levels[ri], "batch record {ri} level");
    }
    let lines = build_lines_payload(&file, 0, 5).expect("build_lines_payload");
    for (i, got) in lines.lines.iter().enumerate() {
        assert_eq!(got.text, expected_text[i], "batch line {i} text");
        assert_eq!(got.line_within_record, 0, "batch line {i} l-w-r");
        assert_eq!(got.byte_offset_in_record, 0, "batch line {i} boff");
    }
}

#[test]
fn header_and_continuation_interleaved_stay_consistent_across_ticks() {
    let (mut file, scanner) = fresh_file();
    extend(
        &mut file,
        &scanner,
        b"[ERROR] 2026-05-22 16:28:59.246 [main] play - boom\n\tat com.example.Foo.bar(Foo.java:42)\n",
    );
    assert_eq!(file.line_count, 2);
    assert_eq!(file.records.len(), 1);
    assert_eq!(file.records[0].line_count, 2);
    extend(
        &mut file,
        &scanner,
        b"\tat com.example.Foo.baz(Foo.java:17)\n[INFO ] 2026-05-22 16:28:59.300 [main] play - back to normal\n",
    );
    assert_eq!(file.line_count, 4);
    assert_eq!(file.records.len(), 2);
    assert_eq!(file.records[0].line_count, 3, "stack frames attach to ERROR");
    assert_eq!(file.records[1].line_count, 1, "INFO is its own record");
    let lines = build_lines_payload(&file, 0, 4).expect("build_lines_payload");
    assert_eq!(lines.lines[0].line_within_record, 0);
    assert_eq!(lines.lines[0].byte_offset_in_record, 0);
    assert!(lines.lines[0].fields.is_some());
    assert_eq!(lines.lines[1].line_within_record, 1);
    assert!(lines.lines[1].byte_offset_in_record > 0);
    assert_eq!(lines.lines[2].line_within_record, 2);
    assert!(lines.lines[2].byte_offset_in_record > lines.lines[1].byte_offset_in_record);
    assert_eq!(lines.lines[3].line_within_record, 0);
    assert_eq!(lines.lines[3].byte_offset_in_record, 0);
}

#[test]
fn rotation_then_append_starts_clean() {
    let (mut file, scanner) = fresh_file();
    extend(&mut file, &scanner, b"[INFO ] 2026-05-22 16:28:59.246 [main] play - old\n");
    assert_eq!(file.line_count, 1);

    file.bytes.clear();
    file.records.clear();
    file.line_offsets.clear();
    let post = b"[WARN ] 2026-05-22 16:29:01.000 [main] play - rotated\n";
    let new_line_offsets = vec![0u64];
    file.bytes.extend_from_slice(post);
    let parsed = scanner
        .try_parse_header(post.strip_suffix(b"\n").unwrap_or(post))
        .expect("parse post-rotation header");
    file.records.push(RecordHeader {
        byte_offset: 0,
        byte_len: u32::try_from(post.len()).expect("post fits in u32"),
        line_offset: 0,
        line_count: 1,
        level: parsed.level,
        fields: parsed.fields,
    });
    file.rebuild_line_caches(1, new_line_offsets);

    assert_eq!(file.line_count, 1);
    let lines = build_lines_payload(&file, 0, 1).expect("build_lines_payload after rotation");
    assert!(lines.lines[0].text.ends_with("- rotated"));
    assert_eq!(lines.lines[0].level, Level::Warn);

    extend(&mut file, &scanner, b"[INFO ] 2026-05-22 16:29:02.000 [main] play - next\n");
    assert_eq!(file.line_count, 2);
    let lines = build_lines_payload(&file, 0, 2).expect("build_lines_payload after rotated append");
    assert!(lines.lines[0].text.ends_with("- rotated"));
    assert!(lines.lines[1].text.ends_with("- next"));
    assert!(!lines.lines[0].text.contains("- old"));
    assert!(!lines.lines[1].text.contains("- old"));
}

fn level_word(i: u32) -> &'static str {
    match i % 6 {
        0 => "INFO ",
        1 => "DEBUG",
        2 => "WARN ",
        3 => "ERROR",
        4 => "TRACE",
        _ => "FATAL",
    }
}

fn expected_level(i: u32) -> Level {
    match i % 6 {
        0 => Level::Info,
        1 => Level::Debug,
        2 => Level::Warn,
        3 => Level::Error,
        4 => Level::Trace,
        _ => Level::Fatal,
    }
}

fn synth_lines(n_lines: u32) -> (Vec<u8>, Vec<Level>) {
    let mut bytes: Vec<u8> = Vec::new();
    let mut levels: Vec<Level> = Vec::new();
    for i in 0..n_lines {
        let level = level_word(i);
        let line = format!(
            "[{level}] 2026-05-22 16:28:59.{:03} [main] play - synthetic line {i}\n",
            i % 1000
        );
        bytes.extend_from_slice(line.as_bytes());
        levels.push(expected_level(i));
    }
    (bytes, levels)
}

fn tail_trim(buf: &[u8]) -> &[u8] {
    match buf.iter().rposition(|b| *b == b'\n') {
        Some(p) => &buf[..=p],
        None => &[],
    }
}

fn run_split_property(n_lines: u32, splits: Vec<u32>) {
    let (full_bytes, expected_levels) = synth_lines(n_lines);
    let total = full_bytes.len();

    let (mut ref_file, ref_scanner) = fresh_file();
    extend(&mut ref_file, &ref_scanner, &full_bytes);

    let mut points: Vec<usize> = splits.into_iter().map(|s| (s as usize).min(total)).collect();
    points.push(total);
    points.sort_unstable();
    points.dedup();

    let (mut streamed_file, streamed_scanner) = fresh_file();
    let mut shipped = 0usize;
    for boundary in points {
        let pending = &full_bytes[shipped..boundary];
        let usable = tail_trim(pending);
        if !usable.is_empty() {
            extend(&mut streamed_file, &streamed_scanner, usable);
            shipped += usable.len();
        }
    }
    assert_eq!(shipped, total, "tail must ship every complete line");
    assert_eq!(streamed_file.line_count, ref_file.line_count, "line_count parity");
    assert_eq!(streamed_file.records.len(), ref_file.records.len(), "records.len parity");
    assert_eq!(streamed_file.records.len(), n_lines as usize, "each synthetic line is its own record");
    for (i, rec) in streamed_file.records.iter().enumerate() {
        assert_eq!(rec.line_count, 1, "record {i} line_count");
        assert_eq!(rec.level, expected_levels[i], "record {i} level");
    }
    let ref_lines = build_lines_payload(&ref_file, 0, ref_file.line_count).unwrap();
    let streamed_lines = build_lines_payload(&streamed_file, 0, streamed_file.line_count).unwrap();
    for i in 0..ref_lines.lines.len() {
        assert_eq!(streamed_lines.lines[i].text, ref_lines.lines[i].text, "line {i} text parity");
        assert_eq!(streamed_lines.lines[i].line_within_record, 0, "line {i} l-w-r");
        assert_eq!(streamed_lines.lines[i].byte_offset_in_record, 0, "line {i} byte_offset_in_record");
    }
}

#[test]
fn tail_chunking_explicit_corner_cases() {
    run_split_property(5, vec![]);
    run_split_property(5, vec![3, 12, 40, 70]);
    run_split_property(3, vec![84, 168]);
    let (bytes, _) = synth_lines(4);
    let single_byte_splits: Vec<u32> = (1..u32::try_from(bytes.len()).unwrap_or(u32::MAX)).collect();
    run_split_property(4, single_byte_splits);
}

#[test]
fn markers_flag_core_plugin_load_records() {
    let (mut file, scanner) = fresh_file();
    let body = "[INFO ] 2026-05-22 16:28:59.246 [main] play - boot\n[INFO ] 2026-05-22 16:28:59.247 [main] play - Core Plugin Load: starting\n[INFO ] 2026-05-22 16:28:59.248 [main] play - serving\n[INFO ] 2026-05-22 16:30:01.000 [main] play - Core Plugin Load (round 2)\n";
    extend(&mut file, &scanner, body.as_bytes());
    assert_eq!(file.line_count, 4);
    let markers = scan_markers(&file.records, &file.bytes, &file.line_offsets, &builtin_marker_rules());
    assert_eq!(markers.len(), 2);
    assert_eq!(markers[0].kind, MarkerKind::Restart);
    assert_eq!(markers[0].line_index, 1);
    assert_eq!(markers[0].record_idx, 1);
    assert_eq!(markers[1].kind, MarkerKind::Restart);
    assert_eq!(markers[1].line_index, 3);
    assert_eq!(markers[1].record_idx, 3);
}

#[test]
fn markers_ignore_continuation_lines_carrying_the_needle() {
    let (mut file, scanner) = fresh_file();
    let body = "[ERROR] 2026-05-22 16:28:59.246 [main] play - boom\n    at com.example.Core Plugin Load.foo(X.java:1)\n";
    extend(&mut file, &scanner, body.as_bytes());
    assert_eq!(file.records.len(), 1);
    let markers = scan_markers(&file.records, &file.bytes, &file.line_offsets, &builtin_marker_rules());
    assert!(markers.is_empty(), "continuation match must not flag");
}

#[test]
fn markers_handle_empty_inputs() {
    let (file, _scanner) = fresh_file();
    let markers = scan_markers(&file.records, &file.bytes, &file.line_offsets, &builtin_marker_rules());
    assert!(markers.is_empty());
}

#[test]
fn markers_one_marker_per_record_even_with_multiple_matching_rules() {
    let (mut file, scanner) = fresh_file();
    let body = "[INFO ] 2026-05-22 16:28:59.246 [main] play - Core Plugin Load and friends\n";
    extend(&mut file, &scanner, body.as_bytes());
    let rules = vec![
        MarkerRule { kind: MarkerKind::Restart, needle: b"Core Plugin Load".to_vec() },
        MarkerRule { kind: MarkerKind::Restart, needle: b"Plugin Load".to_vec() },
    ];
    let markers = scan_markers(&file.records, &file.bytes, &file.line_offsets, &rules);
    assert_eq!(markers.len(), 1);
}
