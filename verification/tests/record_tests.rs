use clog_core::index::LineIndex;
use clog_core::record::{scan_records, Level, WslOinkScanner};

fn idx_for(bytes: &[u8]) -> LineIndex {
    LineIndex::build(bytes)
}

#[test]
fn classifies_padded_levels() {
    let s = WslOinkScanner;
    assert_eq!(s.classify_header(b"[INFO ] 2026..."), Some(Level::Info));
    assert_eq!(s.classify_header(b"[WARN ] 2026..."), Some(Level::Warn));
    assert_eq!(s.classify_header(b"[ERROR] 2026..."), Some(Level::Error));
    assert_eq!(s.classify_header(b"[DEBUG] 2026..."), Some(Level::Debug));
    assert_eq!(s.classify_header(b"[TRACE] 2026..."), Some(Level::Trace));
}

#[test]
fn rejects_non_headers() {
    let s = WslOinkScanner;
    assert_eq!(s.classify_header(b"  at com.foo.Bar(Bar.java:42)"), None);
    assert_eq!(s.classify_header(b"[NOPE ] x"), None);
    assert_eq!(s.classify_header(b""), None);
    assert_eq!(s.classify_header(b"[INFO]x"), None);
}

#[test]
fn single_record_no_continuation() {
    let bytes = b"[INFO ] 2026-01-01 00:00:00.000 [t] play - hi\n";
    let li = idx_for(bytes);
    let recs = scan_records(&WslOinkScanner, &li, bytes);
    assert_eq!(recs.len(), 1);
    assert_eq!(recs[0].byte_offset, 0);
    assert_eq!(u64::from(recs[0].byte_len), bytes.len() as u64);
    assert_eq!(recs[0].line_count, 1);
    assert_eq!(recs[0].level, Level::Info);
}

#[test]
fn record_with_continuation_lines() {
    let bytes = b"[ERROR] 2026-01-01 00:00:00.000 [t] play - boom\n  at A.b(A.java:1)\n  at C.d(C.java:2)\n[INFO ] 2026-01-01 00:00:01.000 [t] play - ok\n";
    let li = idx_for(bytes);
    let recs = scan_records(&WslOinkScanner, &li, bytes);
    assert_eq!(recs.len(), 2);
    assert_eq!(recs[0].level, Level::Error);
    assert_eq!(recs[0].line_count, 3);
    assert_eq!(recs[1].level, Level::Info);
    assert_eq!(recs[1].line_count, 1);
    assert_eq!(recs[0].byte_offset + u64::from(recs[0].byte_len), recs[1].byte_offset);
    assert_eq!(recs[1].byte_offset + u64::from(recs[1].byte_len), li.file_size);
}

#[test]
fn orphan_continuation_becomes_unknown_record() {
    let bytes = b"   leading garbage\n[INFO ] 2026-01-01 00:00:00.000 [t] play - hi\n";
    let li = idx_for(bytes);
    let recs = scan_records(&WslOinkScanner, &li, bytes);
    assert_eq!(recs.len(), 2);
    assert_eq!(recs[0].level, Level::Unknown);
    assert_eq!(recs[1].level, Level::Info);
}
