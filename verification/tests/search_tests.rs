use clog_core::index::LineIndex;
use clog_core::pattern::{builtin_pattern, CompiledPattern};
use clog_core::record::{scan_records, Level, RecordHeader};
use clog_core::search::{search_records, smart_match, smart_tokens, LevelMask, SearchMode, SearchOptions};
use clog_core::thread_groups::{ThreadGroup, ThreadGroupMask};

fn smart(text: &[u8], query: &str) -> Option<(Vec<(u32, u32)>, u32)> {
    let tokens = smart_tokens(query, false);
    smart_match(text, &tokens, false)
}

fn wsl_records(bytes: &[u8]) -> Vec<RecordHeader> {
    let li = LineIndex::build(bytes);
    let scanner = CompiledPattern::compile(builtin_pattern("wsl-dev").unwrap()).unwrap();
    scan_records(&scanner, &li, bytes)
}

#[test]
fn smart_ranking_matches_design_table() {
    let (_, zero) = smart(b"connectionrefused", "connection refused").expect("hit");
    let (_, one) = smart(b"connection refused", "connection refused").expect("hit");
    let (_, five) = smart(b"connection was refused", "connection refused").expect("hit");
    assert_eq!(zero, 0);
    assert_eq!(one, 1);
    assert_eq!(five, 5);
    assert!(zero < one);
    assert!(one < five);
}

#[test]
fn smart_multi_token_sums_gaps() {
    let (_, gap) = smart(b"foo___bar_baz", "foo bar baz").expect("hit");
    assert_eq!(gap, 3 + 1);
}

#[test]
fn smart_requires_in_order_match() {
    assert!(smart(b"refused connection", "connection refused").is_none());
}

#[test]
fn smart_is_case_insensitive_by_default() {
    let tokens = smart_tokens("CoNnEcT", false);
    assert!(smart_match(b"connection refused", &tokens, false).is_some());
}

#[test]
fn smart_respects_case_sensitive_flag() {
    let tokens = smart_tokens("CoNnEcT", true);
    assert!(smart_match(b"connection refused", &tokens, true).is_none());
    let tokens = smart_tokens("connection", true);
    assert!(smart_match(b"connection refused", &tokens, true).is_some());
}

#[test]
fn regex_does_not_cross_record_boundary() {
    let bytes = b"[INFO ] 2026-01-01 00:00:00.000 [t] play - alpha\n[INFO ] 2026-01-01 00:00:01.000 [t] play - beta\n";
    let records = wsl_records(bytes);
    assert_eq!(records.len(), 2);
    let hits = search_records(&records, bytes, SearchMode::Regex, r"alpha\n\[INFO", SearchOptions::default())
        .ok()
        .expect("regex compiles");
    assert!(hits.is_empty(), "match must not cross record boundary");
    let hits = search_records(&records, bytes, SearchMode::Regex, "alpha", SearchOptions::default())
        .ok()
        .unwrap();
    assert_eq!(hits.len(), 1);
    assert_eq!(hits[0].record_idx, 0);
}

#[test]
fn smart_does_not_cross_record_boundary() {
    let bytes = b"[INFO ] 2026-01-01 00:00:00.000 [t] play - alpha\n[INFO ] 2026-01-01 00:00:01.000 [t] play - beta\n";
    let records = wsl_records(bytes);
    let hits = search_records(&records, bytes, SearchMode::Smart, "alpha beta", SearchOptions::default())
        .ok()
        .unwrap();
    assert!(hits.is_empty());
}

#[test]
fn level_mask_filters_records() {
    let bytes = b"[INFO ] 2026-01-01 00:00:00.000 [t] play - hello\n[ERROR] 2026-01-01 00:00:01.000 [t] play - hello\n";
    let records = wsl_records(bytes);
    let hits = search_records(&records, bytes, SearchMode::Smart, "hello", SearchOptions::default())
        .ok()
        .unwrap();
    assert_eq!(hits.len(), 2);
    let opts = SearchOptions { level_mask: LevelMask::all().with(Level::Info, false), ..SearchOptions::default() };
    let hits = search_records(&records, bytes, SearchMode::Smart, "hello", opts).ok().unwrap();
    assert_eq!(hits.len(), 1);
    assert_eq!(hits[0].record_idx, 1);
}

#[test]
fn thread_group_mask_filters_records() {
    let bytes = b"[INFO ] 2026-01-01 00:00:00.000 [play-thread-1] play - hello\n[INFO ] 2026-01-01 00:00:01.000 [jobs-thread-2] play - hello\n";
    let records = wsl_records(bytes);
    assert_eq!(records.len(), 2);
    let hits = search_records(&records, bytes, SearchMode::Smart, "hello", SearchOptions::default())
        .ok()
        .unwrap();
    assert_eq!(hits.len(), 2);
    let opts = SearchOptions {
        thread_group_mask: ThreadGroupMask::all().with(ThreadGroup::Jobs, false),
        ..SearchOptions::default()
    };
    let hits = search_records(&records, bytes, SearchMode::Smart, "hello", opts).ok().unwrap();
    assert_eq!(hits.len(), 1);
    assert_eq!(hits[0].record_idx, 0);
}
