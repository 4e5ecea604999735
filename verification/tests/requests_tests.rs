use clog_core::pattern::builtin_pattern;
use clog_core::record::Level;
use clog_core::requests::{
    argv_path_candidates, default_full_thread_group_mask, filter_hits_to_window, options_from_bits,
    plan_search, SearchRequest, SearchRequestError,
};
use clog_core::scanners::{CompiledScanner, ScannerKind};
use clog_core::search::{search_records, LevelMask, SearchMode};
use clog_core::thread_groups::{ThreadGroup, ThreadGroupMask};
use clog_core::viewer::OpenedFile;

fn request(mode: &str, query: &str) -> SearchRequest {
    SearchRequest {
        mode: mode.to_string(),
        query: query.to_string(),
        case_sensitive: false,
        level_mask: 0xFFFF_FFFF,
        thread_group_mask: default_full_thread_group_mask(),
    }
}

fn open(body: &[u8]) -> (OpenedFile, CompiledScanner) {
    let src = builtin_pattern("wsl-dev").unwrap();
    let scanner = ScannerKind::Pattern(src.to_string()).compile().ok().unwrap();
    let file = OpenedFile::new("f.log".to_string(), body.to_vec(), &scanner, src.to_string(), Some("wsl-dev".to_string()), false);
    (file, scanner)
}

#[test]
fn plan_search_checks_mode_query_and_regex() {
    assert!(matches!(plan_search(&request("fuzzy", "x")), Err(SearchRequestError::UnknownMode(m)) if m == "fuzzy"));
    assert!(matches!(plan_search(&request("smart", " \t ")), Err(SearchRequestError::EmptyQuery)));
    assert!(matches!(plan_search(&request("regex", "(open")), Err(SearchRequestError::BadRegex(_))));
    let (mode, opts) = plan_search(&request("smart", "hello world")).ok().unwrap();
    assert_eq!(mode, SearchMode::Smart);
    assert_eq!(opts.level_mask, LevelMask(0xFFFF));
    assert_eq!(opts.thread_group_mask, ThreadGroupMask::all());
    let (mode, _) = plan_search(&request("regex", "a+b")).ok().unwrap();
    assert_eq!(mode, SearchMode::Regex);
}

#[test]
fn masks_keep_their_low_bits() {
    let o = options_from_bits(true, 0x1_0004, 0x1FF);
    assert!(o.case_sensitive);
    assert_eq!(o.level_mask, LevelMask(4));
    assert_eq!(o.thread_group_mask, ThreadGroupMask(0xFF));
}

#[test]
fn hits_outside_the_window_are_dropped() {
    let body = b"[INFO ] 2026-01-01 00:00:00.000 [t] play - hello\n[INFO ] 2026-01-01 00:00:01.000 [t] play - hello\n[INFO ] 2026-01-01 00:00:02.000 [t] play - hello\n";
    let (file, _) = open(body);
    let (mode, opts) = plan_search(&request("smart", "hello")).ok().unwrap();
    let hits = search_records(&file.records, &file.bytes, mode, "hello", opts).ok().unwrap();
    assert_eq!(hits.len(), 3);
    let kept = filter_hits_to_window(hits, 1, 2);
    assert_eq!(kept.len(), 1);
    assert_eq!(kept[0].record_idx, 1);
}

#[test]
fn records_by_filters_respect_window_level_and_thread() {
    let body = b"[INFO ] 2026-01-01 00:00:00.000 [play-thread-1] play - a\n[ERROR] 2026-01-01 00:00:01.000 [jobs-thread-2] play - b\n  at X.y(X.java:1)\n[WARN ] 2026-01-01 00:00:02.000 [main] play - c\n";
    let (mut file, _) = open(body);
    assert_eq!(file.records.len(), 3);
    let all = file.list_records_by_filters(0xFFFF, 0x3F);
    assert_eq!(all.len(), 3);
    assert_eq!(all[1].record_first_line, 1);
    assert_eq!(all[1].record_line_count, 2);
    assert_eq!(all[2].record_first_line, 3);
    let no_info = file.list_records_by_filters(LevelMask::all().with(Level::Info, false).0 as u32, 0x3F);
    assert_eq!(no_info.len(), 2);
    let no_jobs = file.list_records_by_filters(0xFFFF, ThreadGroupMask::all().with(ThreadGroup::Jobs, false).0 as u32);
    assert_eq!(no_jobs.iter().map(|r| r.record_idx).collect::<Vec<_>>(), vec![0, 2]);
    file.apply_truncate(Some(1), Some(3)).ok().unwrap();
    let windowed = file.list_records_by_filters(0xFFFF, 0x3F);
    assert_eq!(windowed.len(), 1);
    assert_eq!(windowed[0].level, Level::Error);
}

#[test]
fn markers_and_minimap_follow_the_window() {
    let body = b"[INFO ] 2026-01-01 00:00:00.000 [t] play - Core Plugin Load\n[ERROR] 2026-01-01 00:00:01.000 [t] play - x\n[INFO ] 2026-01-01 00:00:02.000 [t] play - Core Plugin Load\n";
    let (mut file, _) = open(body);
    assert_eq!(file.markers().len(), 2);
    let m = file.level_minimap(3);
    assert_eq!(m.buckets[1].worst, Level::Error);
    file.apply_truncate(Some(1), None).ok().unwrap();
    let markers = file.markers();
    assert_eq!(markers.len(), 1);
    assert_eq!(markers[0].line_index, 2);
    let m = file.level_minimap(2);
    assert_eq!(m.line_count, 2);
    assert_eq!(m.buckets[0].worst, Level::Error);
    assert_eq!(m.buckets[1].worst, Level::Info);
}

#[test]
fn records_slice_returns_headers_and_text() {
    let body = b"[INFO ] 2026-01-01 00:00:00.000 [t] play - a\n[WARN ] 2026-01-01 00:00:01.000 [t] play - b\n";
    let (file, _) = open(body);
    let s = file.records_slice(1, 2).ok().unwrap();
    assert_eq!(s.start, 1);
    assert_eq!(s.base_offset, 45);
    assert_eq!(s.headers.len(), 1);
    assert_eq!(s.text.unwrap(), "[WARN ] 2026-01-01 00:00:01.000 [t] play - b\n");
    assert!(file.records_slice(1, 1).is_err());
    assert!(file.records_slice(0, 3).is_err());
}

#[test]
fn argv_drops_executable_and_options() {
    let argv: Vec<String> = vec!["clog".into(), "-v".into(), "/a.log".into(), "b.log".into(), "--x".into()];
    assert_eq!(argv_path_candidates(&argv), vec!["/a.log".to_string(), "b.log".to_string()]);
    assert!(argv_path_candidates(&[]).is_empty());
}
