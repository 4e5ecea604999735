use clog_core::record::{Level, RecordScanner};
use clog_core::regex_scanner::RegexScanner;

#[test]
fn parses_named_captures() {
    let r = RegexScanner::compile(
        r"(?P<timestamp>\d{4}-\d{2}-\d{2} \d{2}:\d{2}:\d{2}\.\d{3}) (?P<level>INFO|WARN|ERROR) \[(?P<thread>[^\]]+)\] - (?P<msg>.*)",
    )
    .ok()
    .expect("compile");
    let line = b"2026-05-21 00:00:04.401 INFO [play-thread-1] - hello";
    let h = r.try_parse_header(line).expect("matches");
    assert_eq!(h.level, Level::Info);
    assert!(h.fields.timestamp.is_some());
    assert!(h.fields.thread.is_some());
    assert!(h.fields.message.is_some());
}

#[test]
fn rejects_non_matching() {
    let r = RegexScanner::compile(r"^\[(?P<level>INFO)\]").ok().expect("compile");
    assert!(r.try_parse_header(b"  at Foo.bar(Foo.java:1)").is_none());
}

#[test]
fn regex_scanner_spans_and_anchoring() {
    let r = RegexScanner::compile(r"\[(?P<level> *WARN *)\] (?P<msg>.*)").ok().expect("compile");
    let line = b"[ WARN ] disk low";
    let h = r.try_parse_header(line).expect("matches at the start");
    assert_eq!(h.level, Level::Warn);
    assert_eq!(h.fields.level, Some((1, 7)));
    assert_eq!(h.fields.message, Some((9, 17)));
    assert!(h.fields.thread.is_none());
    assert!(r.try_parse_header(b"x [ WARN ] disk low").is_none(), "anchored at line start");
}

#[test]
fn regex_scanner_rejects_bad_regex() {
    assert!(RegexScanner::compile("(unclosed").is_err());
}
