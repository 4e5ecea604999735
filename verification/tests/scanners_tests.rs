use clog_core::pattern::{builtin_pattern, builtin_patterns};
use clog_core::record::Level;
use clog_core::scanners::{apply_pattern, resolve_scanner, scanner_from_override, ScannerChoice, ScannerError, ScannerKind};
use clog_core::viewer::{build_lines_payload, OpenedFile};

#[test]
fn sources_are_marked_by_kind_and_looseness() {
    let p = ScannerKind::Pattern("%msg%n".to_string());
    let r = ScannerKind::Regex("^x".to_string());
    assert_eq!(p.pattern_source(), "%msg%n");
    assert_eq!(r.pattern_source(), "regex:^x");
    assert_eq!(p.fingerprint_source(true), "loose:%msg%n");
    assert_eq!(r.fingerprint_source(true), "loose:regex:^x");
    assert_eq!(r.fingerprint_source(false), "regex:^x");
}

#[test]
fn overrides_must_compile() {
    assert!(matches!(scanner_from_override("regex", "^\\[(?P<level>\\w+)\\]"), Ok(ScannerKind::Regex(_))));
    assert!(matches!(scanner_from_override("regex", "(oops"), Err(ScannerError::Regex(_))));
    assert!(matches!(scanner_from_override("pattern", "%level %msg%n"), Ok(ScannerKind::Pattern(_))));
    assert!(matches!(scanner_from_override("pattern", "bad %"), Err(ScannerError::Pattern(_))));
}

#[test]
fn applying_a_pattern_rescans_loosely() {
    let src = builtin_pattern("wsl-dev").unwrap();
    let scanner = ScannerKind::Pattern(src.to_string()).compile().ok().unwrap();
    let body = b"[ERROR] 2026-01-01 00:00:00.000 [t] play - boom\n  at A.b(A.java:1)\n".to_vec();
    let mut file = OpenedFile::new("f.log".to_string(), body, &scanner, src.to_string(), Some("wsl-dev".to_string()), false);
    assert_eq!(file.records.len(), 1);

    assert!(matches!(apply_pattern(&mut file, None, None), Err(ScannerError::Missing)));
    assert!(apply_pattern(&mut file, Some("bad %".to_string()), None).is_err());
    assert_eq!(file.records.len(), 1, "a refused pattern changes nothing");

    let (payload, kind, _) = apply_pattern(&mut file, Some(src.to_string()), None).ok().unwrap();
    assert_eq!(payload.record_count, 2, "every line is its own record");
    assert!(payload.loose);
    assert!(matches!(kind, ScannerKind::Pattern(_)));
    assert_eq!(file.records[1].level, Level::Unknown);
    assert!(file.loose);
    assert!(file.pattern_name.is_none());
    assert_eq!(file.record_first_line, vec![0, 1]);
    let lines = build_lines_payload(&file, 0, 2).ok().unwrap();
    assert_eq!(lines.lines[1].record_idx, 1);

    let (payload, _, _) = apply_pattern(&mut file, None, Some("^\\[(?P<level>[A-Z]+)".to_string())).ok().unwrap();
    assert_eq!(payload.pattern_source, "regex:^\\[(?P<level>[A-Z]+)");
    assert_eq!(file.records[0].level, Level::Error);
}

#[test]
fn resolve_scanner_prefers_override_then_detection_then_fallback() {
    let sample: Vec<Vec<u8>> = vec![
        b"2026-05-21 00:00:04.401 INFO [play-thread-1] - hi".to_vec(),
        b"2026-05-21 00:00:30.409 WARN [play-thread-20] - oh".to_vec(),
    ];
    match resolve_scanner(Some(("regex", "(?P<level>[A-Z]+) ")), &sample).unwrap() {
        ScannerChoice::Override(ScannerKind::Regex(s)) => assert_eq!(s, "(?P<level>[A-Z]+) "),
        other => panic!("expected the override, got {other:?}"),
    }
    assert!(resolve_scanner(Some(("regex", "(")), &sample).is_err());
    assert!(resolve_scanner(Some(("pattern", "foo %")), &sample).is_err());
    match resolve_scanner(None, &sample).unwrap() {
        ScannerChoice::Detected(name, ScannerKind::Pattern(src), hit, total) => {
            assert_eq!(name, "prod");
            assert_eq!(src, builtin_pattern("prod").unwrap());
            assert_eq!((hit, total), (2, 2));
        }
        other => panic!("expected detection, got {other:?}"),
    }
    match resolve_scanner(None, &vec![b"plain text".to_vec()]).unwrap() {
        ScannerChoice::Fallback(ScannerKind::Pattern(src)) => assert_eq!(src, builtin_patterns()[0].1),
        other => panic!("expected the fallback, got {other:?}"),
    }
}
