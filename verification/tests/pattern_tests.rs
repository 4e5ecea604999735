use clog_core::pattern::{auto_detect, builtin_pattern, builtin_patterns, CompiledPattern, PatternError, Token};
use clog_core::record::Level;

fn wsl_oink() -> CompiledPattern {
    CompiledPattern::compile(builtin_patterns()[0].1).expect("compile")
}

#[test]
fn compile_wsl_oink_pattern() {
    let p = wsl_oink();
    assert!(p.tokens.iter().any(|t| matches!(t, Token::Level { width: Some(5) })));
    assert!(p.tokens.iter().any(|t| matches!(t, Token::Logger { precision: Some(1) })));
}

#[test]
fn parse_wsl_oink_header_yields_field_spans() {
    let p = wsl_oink();
    let line = b"[INFO ] 2026-05-22 16:28:59.246 [main] play - Starting /var/play";
    let h = p.try_parse_header(line).expect("parses as header");
    assert_eq!(h.level, Level::Info);
    let (ls, le) = h.fields.level.unwrap();
    assert_eq!(&line[ls as usize..le as usize], b"INFO ");
    let (ts, te) = h.fields.timestamp.unwrap();
    assert_eq!(&line[ts as usize..te as usize], b"2026-05-22 16:28:59.246");
    let (ths, the) = h.fields.thread.unwrap();
    assert_eq!(&line[ths as usize..the as usize], b"main");
    let (lgs, lge) = h.fields.logger.unwrap();
    assert_eq!(&line[lgs as usize..lge as usize], b"play");
    let (ms, me) = h.fields.message.unwrap();
    assert_eq!(&line[ms as usize..me as usize], b"Starting /var/play");
}

#[test]
fn parse_prod_header_no_logger() {
    let p = CompiledPattern::compile(builtin_pattern("prod").unwrap()).expect("compile");
    let line = b"2026-05-21 00:00:04.401 INFO [play-thread-1] - SLOW REQUEST: 2826ms";
    let h = p.try_parse_header(line).expect("parses");
    assert_eq!(h.level, Level::Info);
    let (ts, te) = h.fields.timestamp.unwrap();
    assert_eq!(&line[ts as usize..te as usize], b"2026-05-21 00:00:04.401");
    let (ths, the) = h.fields.thread.unwrap();
    assert_eq!(&line[ths as usize..the as usize], b"play-thread-1");
    assert!(h.fields.logger.is_none());
    let (ms, me) = h.fields.message.unwrap();
    assert!(line[ms as usize..me as usize].starts_with(b"SLOW REQUEST"));
}

#[test]
fn parse_log4j2_default_header() {
    let p = CompiledPattern::compile(builtin_pattern("log4j2-default").unwrap()).expect("compile");
    let line = b"2026-05-22 16:28:59,246 [main] INFO  com.example.Foo - hi";
    let h = p.try_parse_header(line).expect("parses");
    assert_eq!(h.level, Level::Info);
}

#[test]
fn rejects_continuation_lines() {
    let p = wsl_oink();
    assert!(p.try_parse_header(b"  at com.example.Foo.bar(Foo.java:42)").is_none());
    assert!(p.try_parse_header(b"Caused by: java.lang.RuntimeException").is_none());
}

#[test]
fn unknown_specifier_warns() {
    let p = CompiledPattern::compile("%X{foo} %level %msg%n").expect("compile");
    assert_eq!(p.warnings.len(), 1);
}

#[test]
fn errors_on_dangling_percent() {
    assert!(matches!(CompiledPattern::compile("foo %"), Err(PatternError::DanglingPercent)));
}

#[test]
fn parse_class_site_header() {
    let p = CompiledPattern::compile(builtin_pattern("play-class-site").unwrap()).expect("compile");
    let line = b"2026-05-22 16:28:59,246 INFO  [main] com.example.Foo (Foo.java:42) - boot";
    let h = p.try_parse_header(line).expect("parses");
    assert_eq!(h.level, Level::Info);
    let (ts, te) = h.fields.timestamp.unwrap();
    assert_eq!(&line[ts as usize..te as usize], b"2026-05-22 16:28:59,246");
    let (ths, the) = h.fields.thread.unwrap();
    assert_eq!(&line[ths as usize..the as usize], b"main");
    let (lgs, lge) = h.fields.logger.unwrap();
    assert_eq!(&line[lgs as usize..lge as usize], b"com.example.Foo");
    let (ms, me) = h.fields.message.unwrap();
    assert_eq!(&line[ms as usize..me as usize], b"boot");
}

#[test]
fn parse_absolute_site_header() {
    let p = CompiledPattern::compile(builtin_pattern("play-absolute-site").unwrap()).expect("compile");
    let line = b"12:30:45,123 INFO  ~ (App.java:7) - hello";
    let h = p.try_parse_header(line).expect("parses");
    assert_eq!(h.level, Level::Info);
    let (lgs, lge) = h.fields.logger.unwrap();
    assert_eq!(&line[lgs as usize..lge as usize], b"App.java");
}

#[test]
fn parse_short_dash_distinguishes_from_short() {
    let dash = CompiledPattern::compile(builtin_pattern("play-short-dash").unwrap()).expect("compile");
    let plain = CompiledPattern::compile(builtin_pattern("play-short").unwrap()).expect("compile");
    let with_dash = b"12:30:45,123 INFO ~ - greetings";
    let no_dash = b"12:30:45,123 INFO ~ greetings";
    assert!(dash.try_parse_header(with_dash).is_some());
    assert!(plain.try_parse_header(with_dash).is_some());
    assert!(dash.try_parse_header(no_dash).is_none());
    assert!(plain.try_parse_header(no_dash).is_some());
}

#[test]
fn parse_absolute_pattern() {
    let p = CompiledPattern::compile(builtin_pattern("play-absolute").unwrap()).expect("compile");
    let line = b"12:30:45,123 INFO  ~ application booted";
    let h = p.try_parse_header(line).expect("parses");
    assert_eq!(h.level, Level::Info);
    let (ts, te) = h.fields.timestamp.unwrap();
    assert_eq!(&line[ts as usize..te as usize], b"12:30:45,123");
}

#[test]
fn parse_prod_no_thread_header() {
    let p = CompiledPattern::compile(builtin_pattern("prod-no-thread").unwrap()).expect("compile");
    let line = b"2026-05-22 16:28:59.246 WARN - cache miss";
    let h = p.try_parse_header(line).expect("parses");
    assert_eq!(h.level, Level::Warn);
}

#[test]
fn errors_on_unterminated_brace() {
    assert!(matches!(
        CompiledPattern::compile("%d{yyyy"),
        Err(PatternError::UnterminatedDateBrace { .. })
    ));
}

fn lines_of(raw: &[&[u8]]) -> Vec<Vec<u8>> {
    raw.iter().map(|l| l.to_vec()).collect()
}

fn score(hit: u32, total: u32) -> f32 {
    if total == 0 {
        0.0
    } else {
        hit as f32 / total as f32
    }
}

#[test]
fn match_score_runs() {
    let p = wsl_oink();
    let lines = lines_of(&[
        b"[INFO ] 2026-05-22 16:28:59.246 [main] play - Starting",
        b"[WARN ] 2026-05-22 16:28:59.247 [main] play - hmm",
        b"  at com.example.Foo.bar(Foo.java:42)",
    ]);
    let (hit, total) = p.header_count(&lines);
    assert_eq!((hit, total), (2, 3));
    assert!((score(hit, total) - 2.0 / 3.0).abs() < 1e-6);
}

#[test]
fn auto_detect_picks_wsl_oink() {
    let lines = lines_of(&[
        b"[INFO ] 2026-05-22 16:28:59.246 [main] play - Starting",
        b"[INFO ] 2026-05-22 16:28:59.247 [main] play - Module x",
    ]);
    let (name, _, hit, total) = auto_detect(&lines).expect("detects");
    assert_eq!(name, "wsl-oink");
    assert!(score(hit, total) > 0.9);
}

#[test]
fn auto_detect_picks_prod() {
    let lines = lines_of(&[
        b"2026-05-21 00:00:04.401 INFO [play-thread-1] - hi",
        b"2026-05-21 00:00:30.409 WARN [play-thread-20] - oh",
    ]);
    let (name, _, _, _) = auto_detect(&lines).expect("detects");
    assert_eq!(name, "prod");
}

#[test]
fn auto_detect_prefers_prod_over_prod_no_thread() {
    let lines = lines_of(&[
        b"2026-05-21 00:00:04.401 INFO [play-thread-1] - hi",
        b"2026-05-21 00:00:30.409 WARN [play-thread-20] - oh",
    ]);
    let (name, _, _, _) = auto_detect(&lines).expect("detects");
    assert_eq!(name, "prod");
}

#[test]
fn auto_detect_picks_class_site() {
    let lines = lines_of(&[
        b"2026-05-22 16:28:59,246 INFO  [main] com.example.Foo (Foo.java:42) - hi",
        b"2026-05-22 16:28:59,247 WARN  [main] com.example.Bar (Bar.java:7) - oh",
    ]);
    let (name, _, hit, total) = auto_detect(&lines).expect("detects");
    assert_eq!(name, "play-class-site");
    assert!(score(hit, total) > 0.9);
}

#[test]
fn auto_detect_finds_nothing_in_plain_text() {
    let lines = lines_of(&[b"hello world", b"no header here"]);
    assert!(auto_detect(&lines).is_none());
    assert!(auto_detect(&Vec::new()).is_none());
}

#[test]
fn auto_detect_reports_the_chosen_patterns_counts() {
    let lines = lines_of(&[
        b"2026-05-21 00:00:04.401 INFO [play-thread-1] - hi",
        b"    continuation",
        b"2026-05-21 00:00:30.409 WARN [play-thread-20] - oh",
    ]);
    let (name, pat, hit, total) = auto_detect(&lines).expect("detects");
    assert_eq!(name, "prod");
    assert_eq!(pat.source, builtin_pattern("prod").unwrap());
    assert_eq!((hit, total), (2, 3));
}

#[test]
fn builtin_lookup_by_name() {
    assert_eq!(builtin_pattern("wsl-dev"), Some("[%-5level] %d{yyyy-MM-dd HH:mm:ss.SSS} [%t] %c{1} - %msg%n"));
    assert_eq!(builtin_pattern("wsl-oink"), Some(builtin_patterns()[0].1));
    assert_eq!(builtin_pattern("prod"), Some("%d{yyyy-MM-dd HH:mm:ss.SSS} %level [%t] - %msg%n"));
    assert_eq!(builtin_pattern("no-such-pattern"), None);
}

#[test]
fn header_field_ranges_lie_inside_the_line() {
    for (_, src) in builtin_patterns() {
        let p = CompiledPattern::compile(src).expect("builtin compiles");
        for line in [
            &b"[INFO ] 2026-05-22 16:28:59.246 [main] play - Starting"[..],
            &b"2026-05-21 00:00:04.401 INFO [play-thread-1] - hi"[..],
            &b"2026-05-22 16:28:59,246 INFO  [main] com.example.Foo (Foo.java:42) - hi"[..],
        ] {
            if let Some(h) = p.try_parse_header(line) {
                let f = h.fields;
                assert_eq!(f.level.is_some(), h.level != Level::Unknown);
                assert_eq!(h.level != Level::Unknown, p.tokens.iter().any(|t| matches!(t, Token::Level { .. })));
                for (a, b) in [f.level, f.timestamp, f.thread, f.logger, f.message].into_iter().flatten() {
                    assert!(a <= b && b as usize <= line.len());
                }
                if let Some((_, b)) = f.message {
                    assert_eq!(b as usize, line.len());
                }
            }
        }
    }
}

#[test]
fn wsl_oink_roundtrips() {
    let p = wsl_oink();
    let levels = [
        ("TRACE", Level::Trace),
        ("DEBUG", Level::Debug),
        ("INFO ", Level::Info),
        ("WARN ", Level::Warn),
        ("ERROR", Level::Error),
        ("FATAL", Level::Fatal),
    ];
    let threads = ["main", "a", "play-thread-1", "Worker_12-x"];
    let loggers = ["play", "p", "application"];
    let msgs = ["Starting", "x", "Module crud is available (/usr/local/play-1.7.1/modules/crud)", "a=b, c:d; e_f"];
    for (w, lv) in levels {
        for t in threads {
            for lg in loggers {
                for m in msgs {
                    let line = format!("[{w}] 2026-05-22 16:28:59.246 [{t}] {lg} - {m}");
                    assert_eq!(p.try_parse_header(line.as_bytes()).map(|h| h.level), Some(lv), "{line}");
                }
            }
        }
    }
}

#[test]
fn compiled_patterns_are_tidy() {
    let mut sources: Vec<&str> = builtin_patterns().into_iter().map(|(_, s)| s).collect();
    sources.extend(["%%%d %t%%x", "a%X{q}b%c - %m", "%F:%L %msg%n"]);
    for src in sources {
        let p = CompiledPattern::compile(src).expect("compiles");
        let t = &p.tokens;
        for (k, tok) in t.iter().enumerate() {
            if let Token::Literal(b) = tok {
                assert!(!b.is_empty(), "{src}");
                assert!(!matches!(t.get(k + 1), Some(Token::Literal(_))), "{src}");
            }
            if matches!(tok, Token::Thread | Token::Logger { .. } | Token::SourceFile) {
                assert!(
                    matches!(t.get(k + 1), None | Some(Token::Literal(_)) | Some(Token::Message) | Some(Token::Newline)),
                    "{src}"
                );
            }
        }
    }
}
