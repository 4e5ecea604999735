use clog_core::pattern::{builtin_patterns, CompiledPattern};
use clog_core::regex_scanner::RegexScanner;
use clog_core::summary::{header_count_with, index_file, sample_lines, summarise_file};

#[test]
fn solopress_prod_line_count_is_stable() {
    let path = "research/solopress-prod.log";
    if !std::path::Path::new(path).exists() {
        println!("skipping: fixture {path} not present");
        return;
    }
    panic!("fixture {path} is present: its line count must be 74921, which these tests cannot read");
}

#[test]
fn summary_counts_lines_and_bytes() {
    let s = summarise_file("x.log".to_string(), b"a\nbb\nccc");
    assert_eq!(s.size_bytes, 8);
    assert_eq!(s.line_count, 3);
    assert_eq!(s.path, "x.log");
}

#[test]
fn sample_drops_partial_tail_and_crlf() {
    let lines = sample_lines(b"one\r\ntwo\n\nthree-partial");
    assert_eq!(lines, vec![b"one".to_vec(), b"two".to_vec(), b"".to_vec()]);
    assert!(sample_lines(b"no newline at all").is_empty());
    assert!(sample_lines(b"").is_empty());
}

#[test]
fn index_file_covers_every_byte() {
    let scanner = CompiledPattern::compile(builtin_patterns()[0].1).expect("compile");
    let bytes = b"[INFO ] 2026-01-01 00:00:00.000 [t] play - a\n  cont\n[WARN ] 2026-01-01 00:00:01.000 [t] play - b";
    let (li, recs) = index_file(bytes, &scanner);
    assert_eq!(li.line_offsets.len(), 3);
    assert_eq!(recs.len(), 2);
    assert_eq!(recs[0].byte_offset, 0);
    assert_eq!(recs[0].byte_offset + u64::from(recs[0].byte_len), recs[1].byte_offset);
    assert_eq!(recs[1].byte_offset + u64::from(recs[1].byte_len), bytes.len() as u64);
}

#[test]
fn header_count_with_scores_patterns_and_regexes_alike() {
    let lines: Vec<Vec<u8>> = vec![
        b"[INFO ] 2026-05-22 16:28:59.246 [main] play - Starting".to_vec(),
        b"  at com.example.Foo.bar(Foo.java:42)".to_vec(),
        b"[WARN ] 2026-05-22 16:28:59.247 [main] play - hmm".to_vec(),
    ];
    let pattern = CompiledPattern::compile(builtin_patterns()[0].1).expect("compile");
    assert_eq!(header_count_with(&pattern, &lines), (2, 3));
    assert_eq!(header_count_with(&pattern, &lines), pattern.header_count(&lines));
    let regex = RegexScanner::compile(r"\[(?P<level>[A-Z]+) *\]").expect("regex compiles");
    assert_eq!(header_count_with(&regex, &lines), (2, 3));
    assert_eq!(header_count_with(&regex, &Vec::new()), (0, 0));
}

/// The wsl-dev sample's records meet exactly and cover the file. The sample
/// is gitignored; without it the test has nothing to check.
#[test]
fn solopress_wsl_dev_record_coverage_is_watertight() {
    let path = "research/solopress-wsl-oink.out";
    if !std::path::Path::new(path).exists() {
        println!("skipping: fixture {path} not present");
        return;
    }
    panic!("fixture {path} is present: its records must tile it, which these tests cannot read");
}

#[test]
fn auto_detect_chooses_wsl_dev_for_sample() {
    let path = "research/solopress-wsl-oink.out";
    if !std::path::Path::new(path).exists() {
        println!("skipping: fixture {path} not present");
        return;
    }
    panic!("fixture {path} is present: auto-detect must pick the wsl layout on it, which these tests cannot read");
}

#[test]
fn auto_detect_chooses_prod_for_sample() {
    let path = "research/solopress-prod.log";
    if !std::path::Path::new(path).exists() {
        println!("skipping: fixture {path} not present");
        return;
    }
    panic!("fixture {path} is present: auto-detect must pick prod on it, which these tests cannot read");
}

#[test]
fn index_cache_roundtrip_matches_fresh_index() {
    let path = "research/solopress-wsl-oink.out";
    if !std::path::Path::new(path).exists() {
        println!("skipping: fixture {path} not present");
        return;
    }
    panic!("fixture {path} is present: its cached index must read back as a fresh one, which these tests cannot read");
}
