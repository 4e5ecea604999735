use clog_core::pattern::builtin_pattern;
use clog_core::record::Level;
use clog_core::scanners::{CompiledScanner, ScannerKind};
use clog_core::tail::{head_hash_of, head_prefix_for, PollStep, TailEvent, TailState};
use clog_core::viewer::{build_lines_payload, extend_with_appended, OpenedFile};

/// A log file held in memory, polled the way the app polls a real file.
struct MemFile {
    bytes: Vec<u8>,
}

impl MemFile {
    fn append(&mut self, b: &[u8]) {
        self.bytes.extend_from_slice(b);
    }
    fn rewrite(&mut self, b: &[u8]) {
        self.bytes = b.to_vec();
    }
    fn size(&self) -> u64 {
        self.bytes.len() as u64
    }
    fn head_hash(&self, prefix_len: usize) -> Option<u64> {
        let n = prefix_len.min(self.bytes.len());
        head_hash_of(&self.bytes[..n], prefix_len)
    }
}

fn start(file: &MemFile) -> TailState {
    TailState::new("mem.log".to_string(), file.size(), file.head_hash(head_prefix_for(file.size())))
}

fn poll(tail: &mut TailState, file: &MemFile) -> TailEvent {
    let mut step = tail.poll_start(Some(file.size()));
    loop {
        step = match step {
            PollStep::NoChange => return TailEvent::NoChange,
            PollStep::Rotated => return TailEvent::Rotated,
            PollStep::CheckHead { size, prefix_len } => tail.after_head_check(size, file.head_hash(prefix_len)),
            PollStep::Rehash { size, prefix_len, rotation } => {
                tail.adopt_head(size, prefix_len, file.head_hash(prefix_len), rotation)
            }
            PollStep::ReadAppended { size, from, len } => {
                let bytes = file.bytes[from as usize..(from + len) as usize].to_vec();
                return tail.accept_append(size, bytes);
            }
        };
    }
}

/// Open `log` the way the app does: index and records of its content.
fn open(log: &MemFile) -> (OpenedFile, CompiledScanner) {
    let pattern_src = builtin_pattern("wsl-dev").expect("wsl-dev builtin");
    let scanner = ScannerKind::Pattern(pattern_src.to_string()).compile().expect("compile wsl-dev");
    let file = OpenedFile::new(
        "mem.log".to_string(),
        log.bytes.clone(),
        &scanner,
        pattern_src.to_string(),
        Some("wsl-dev".to_string()),
        false,
    );
    (file, scanner)
}

fn extend(file: &mut OpenedFile, scanner: &CompiledScanner, payload: &[u8]) {
    let from = file.bytes.len() as u64;
    extend_with_appended(file, scanner, from, payload);
}

const FOUR_LINES: &str = "[WARN ] 2026-05-22 16:28:59.246 [main] play - Starting /var/play/sites/cheesecake\n\
[DEBUG] 2026-05-22 16:28:59.390 [main] play - Module crud is available (/usr/local/play-1.7.1/modules/crud)\n\
[TRACE] 2026-05-22 16:28:59.391 [main] play - Module secure is available (/usr/local/play-1.7.1/modules/secure)\n\
[ERROR] 2026-05-22 16:28:59.392 [main] play - Module secure is available (/usr/local/play-1.7.1/modules/secure)\n";

const FIFTH: &str =
    "[INFO ] 2026-05-22 16:28:59.393 [main] play - Module secure is available (/usr/local/play-1.7.1/modules/secure)";

fn four_lines_no_trailing() -> &'static str {
    &FOUR_LINES[..FOUR_LINES.len() - 1]
}

#[test]
fn partial_fifth_line_then_its_newline_keeps_five_records() {
    let mut log = MemFile { bytes: FOUR_LINES.as_bytes().to_vec() };
    let (mut file, scanner) = open(&log);
    assert_eq!(file.records.len(), 4, "four records at open");
    assert_eq!(file.line_count, 4, "four lines at open");

    let mut tail = start(&log);
    log.append(FIFTH.as_bytes());
    match poll(&mut tail, &log) {
        TailEvent::Appended { from_offset, bytes } => {
            assert_eq!(from_offset, FOUR_LINES.len() as u64, "consumed cursor");
            let text = String::from_utf8(bytes.clone()).unwrap();
            assert!(text.starts_with("[INFO ]"), "shipped chunk starts with INFO header, got {text:?}");
            assert!(!text.ends_with('\n'), "shipped chunk is partial (no trailing newline), got {text:?}");
            extend(&mut file, &scanner, &bytes);
        }
        other => panic!("expected Appended (partial ships), got {other:?}"),
    }
    assert_eq!(file.records.len(), 5, "INFO record visible while partial");
    assert_eq!(file.line_count, 5);
    assert_eq!(file.records[4].level, Level::Info);
    assert_eq!(file.records[4].line_count, 1);

    log.append(b"\n");
    match poll(&mut tail, &log) {
        TailEvent::Appended { bytes, .. } => {
            assert_eq!(bytes, b"\n", "remainder is exactly the newline");
            extend(&mut file, &scanner, &bytes);
        }
        other => panic!("expected Appended (remainder), got {other:?}"),
    }
    assert_eq!(file.records.len(), 5);
    assert_eq!(file.line_count, 5);
    assert_eq!(file.records[4].line_count, 1);

    let lines = build_lines_payload(&file, 0, file.line_count).expect("build_lines_payload");
    assert!(lines.lines[4].text.starts_with("[INFO ]"));
    assert_eq!(lines.lines[4].line_within_record, 0);
    assert!(lines.lines[4].fields.is_some());
}

#[test]
fn atomic_save_with_fifth_line_lands_as_five_records() {
    let mut log = MemFile { bytes: FOUR_LINES.as_bytes().to_vec() };
    let (mut file, scanner) = open(&log);
    let mut tail = start(&log);

    let full_with_fifth = format!("{FOUR_LINES}{FIFTH}\n");
    log.rewrite(full_with_fifth.as_bytes());
    match poll(&mut tail, &log) {
        TailEvent::Appended { bytes, .. } => extend(&mut file, &scanner, &bytes),
        other => panic!("expected Appended (head-hash matches), got {other:?}"),
    }

    assert_eq!(file.records.len(), 5, "five records after atomic save");
    assert_eq!(file.line_count, 5);
    for (i, expected) in [Level::Warn, Level::Debug, Level::Trace, Level::Error, Level::Info].iter().enumerate() {
        assert_eq!(file.records[i].level, *expected, "record {i} level");
        assert_eq!(file.records[i].line_count, 1, "record {i} is one line");
    }
}

#[test]
fn file_opened_without_trailing_newline_then_appended_produces_continuation_row() {
    let mut log = MemFile { bytes: four_lines_no_trailing().as_bytes().to_vec() };
    let (mut file, scanner) = open(&log);
    assert_eq!(file.line_count, 4, "four lines visible at open");
    assert_eq!(file.records.len(), 4);

    let mut tail = start(&log);
    log.append(format!("\n{FIFTH}\n").as_bytes());
    match poll(&mut tail, &log) {
        TailEvent::Appended { bytes, .. } => extend(&mut file, &scanner, &bytes),
        other => panic!("expected Appended, got {other:?}"),
    }

    assert_eq!(file.line_count, 5, "no phantom row");
    assert_eq!(file.records.len(), 5);
    assert_eq!(file.records[3].line_count, 1, "ERROR record is one line (the stray `\\n` just closed it)");
    assert_eq!(file.records[4].line_count, 1);
    let lines = build_lines_payload(&file, 0, file.line_count).expect("build_lines_payload");
    assert!(lines.lines[3].text.starts_with("[ERROR]"), "row 4 is ERROR");
    assert!(lines.lines[4].text.starts_with("[INFO ]"), "row 5 is INFO");
    assert_eq!(lines.lines[4].level, Level::Info);
    let r3 = &file.records[3];
    let r3_last_byte = usize::try_from(r3.byte_offset + u64::from(r3.byte_len) - 1).unwrap_or(usize::MAX);
    assert_eq!(file.bytes[r3_last_byte], b'\n', "record 3 now ends in `\\n`");
}

#[test]
fn no_trailing_newline_at_open_then_partial_append_is_invisible() {
    let mut log = MemFile { bytes: four_lines_no_trailing().as_bytes().to_vec() };
    let (mut file, scanner) = open(&log);
    assert_eq!(file.line_count, 4, "four lines visible at open");
    assert_eq!(file.records.len(), 4);

    let mut tail = start(&log);
    log.append(format!("\n{FIFTH}").as_bytes());
    match poll(&mut tail, &log) {
        TailEvent::Appended { bytes, .. } => extend(&mut file, &scanner, &bytes),
        TailEvent::NoChange => {}
        TailEvent::Rotated => panic!("not a rotation"),
    }

    let lines = build_lines_payload(&file, 0, file.line_count).expect("build_lines_payload");
    assert_eq!(file.line_count, 5);
    assert_eq!(file.records.len(), 5);
    assert_eq!(file.records[4].level, Level::Info);
    assert_eq!(file.records[4].line_count, 1);
    assert!(lines.lines[4].text.starts_with("[INFO ]"));
    assert!(lines.lines[4].text.ends_with("/modules/secure)"));
}

#[test]
fn blank_line_then_real_line_appended_in_one_shot() {
    let mut log = MemFile { bytes: FOUR_LINES.as_bytes().to_vec() };
    let (mut file, scanner) = open(&log);
    let mut tail = start(&log);

    log.append(format!("\n{FIFTH}\n").as_bytes());
    match poll(&mut tail, &log) {
        TailEvent::Appended { bytes, .. } => extend(&mut file, &scanner, &bytes),
        other => panic!("expected Appended, got {other:?}"),
    }

    assert_eq!(file.line_count, 6, "two new lines visible");
    assert_eq!(file.records.len(), 5, "the blank line is a continuation, so only one new record");
    assert_eq!(file.records[3].line_count, 2, "ERROR record has a phantom blank continuation");
    assert_eq!(file.records[4].level, Level::Info);
}
