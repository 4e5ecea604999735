use clog_core::tail::{fnv1a_64, head_hash_of, head_prefix_for, PollStep, TailEvent, TailState, HEAD_HASH_BYTES};

/// A log file held in memory: the tests drive the tail state machine the
/// way the app's polling task does against a real file.
struct MemFile {
    bytes: Vec<u8>,
}

impl MemFile {
    fn append(&mut self, b: &[u8]) {
        self.bytes.extend_from_slice(b);
    }
    fn rewrite(&mut self, b: &[u8]) {
        self.bytes = b.to_vec();
    }
    fn size(&self) -> u64 {
        self.bytes.len() as u64
    }
    fn head_hash(&self, prefix_len: usize) -> Option<u64> {
        let n = prefix_len.min(self.bytes.len());
        head_hash_of(&self.bytes[..n], prefix_len)
    }
}

fn start(file: &MemFile) -> TailState {
    TailState::new("mem.log".to_string(), file.size(), file.head_hash(head_prefix_for(file.size())))
}

fn poll(tail: &mut TailState, file: &MemFile) -> TailEvent {
    let mut step = tail.poll_start(Some(file.size()));
    loop {
        step = match step {
            PollStep::NoChange => return TailEvent::NoChange,
            PollStep::Rotated => return TailEvent::Rotated,
            PollStep::CheckHead { size, prefix_len } => tail.after_head_check(size, file.head_hash(prefix_len)),
            PollStep::Rehash { size, prefix_len, rotation } => {
                tail.adopt_head(size, prefix_len, file.head_hash(prefix_len), rotation)
            }
            PollStep::ReadAppended { size, from, len } => {
                let bytes = file.bytes[from as usize..(from + len) as usize].to_vec();
                return tail.accept_append(size, bytes);
            }
        };
    }
}

#[test]
fn no_change_when_file_idle() {
    let mut log = MemFile { bytes: Vec::new() };
    log.append(b"hello\n");
    let mut tail = start(&log);
    match poll(&mut tail, &log) {
        TailEvent::NoChange => {}
        other => panic!("expected NoChange, got {other:?}"),
    }
}

#[test]
fn append_only_growth_is_reported_once() {
    let mut log = MemFile { bytes: Vec::new() };
    log.append(b"first\n");
    let mut tail = start(&log);
    log.append(b"second\nthird\n");
    match poll(&mut tail, &log) {
        TailEvent::Appended { from_offset, bytes } => {
            assert_eq!(from_offset, 6);
            assert_eq!(bytes, b"second\nthird\n");
        }
        other => panic!("expected Appended, got {other:?}"),
    }
    match poll(&mut tail, &log) {
        TailEvent::NoChange => {}
        other => panic!("second poll should be NoChange, got {other:?}"),
    }
}

#[test]
fn partial_trailing_line_ships_and_then_completes() {
    let mut log = MemFile { bytes: Vec::new() };
    log.append(b"complete\n");
    let mut tail = start(&log);
    log.append(b"in-progress without newline");
    match poll(&mut tail, &log) {
        TailEvent::Appended { from_offset, bytes } => {
            assert_eq!(from_offset, 9);
            assert_eq!(bytes, b"in-progress without newline");
        }
        other => panic!("expected Appended (partial ships), got {other:?}"),
    }
    log.append(b" and done\n");
    match poll(&mut tail, &log) {
        TailEvent::Appended { from_offset, bytes } => {
            assert_eq!(from_offset, 9 + 27);
            assert_eq!(bytes, b" and done\n");
        }
        other => panic!("expected Appended (remainder), got {other:?}"),
    }
}

#[test]
fn size_shrink_is_treated_as_rotation() {
    let mut log = MemFile { bytes: Vec::new() };
    log.append(b"this is the original content of the log file, long enough to be over 256 bytes so the head hash is meaningful. ");
    log.append(&[b'x'; 200]);
    log.append(b"\n");
    let mut tail = start(&log);
    log.rewrite(b"short\n");
    match poll(&mut tail, &log) {
        TailEvent::Rotated => {}
        other => panic!("expected Rotated, got {other:?}"),
    }
    tail.reset_to(log.size(), log.head_hash(head_prefix_for(log.size())));
    log.append(b"after\n");
    match poll(&mut tail, &log) {
        TailEvent::Appended { bytes, .. } => assert_eq!(bytes, b"after\n"),
        other => panic!("expected Appended after reset, got {other:?}"),
    }
}

#[test]
fn head_hash_change_is_treated_as_rotation() {
    let mut log = MemFile { bytes: Vec::new() };
    let mut body = b"AAA the original content. ".to_vec();
    while body.len() < HEAD_HASH_BYTES + 64 {
        body.push(b'a');
    }
    body.push(b'\n');
    log.append(&body);
    let mut tail = start(&log);
    let mut replacement = b"BBB the rewritten content. ".to_vec();
    while replacement.len() < body.len() {
        replacement.push(b'b');
    }
    replacement.push(b'\n');
    log.rewrite(&replacement);
    match poll(&mut tail, &log) {
        TailEvent::Rotated => {}
        other => panic!("expected Rotated on head-hash change, got {other:?}"),
    }
}

#[test]
fn detection_latency_is_one_poll() {
    let mut log = MemFile { bytes: Vec::new() };
    log.append(b"line-a\n");
    let mut tail = start(&log);
    log.append(b"line-b\n");
    assert!(matches!(poll(&mut tail, &log), TailEvent::Appended { .. }));
}

#[test]
fn fnv1a_known_values() {
    assert_eq!(fnv1a_64(b""), 0xcbf2_9ce4_8422_2325);
    assert_eq!(fnv1a_64(b"a"), 0xaf63_dc4c_8601_ec8c);
    assert_eq!(fnv1a_64(b"foobar"), 0x85944171f73967e8);
}

#[test]
fn head_hash_marks_short_reads_and_empty_prefixes() {
    assert_eq!(head_hash_of(b"abc", 0), None);
    assert_eq!(head_hash_of(b"abc", 3), Some(fnv1a_64(b"abc")));
    assert_eq!(head_hash_of(b"ab", 3), Some(fnv1a_64(b"ab") ^ 0xDEAD_BEEF_DEAD_BEEF));
    assert_eq!(head_prefix_for(0), 0);
    assert_eq!(head_prefix_for(100), 100);
    assert_eq!(head_prefix_for(1_000_000), HEAD_HASH_BYTES);
}

#[test]
fn empty_file_adopts_its_first_head_without_rotating() {
    let mut log = MemFile { bytes: Vec::new() };
    let mut tail = start(&log);
    assert!(matches!(poll(&mut tail, &log), TailEvent::NoChange));
    log.append(b"first line\n");
    match poll(&mut tail, &log) {
        TailEvent::Appended { from_offset, bytes } => {
            assert_eq!(from_offset, 0);
            assert_eq!(bytes, b"first line\n");
        }
        other => panic!("expected Appended, got {other:?}"),
    }
    assert_eq!(tail.consumed(), 11);
    assert_eq!(tail.head_prefix_len(), 11);
}

#[test]
fn missing_file_waits_for_next_tick() {
    let log = MemFile { bytes: b"abc\n".to_vec() };
    let tail = start(&log);
    assert_eq!(tail.poll_start(None), PollStep::NoChange);
}
