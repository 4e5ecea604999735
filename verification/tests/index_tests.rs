use clog_core::index::LineIndex;

#[test]
fn empty_file_has_no_lines() {
    let idx = LineIndex::build(b"");
    assert_eq!(idx.line_count(), 0);
    assert_eq!(idx.file_size, 0);
}

#[test]
fn three_lines_with_trailing_newline() {
    let idx = LineIndex::build(b"a\nbb\nccc\n");
    assert_eq!(idx.line_offsets, vec![0, 2, 5]);
    assert_eq!(idx.file_size, 9);
}

#[test]
fn no_trailing_newline_keeps_last_line() {
    let idx = LineIndex::build(b"a\nbb");
    assert_eq!(idx.line_offsets, vec![0, 2]);
    assert_eq!(idx.file_size, 4);
}

#[test]
fn blank_line_in_middle() {
    let idx = LineIndex::build(b"a\n\nb\n");
    assert_eq!(idx.line_offsets, vec![0, 2, 3]);
}
