//! Whole-file entry points over a file's content: its summary, its index
//! and records, and the sample of lines pattern detection looks at.

use vstd::prelude::*;
use crate::bytes::bytes_to_vec;
use crate::index::{line_starts, LineIndex};
use crate::record::{scan_records, spec_scan_records, RecordHeader, RecordScanner};

verus! {

/// A quick look at a file.
#[derive(Debug, Clone)]
pub struct FileSummary {
    pub path: String,
    pub size_bytes: u64,
    pub line_count: u64,
}

/// A failure to read a file.
#[derive(Debug, Clone)]
pub enum CoreError {
    /// Reading `path` failed with `message`.
    Io { path: String, message: String },
}

/// The summary of the file at `path` whose content is `bytes`.
pub fn summarise_file(path: String, bytes: &[u8]) -> (r: FileSummary)
    ensures
        r.path == path,
        r.size_bytes == bytes@.len(),
        r.line_count == line_starts(bytes@).len(),
{
    let line_index = LineIndex::build(bytes);
    FileSummary { path, size_bytes: bytes.len() as u64, line_count: line_index.line_count() as u64 }
}

/// The line index and records of a file whose content is `bytes`.
pub fn index_file<S: RecordScanner>(bytes: &[u8], scanner: &S) -> (r: (LineIndex, Vec<RecordHeader>))
    ensures
        r.0.indexes(bytes@),
        r.1@ == spec_scan_records(scanner, line_starts(bytes@), bytes@.len() as u64, bytes@),
{
    let line_index = LineIndex::build(bytes);
    let records = scan_records(scanner, &line_index, bytes);
    (line_index, records)
}

/// Position of the last `\n` of `buf` below `n`.
pub open spec fn last_newline_below(buf: Seq<u8>, n: int) -> Option<int>
    decreases n,
{
    if n <= 0 {
        None
    } else if buf[n - 1] == 10 {
        Some(n - 1)
    } else {
        last_newline_below(buf, n - 1)
    }
}

/// The part of `buf` the sample is cut from: through its last `\n`, or all
/// of it when it has none.
pub open spec fn usable_prefix(buf: Seq<u8>) -> Seq<u8> {
    match last_newline_below(buf, buf.len() as int) {
        Some(p) => buf.take(p + 1),
        None => buf,
    }
}

/// The complete lines of `u` below `n`, each without its `\n` and one `\r`
/// before it; `start` is where the line in progress began.
pub open spec fn lines_upto(u: Seq<u8>, n: int) -> (Seq<Seq<u8>>, int)
    decreases n,
{
    if n <= 0 {
        (Seq::empty(), 0)
    } else {
        let (prev, start) = lines_upto(u, n - 1);
        let i = n - 1;
        if u[i] == 10 {
            let end = if i > start && u[i - 1] == 13 {
                i - 1
            } else {
                i
            };
            (prev.push(u.subrange(start, end)), i + 1)
        } else {
            (prev, start)
        }
    }
}

/// The lines `sample_lines` returns for the bytes read, `buf`.
pub open spec fn spec_sample_lines(buf: Seq<u8>) -> Seq<Seq<u8>> {
    lines_upto(usable_prefix(buf), usable_prefix(buf).len() as int).0
}

/// Split the first bytes read of a file into its physical lines (without
/// end-of-line bytes), dropping a trailing partial line so the matcher
/// never sees half a line.
pub fn sample_lines(buf: &[u8]) -> (r: Vec<Vec<u8>>)
    ensures
        r@.map_values(|l: Vec<u8>| l@) == spec_sample_lines(buf@),
{
    let mut n = buf.len();
    while n > 0 && buf[n - 1] != 10u8
        invariant
            n <= buf@.len(),
            last_newline_below(buf@, buf@.len() as int) == last_newline_below(buf@, n as int),
        decreases n,
    {
        n -= 1;
    }
    let ghost u = usable_prefix(buf@);
    let lim = if n == 0 {
        buf.len()
    } else {
        n
    };
    let src = &buf[0..lim];
    assert(src@ =~= u);
    let mut out: Vec<Vec<u8>> = Vec::new();
    let mut start: usize = 0;
    let mut i: usize = 0;
    while i < src.len()
        invariant
            src@ == u,
            i <= src@.len(),
            start <= i,
            (out@.map_values(|l: Vec<u8>| l@), start as int) == lines_upto(u, i as int),
        decreases src@.len() - i,
    {
        if src[i] == 10u8 {
            let mut end = i;
            if end > start && src[end - 1] == 13u8 {
                end -= 1;
            }
            let line = bytes_to_vec(&src[start..end]);
            let ghost before = out@.map_values(|l: Vec<u8>| l@);
            out.push(line);
            assert(out@.map_values(|l: Vec<u8>| l@) =~= before.push(u.subrange(start as int, end as int)));
            start = i + 1;
        }
        i += 1;
    }
    out
}

/// How many of `lines` parse as record headers under `scanner`.
pub open spec fn count_parsed<S: RecordScanner>(scanner: &S, lines: Seq<Seq<u8>>) -> nat
    decreases lines.len(),
{
    if lines.len() == 0 {
        0
    } else {
        count_parsed(scanner, lines.drop_last()) + if scanner.spec_parse_header(lines.last()) is Some {
            1nat
        } else {
            0nat
        }
    }
}

/// Score a scanner against a sample of physical lines: how many parse as
/// headers, out of how many. (Their ratio is the scanner's match score.)
pub fn header_count_with<S: RecordScanner>(scanner: &S, lines: &Vec<Vec<u8>>) -> (r: (u32, u32))
    requires
        lines@.len() <= u32::MAX,
    ensures
        r.0 == count_parsed(scanner, lines@.map_values(|l: Vec<u8>| l@)),
        r.1 == lines@.len(),
{
    let ghost ls = lines@.map_values(|l: Vec<u8>| l@);
    let mut total: u32 = 0;
    let mut hit: u32 = 0;
    let mut i: usize = 0;
    while i < lines.len()
        invariant
            ls == lines@.map_values(|l: Vec<u8>| l@),
            lines@.len() <= u32::MAX,
            i <= lines.len(),
            total == i,
            hit == count_parsed(scanner, ls.take(i as int)),
            hit <= i,
        decreases lines.len() - i,
    {
        assert(ls.take(i + 1).drop_last() =~= ls.take(i as int));
        assert(ls.take(i + 1).last() == lines@[i as int]@);
        total += 1;
        if scanner.try_parse_header(lines[i].as_slice()).is_some() {
            hit += 1;
        }
        i += 1;
    }
    assert(ls.take(i as int) =~= ls);
    (hit, total)
}

} // verus!
