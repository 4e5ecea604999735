//! Record headers and the record scanner: one record per header line, with
//! every following non-header line attached to it as a continuation.

use vstd::prelude::*;
use crate::index::{LineIndex, is_line_start, line_starts, lemma_line_starts};
use crate::pattern::{HeaderFields, ParsedHeader};
use crate::bytes::bytes_eq;

verus! {

#[derive(Debug, Clone, Copy, PartialEq, Eq, Structural)]
pub enum Level {
    Trace,
    Debug,
    Info,
    Warn,
    Error,
    Fatal,
    Off,
    All,
    /// A record whose first line did not parse as a header.
    Unknown,
}

#[derive(Debug, Clone, Copy, PartialEq, Eq)]
pub struct RecordHeader {
    /// Byte offset of the first byte of this record in the source file.
    pub byte_offset: u64,
    /// Byte length of the whole record (header, continuations and trailing
    /// `\n`).
    pub byte_len: u32,
    /// Index of the record's first physical line.
    pub line_offset: u32,
    /// Number of physical lines this record spans (`>= 1`).
    pub line_count: u32,
    pub level: Level,
    /// Field spans of the header line, relative to its first byte.
    pub fields: HeaderFields,
}

/// Decides whether a physical line (without its trailing `\n`/`\r\n`) is a
/// record header, and if so, what its level and field spans are.
pub trait RecordScanner {
    /// What `try_parse_header` returns on `line`.
    spec fn spec_parse_header(&self, line: Seq<u8>) -> Option<ParsedHeader>;

    /// `Some` iff `line` is a record header; `None` marks a continuation of
    /// the previous record.
    fn try_parse_header(&self, line: &[u8]) -> (r: Option<ParsedHeader>)
        ensures
            r == self.spec_parse_header(line@),
    ;
}

/// `x` clamped to `u32::MAX`.
pub open spec fn sat_u32(x: int) -> u32 {
    if x <= u32::MAX {
        x as u32
    } else {
        u32::MAX
    }
}

/// `x + 1`, saturating at `u32::MAX`.
pub open spec fn sat_inc(x: u32) -> u32 {
    if x < u32::MAX {
        (x + 1) as u32
    } else {
        x
    }
}

/// `line` without one trailing `\n`, then without one trailing `\r`.
pub open spec fn spec_strip_eol(line: Seq<u8>) -> Seq<u8> {
    let a = if line.len() > 0 && line.last() == 10 {
        line.drop_last()
    } else {
        line
    };
    if a.len() > 0 && a.last() == 13 {
        a.drop_last()
    } else {
        a
    }
}

/// End of physical line `i`: the next line's start, or the end of the file.
pub open spec fn line_end(starts: Seq<u64>, total: int, i: int) -> int {
    if i + 1 < starts.len() {
        starts[i + 1] as int
    } else {
        total
    }
}

/// The text of physical line `i`, without its end-of-line bytes.
pub open spec fn line_text(bytes: Seq<u8>, starts: Seq<u64>, i: int) -> Seq<u8> {
    spec_strip_eol(bytes.subrange(starts[i] as int, line_end(starts, bytes.len() as int, i)))
}

/// A fresh one-line record starting at line `i`.
pub open spec fn new_record(start: u64, i: int, level: Level, fields: HeaderFields) -> RecordHeader {
    RecordHeader {
        byte_offset: start,
        byte_len: 0,
        line_offset: sat_u32(i),
        line_count: 1,
        level,
        fields,
    }
}

/// `r` with one more line.
pub open spec fn grow_record(r: RecordHeader) -> RecordHeader {
    RecordHeader { line_count: sat_inc(r.line_count), ..r }
}

/// One scanning step: line `i`, starting at byte `start`, parsed as
/// `parsed`, either opens a record or extends the last one (an orphan
/// continuation before any header opens an `Unknown` record).
pub open spec fn scan_step(
    prev: Seq<RecordHeader>,
    start: u64,
    i: int,
    parsed: Option<ParsedHeader>,
) -> Seq<RecordHeader> {
    match parsed {
        Some(p) => prev.push(new_record(start, i, p.level, p.fields)),
        None => if prev.len() > 0 {
            prev.update(prev.len() - 1, grow_record(prev.last()))
        } else {
            prev.push(new_record(start, i, Level::Unknown, HeaderFields::spec_empty()))
        },
    }
}

/// Records for the first `n` physical lines, before byte lengths are known.
pub open spec fn scan_heads<S: RecordScanner>(
    scanner: &S,
    bytes: Seq<u8>,
    starts: Seq<u64>,
    n: nat,
) -> Seq<RecordHeader>
    decreases n,
{
    if n == 0 {
        Seq::empty()
    } else {
        let i = n - 1;
        scan_step(
            scan_heads(scanner, bytes, starts, (n - 1) as nat),
            starts[i],
            i,
            scanner.spec_parse_header(line_text(bytes, starts, i)),
        )
    }
}

/// End of record `i`: the next record's start, or `total`.
pub open spec fn record_end(heads: Seq<RecordHeader>, total: u64, i: int) -> int {
    if i + 1 < heads.len() {
        heads[i + 1].byte_offset as int
    } else {
        total as int
    }
}

/// `heads` with every byte length filled so adjacent records meet and the
/// last runs to `total` (each length clamped to `u32::MAX`).
pub open spec fn fill_byte_lens(heads: Seq<RecordHeader>, total: u64) -> Seq<RecordHeader> {
    Seq::new(
        heads.len(),
        |i: int| RecordHeader { byte_len: sat_u32(record_end(heads, total, i) - heads[i].byte_offset), ..heads[i] },
    )
}

/// The records `scan_records` produces for `bytes` split at `starts`.
pub open spec fn spec_scan_records<S: RecordScanner>(
    scanner: &S,
    starts: Seq<u64>,
    total: u64,
    bytes: Seq<u8>,
) -> Seq<RecordHeader> {
    fill_byte_lens(scan_heads(scanner, bytes, starts, starts.len()), total)
}

/// Shape of the partial record list: at most one record per line, the first
/// record starts at the first line, starts increase and stay below the last
/// scanned line's start.
pub proof fn lemma_scan_heads_shape<S: RecordScanner>(
    scanner: &S,
    bytes: Seq<u8>,
    starts: Seq<u64>,
    n: nat,
)
    requires
        n <= starts.len(),
        forall|i: int, j: int| 0 <= i < j < starts.len() ==> starts[i] < starts[j],
    ensures
        scan_heads(scanner, bytes, starts, n).len() <= n,
        n > 0 ==> scan_heads(scanner, bytes, starts, n).len() > 0,
        n > 0 ==> scan_heads(scanner, bytes, starts, n)[0].byte_offset == starts[0],
        forall|k: int|
            0 <= k < scan_heads(scanner, bytes, starts, n).len() ==> exists|j: int|
                0 <= j < n && #[trigger] scan_heads(scanner, bytes, starts, n)[k].byte_offset
                    == starts[j] && scan_heads(scanner, bytes, starts, n)[k].line_offset == sat_u32(j),
        forall|k: int, l: int|
            0 <= k < l < scan_heads(scanner, bytes, starts, n).len() ==> scan_heads(
                scanner,
                bytes,
                starts,
                n,
            )[k].byte_offset < scan_heads(scanner, bytes, starts, n)[l].byte_offset,
    decreases n,
{
    if n > 0 {
        lemma_scan_heads_shape(scanner, bytes, starts, (n - 1) as nat);
        let prev = scan_heads(scanner, bytes, starts, (n - 1) as nat);
        let cur = scan_heads(scanner, bytes, starts, n);
        let i = n - 1;
        assert forall|k: int| 0 <= k < prev.len() implies prev[k].byte_offset < starts[i] by {
            let j = choose|j: int| 0 <= j < n - 1 && #[trigger] prev[k].byte_offset == starts[j]
                && prev[k].line_offset == sat_u32(j);
        }
        assert forall|k: int| 0 <= k < cur.len() implies exists|j: int|
            0 <= j < n && #[trigger] cur[k].byte_offset == starts[j] && cur[k].line_offset == sat_u32(j) by {
            if k < prev.len() {
                let j = choose|j: int| 0 <= j < n - 1 && #[trigger] prev[k].byte_offset == starts[j]
                    && prev[k].line_offset == sat_u32(j);
                assert(cur[k].byte_offset == starts[j]);
                assert(cur[k].line_offset == sat_u32(j));
            } else {
                assert(cur[k].byte_offset == starts[i]);
            }
        }
    }
}

/// Walk every physical line, classify it with `scanner`, and produce one
/// `RecordHeader` per logical record. Continuation lines extend the
/// preceding record's `line_count` and `byte_len`; a continuation before any
/// header becomes an `Unknown` record so byte coverage stays watertight.
///
/// `bytes` must be the full file content and `line_index` its index.
pub fn scan_records<S: RecordScanner>(
    scanner: &S,
    line_index: &LineIndex,
    bytes: &[u8],
) -> (r: Vec<RecordHeader>)
    requires
        line_index.indexes(bytes@),
    ensures
        r@ == spec_scan_records(scanner, line_index.line_offsets@, line_index.file_size, bytes@),
{
    let ghost starts = line_index.line_offsets@;
    proof {
        lemma_line_starts(bytes@);
    }
    let line_count = line_index.line_offsets.len();
    let mut headers: Vec<RecordHeader> = Vec::new();
    if line_count == 0 {
        assert(headers@ =~= spec_scan_records(scanner, starts, line_index.file_size, bytes@));
        return headers;
    }
    let mut i: usize = 0;
    while i < line_count
        invariant
            line_index.indexes(bytes@),
            starts == line_index.line_offsets@,
            line_count == starts.len(),
            starts.len() <= bytes.len(),
            forall|a: int, b: int| 0 <= a < b < starts.len() ==> starts[a] < starts[b],
            forall|a: int| 0 <= a < starts.len() ==> is_line_start(bytes@, #[trigger] starts[a] as int),
            i <= line_count,
            headers@ == scan_heads(scanner, bytes@, starts, i as nat),
        decreases line_count - i,
    {
        let start_u64 = line_index.line_offsets[i];
        let start = start_u64 as usize;
        let end = if i + 1 < line_count {
            line_index.line_offsets[i + 1] as usize
        } else {
            bytes.len()
        };
        proof {
            assert(is_line_start(bytes@, starts[i as int] as int));
            if i + 1 < line_count {
                assert(starts[i as int] < starts[i + 1]);
                assert(is_line_start(bytes@, starts[i + 1] as int));
            }
        }
        let line = strip_eol(&bytes[start..end]);
        let ghost prev = headers@;
        match scanner.try_parse_header(line) {
            Some(parsed) => {
                headers.push(RecordHeader {
                    byte_offset: start_u64,
                    byte_len: 0,
                    line_offset: if i <= 0xFFFF_FFFF { i as u32 } else { u32::MAX },
                    line_count: 1,
                    level: parsed.level,
                    fields: parsed.fields,
                });
            },
            None => {
                let n = headers.len();
                if n > 0 {
                    let last = headers[n - 1];
                    let grown = RecordHeader { line_count: last.line_count.saturating_add(1), ..last };
                    headers.set(n - 1, grown);
                } else {
                    headers.push(RecordHeader {
                        byte_offset: start_u64,
                        byte_len: 0,
                        line_offset: if i <= 0xFFFF_FFFF { i as u32 } else { u32::MAX },
                        line_count: 1,
                        level: Level::Unknown,
                        fields: HeaderFields::empty(),
                    });
                }
            },
        }
        assert(headers@ =~= scan_heads(scanner, bytes@, starts, (i + 1) as nat));
        i += 1;
    }
    proof {
        lemma_scan_heads_shape(scanner, bytes@, starts, line_count as nat);
    }
    let ghost heads = headers@;
    let total = line_index.file_size;
    let n = headers.len();
    let mut out: Vec<RecordHeader> = Vec::new();
    let mut k: usize = 0;
    while k < n
        invariant
            n == heads.len(),
            headers@ == heads,
            total == bytes.len(),
            forall|a: int, b: int| 0 <= a < b < heads.len() ==> heads[a].byte_offset < heads[b].byte_offset,
            forall|a: int| 0 <= a < heads.len() ==> (#[trigger] heads[a]).byte_offset < total,
            k <= n,
            out@ =~= fill_byte_lens(heads, total).take(k as int),
        decreases n - k,
    {
        let end = if k + 1 < n {
            headers[k + 1].byte_offset
        } else {
            total
        };
        let h = headers[k];
        let len = end - h.byte_offset;
        out.push(RecordHeader { byte_len: if len <= 0xFFFF_FFFF { len as u32 } else { u32::MAX }, ..h });
        k += 1;
    }
    assert(out@ =~= fill_byte_lens(heads, total));
    out
}


/// The line structure of the first `m` scanned lines: records tile the
/// lines from 0 to `m`, every record after the first opens on a header line,
/// and every header line after the first opens a record.
pub open spec fn heads_tile_lines<S: RecordScanner>(
    scanner: &S,
    bytes: Seq<u8>,
    starts: Seq<u64>,
    h: Seq<RecordHeader>,
    m: int,
) -> bool {
    &&& (h.len() == 0 <==> m == 0)
    &&& h.len() > 0 ==> h[0].line_offset == 0
    &&& forall|i: int| 0 <= i < h.len() - 1 ==> #[trigger] h[i].line_offset + h[i].line_count == h[i + 1].line_offset
    &&& h.len() > 0 ==> h.last().line_offset + h.last().line_count == m
    &&& forall|i: int| 0 < i < h.len() ==> scanner.spec_parse_header(line_text(bytes, starts, (#[trigger] h[i]).line_offset as int)) is Some
    &&& forall|k: int|
        0 < k < m && (#[trigger] scanner.spec_parse_header(line_text(bytes, starts, k))) is Some ==> exists|i: int|
            0 <= i < h.len() && #[trigger] h[i].line_offset == k
}

proof fn lemma_scan_heads_lines<S: RecordScanner>(scanner: &S, bytes: Seq<u8>, starts: Seq<u64>, m: nat)
    requires
        m <= starts.len() <= u32::MAX,
    ensures
        heads_tile_lines(scanner, bytes, starts, scan_heads(scanner, bytes, starts, m), m as int),
    decreases m,
{
    if m > 0 {
        let i = m - 1;
        lemma_scan_heads_lines(scanner, bytes, starts, (m - 1) as nat);
        let prev = scan_heads(scanner, bytes, starts, (m - 1) as nat);
        let h = scan_heads(scanner, bytes, starts, m);
        let parsed = scanner.spec_parse_header(line_text(bytes, starts, i));
        match parsed {
            Some(p) => {
                assert(h == prev.push(new_record(starts[i], i, p.level, p.fields)));
                assert forall|k: int|
                    0 < k < m && (#[trigger] scanner.spec_parse_header(line_text(bytes, starts, k))) is Some implies exists|j: int|
                    0 <= j < h.len() && #[trigger] h[j].line_offset == k by {
                    if k < i {
                        let j = choose|j: int| 0 <= j < prev.len() && #[trigger] prev[j].line_offset == k;
                        assert(h[j] == prev[j]);
                    } else {
                        assert(h[h.len() - 1].line_offset == k);
                    }
                }
                assert forall|a: int| 0 <= a < h.len() - 1 implies #[trigger] h[a].line_offset + h[a].line_count
                    == h[a + 1].line_offset by {
                    if a < prev.len() - 1 {
                        assert(h[a] == prev[a] && h[a + 1] == prev[a + 1]);
                    } else {
                        assert(h[a] == prev.last());
                    }
                }
                assert forall|a: int| 0 < a < h.len() implies scanner.spec_parse_header(
                    line_text(bytes, starts, (#[trigger] h[a]).line_offset as int),
                ) is Some by {
                    if a < prev.len() {
                        assert(h[a] == prev[a]);
                    }
                }
            },
            None => {
                if prev.len() > 0 {
                    let g = grow_record(prev.last());
                    assert(h == prev.update(prev.len() - 1, g));
                    assert forall|k: int|
                        0 < k < m && (#[trigger] scanner.spec_parse_header(line_text(bytes, starts, k))) is Some implies exists|j: int|
                        0 <= j < h.len() && #[trigger] h[j].line_offset == k by {
                        let j = choose|j: int| 0 <= j < prev.len() && #[trigger] prev[j].line_offset == k;
                        assert(h[j].line_offset == prev[j].line_offset);
                    }
                    assert forall|a: int| 0 <= a < h.len() - 1 implies #[trigger] h[a].line_offset + h[a].line_count
                        == h[a + 1].line_offset by {
                        assert(h[a] == prev[a]);
                        if a + 1 < h.len() - 1 {
                            assert(h[a + 1] == prev[a + 1]);
                        }
                    }
                    assert forall|a: int| 0 < a < h.len() implies scanner.spec_parse_header(
                        line_text(bytes, starts, (#[trigger] h[a]).line_offset as int),
                    ) is Some by {
                        assert(h[a].line_offset == prev[a].line_offset);
                    }
                } else {
                    assert(h == prev.push(new_record(starts[i], i, Level::Unknown, HeaderFields::spec_empty())));
                    assert(h[0].line_offset == 0);
                }
            },
        }
    }
}

/// Records also tile the lines: the first opens on line 0, each ends on
/// the line before the next one opens, the last ends on the last line;
/// every record after the first opens on a line the scanner reads as a
/// header, and every such line after the first opens a record. (Line
/// counts are `u32`; the law is stated for files of at most `u32::MAX`
/// lines, where none is clamped.)
pub proof fn law_scan_records_lines<S: RecordScanner>(scanner: &S, bytes: Seq<u8>)
    requires
        line_starts(bytes).len() <= u32::MAX,
    ensures
        heads_tile_lines(
            scanner,
            bytes,
            line_starts(bytes),
            spec_scan_records(scanner, line_starts(bytes), bytes.len() as u64, bytes),
            line_starts(bytes).len() as int,
        ),
{
    let starts = line_starts(bytes);
    let n = starts.len();
    lemma_scan_heads_lines(scanner, bytes, starts, n);
    let h = scan_heads(scanner, bytes, starts, n);
    let recs = spec_scan_records(scanner, starts, bytes.len() as u64, bytes);
    assert(recs.len() == h.len());
    assert forall|i: int| 0 <= i < recs.len() implies (#[trigger] recs[i]).line_offset == h[i].line_offset
        && recs[i].line_count == h[i].line_count by {}
    assert forall|k: int|
        0 < k < n && (#[trigger] scanner.spec_parse_header(line_text(bytes, starts, k))) is Some implies exists|j: int|
        0 <= j < recs.len() && #[trigger] recs[j].line_offset == k by {
        let j = choose|j: int| 0 <= j < h.len() && #[trigger] h[j].line_offset == k;
        assert(recs[j].line_offset == k);
    }
    assert forall|a: int| 0 <= a < recs.len() - 1 implies #[trigger] recs[a].line_offset + recs[a].line_count
        == recs[a + 1].line_offset by {
        assert(h[a].line_offset + h[a].line_count == h[a + 1].line_offset);
    }
    assert forall|a: int| 0 < a < recs.len() implies scanner.spec_parse_header(
        line_text(bytes, starts, (#[trigger] recs[a]).line_offset as int),
    ) is Some by {
        assert(recs[a].line_offset == h[a].line_offset);
        assert(scanner.spec_parse_header(line_text(bytes, starts, h[a].line_offset as int)) is Some);
    }
    if recs.len() > 0 {
        assert(recs.last().line_offset == h.last().line_offset);
    }
}

/// Records cover the file without gap or overlap: the first starts at 0,
/// each ends where the next starts, and the last ends at the end of the file.
/// There is at most one record per line, and each starts at a line start.
/// (Byte lengths are `u32`; the law is stated for files of at most
/// `u32::MAX` bytes, where no length is clamped.)
pub proof fn law_scan_records_coverage<S: RecordScanner>(scanner: &S, bytes: Seq<u8>)
    requires
        bytes.len() <= u32::MAX,
    ensures
        ({
            let recs = spec_scan_records(scanner, line_starts(bytes), bytes.len() as u64, bytes);
            &&& recs.len() <= line_starts(bytes).len()
            &&& (bytes.len() == 0 <==> recs.len() == 0)
            &&& bytes.len() > 0 ==> recs[0].byte_offset == 0
            &&& forall|i: int|
                0 <= i < recs.len() - 1 ==> #[trigger] recs[i].byte_offset + recs[i].byte_len
                    == recs[i + 1].byte_offset
            &&& recs.len() > 0 ==> recs.last().byte_offset + recs.last().byte_len == bytes.len()
            &&& forall|i: int| 0 <= i < recs.len() ==> is_line_start(bytes, #[trigger] recs[i].byte_offset as int)
        }),
{
    let starts = line_starts(bytes);
    lemma_line_starts(bytes);
    lemma_scan_heads_shape(scanner, bytes, starts, starts.len());
    let heads = scan_heads(scanner, bytes, starts, starts.len());
    let total = bytes.len() as u64;
    let recs = fill_byte_lens(heads, total);
    assert forall|k: int| 0 <= k < heads.len() implies is_line_start(bytes, #[trigger] heads[k].byte_offset as int) && heads[k].byte_offset < total by {
        let j = choose|j: int| 0 <= j < starts.len() && #[trigger] heads[k].byte_offset == starts[j]
            && heads[k].line_offset == sat_u32(j);
        assert(is_line_start(bytes, starts[j] as int));
    }
    assert forall|i: int| 0 <= i < recs.len() - 1 implies #[trigger] recs[i].byte_offset + recs[i].byte_len
        == recs[i + 1].byte_offset by {
        assert(heads[i].byte_offset < heads[i + 1].byte_offset);
        assert(heads[i + 1].byte_offset < total);
    }
    assert forall|i: int| 0 <= i < recs.len() implies is_line_start(bytes, #[trigger] recs[i].byte_offset as int) by {
        assert(recs[i].byte_offset == heads[i].byte_offset);
    }
    if bytes.len() == 0 {
        assert(starts.len() == 0);
    }
}

/// The bytes of `TRACE`.
pub open spec fn lit_trace() -> Seq<u8> {
    seq![84u8, 82u8, 65u8, 67u8, 69u8]
}

pub const LIT_TRACE: [u8; 5] = [84u8, 82u8, 65u8, 67u8, 69u8];

/// The bytes of `DEBUG`.
pub open spec fn lit_debug() -> Seq<u8> {
    seq![68u8, 69u8, 66u8, 85u8, 71u8]
}

pub const LIT_DEBUG: [u8; 5] = [68u8, 69u8, 66u8, 85u8, 71u8];

/// The bytes of `INFO `.
pub open spec fn lit_info_pad() -> Seq<u8> {
    seq![73u8, 78u8, 70u8, 79u8, 32u8]
}

pub const LIT_INFO_PAD: [u8; 5] = [73u8, 78u8, 70u8, 79u8, 32u8];

/// The bytes of `WARN `.
pub open spec fn lit_warn_pad() -> Seq<u8> {
    seq![87u8, 65u8, 82u8, 78u8, 32u8]
}

pub const LIT_WARN_PAD: [u8; 5] = [87u8, 65u8, 82u8, 78u8, 32u8];

/// The bytes of `ERROR`.
pub open spec fn lit_error() -> Seq<u8> {
    seq![69u8, 82u8, 82u8, 79u8, 82u8]
}

pub const LIT_ERROR: [u8; 5] = [69u8, 82u8, 82u8, 79u8, 82u8];

/// The bytes of `FATAL`.
pub open spec fn lit_fatal() -> Seq<u8> {
    seq![70u8, 65u8, 84u8, 65u8, 76u8]
}

pub const LIT_FATAL: [u8; 5] = [70u8, 65u8, 84u8, 65u8, 76u8];

/// The bytes of `OFF  `.
pub open spec fn lit_off_pad() -> Seq<u8> {
    seq![79u8, 70u8, 70u8, 32u8, 32u8]
}

pub const LIT_OFF_PAD: [u8; 5] = [79u8, 70u8, 70u8, 32u8, 32u8];

/// The bytes of `ALL  `.
pub open spec fn lit_all_pad() -> Seq<u8> {
    seq![65u8, 76u8, 76u8, 32u8, 32u8]
}

pub const LIT_ALL_PAD: [u8; 5] = [65u8, 76u8, 76u8, 32u8, 32u8];


/// Hard-wired scanner for the wsl-oink production pattern
/// `[%-5level] %d{yyyy-MM-dd HH:mm:ss.SSS} [%t] %c{1} - %msg%n`.
///
/// A line is a header iff its first 8 bytes are `[`, a 5-byte padded level
/// (`INFO `, `WARN `, `ERROR`, ...), `]`, ` `.
#[derive(Debug, Default, Clone, Copy)]
pub struct WslOinkScanner;

/// The level a padded 5-byte level word names, if any.
pub open spec fn padded_level(word: Seq<u8>) -> Option<Level> {
    if word == lit_trace() {
        Some(Level::Trace)
    } else if word == lit_debug() {
        Some(Level::Debug)
    } else if word == lit_info_pad() {
        Some(Level::Info)
    } else if word == lit_warn_pad() {
        Some(Level::Warn)
    } else if word == lit_error() {
        Some(Level::Error)
    } else if word == lit_fatal() {
        Some(Level::Fatal)
    } else if word == lit_off_pad() {
        Some(Level::Off)
    } else if word == lit_all_pad() {
        Some(Level::All)
    } else {
        None
    }
}

/// The wsl-oink header test: `[`, padded level, `]`, ` `.
pub open spec fn spec_wsl_oink_level(line: Seq<u8>) -> Option<Level> {
    if line.len() < 8 || line[0] != 91 || line[6] != 93 || line[7] != 32 {
        None
    } else {
        padded_level(line.subrange(1, 6))
    }
}

impl WslOinkScanner {
    /// The level of `line` if it is a wsl-oink header, `None` otherwise.
    pub fn classify_header(&self, line: &[u8]) -> (r: Option<Level>)
        ensures
            r == spec_wsl_oink_level(line@),
    {
        if line.len() < 8 || line[0] != 91u8 || line[6] != 93u8 || line[7] != 32u8 {
            return None;
        }
        let word = &line[1..6];
        let (t, d, i, w, e, f, o, a) = (LIT_TRACE, LIT_DEBUG, LIT_INFO_PAD, LIT_WARN_PAD, LIT_ERROR, LIT_FATAL, LIT_OFF_PAD, LIT_ALL_PAD);
        proof {
            assert(t@ =~= lit_trace());
            assert(d@ =~= lit_debug());
            assert(i@ =~= lit_info_pad());
            assert(w@ =~= lit_warn_pad());
            assert(e@ =~= lit_error());
            assert(f@ =~= lit_fatal());
            assert(o@ =~= lit_off_pad());
            assert(a@ =~= lit_all_pad());
        }
        if bytes_eq(word, &t) {
            Some(Level::Trace)
        } else if bytes_eq(word, &d) {
            Some(Level::Debug)
        } else if bytes_eq(word, &i) {
            Some(Level::Info)
        } else if bytes_eq(word, &w) {
            Some(Level::Warn)
        } else if bytes_eq(word, &e) {
            Some(Level::Error)
        } else if bytes_eq(word, &f) {
            Some(Level::Fatal)
        } else if bytes_eq(word, &o) {
            Some(Level::Off)
        } else if bytes_eq(word, &a) {
            Some(Level::All)
        } else {
            None
        }
    }
}

impl RecordScanner for WslOinkScanner {
    open spec fn spec_parse_header(&self, line: Seq<u8>) -> Option<ParsedHeader> {
        match spec_wsl_oink_level(line) {
            Some(level) => Some(ParsedHeader { level, fields: HeaderFields::spec_empty() }),
            None => None,
        }
    }

    fn try_parse_header(&self, line: &[u8]) -> (r: Option<ParsedHeader>) {
        match self.classify_header(line) {
            Some(level) => Some(ParsedHeader { level, fields: HeaderFields::empty() }),
            None => None,
        }
    }
}

/// Wraps a scanner so that every physical line becomes its own record: a
/// line the inner scanner rejects becomes an `Unknown` record instead of a
/// continuation. Used for custom, unconfirmed patterns so unrelated lines do
/// not visually merge.
pub struct LooseScanner<'a, S: RecordScanner> {
    inner: &'a S,
}

impl<'a, S: RecordScanner> LooseScanner<'a, S> {
    pub closed spec fn inner(&self) -> &'a S {
        self.inner
    }

    pub proof fn lemma_loose_of(inner: &'a S)
        ensures
            Self::loose_of(inner).inner() == inner,
    {
    }

    /// The loose scanner around `inner`.
    pub closed spec fn loose_of(inner: &'a S) -> LooseScanner<'a, S> {
        LooseScanner { inner }
    }

    pub fn new(inner: &'a S) -> (r: LooseScanner<'a, S>)
        ensures
            r.inner() == inner,
            r == Self::loose_of(inner),
    {
        LooseScanner { inner }
    }
}

impl<'a, S: RecordScanner> RecordScanner for LooseScanner<'a, S> {
    open spec fn spec_parse_header(&self, line: Seq<u8>) -> Option<ParsedHeader> {
        match self.inner().spec_parse_header(line) {
            Some(p) => Some(p),
            None => Some(ParsedHeader { level: Level::Unknown, fields: HeaderFields::spec_empty() }),
        }
    }

    fn try_parse_header(&self, line: &[u8]) -> (r: Option<ParsedHeader>) {
        match self.inner.try_parse_header(line) {
            Some(p) => Some(p),
            None => Some(ParsedHeader { level: Level::Unknown, fields: HeaderFields::empty() }),
        }
    }
}

/// The level the loose scanner gives line `i`: the inner scanner's, or
/// `Unknown` where it reads no header.
pub open spec fn loose_level<S: RecordScanner>(inner: &S, bytes: Seq<u8>, starts: Seq<u64>, i: int) -> Level {
    match inner.spec_parse_header(line_text(bytes, starts, i)) {
        Some(p) => p.level,
        None => Level::Unknown,
    }
}

proof fn lemma_loose_heads<'a, S: RecordScanner>(inner: &'a S, bytes: Seq<u8>, starts: Seq<u64>, n: nat)
    ensures
        ({
            let heads = scan_heads(&LooseScanner::loose_of(inner), bytes, starts, n);
            &&& heads.len() == n
            &&& forall|k: int|
                0 <= k < n ==> (#[trigger] heads[k]).byte_offset == starts[k] && heads[k].line_count == 1
                    && heads[k].line_offset == sat_u32(k) && heads[k].level == loose_level(inner, bytes, starts, k)
        }),
    decreases n,
{
    LooseScanner::lemma_loose_of(inner);
    if n > 0 {
        lemma_loose_heads(inner, bytes, starts, (n - 1) as nat);
        let prev = scan_heads(&LooseScanner::loose_of(inner), bytes, starts, (n - 1) as nat);
        let heads = scan_heads(&LooseScanner::loose_of(inner), bytes, starts, n);
        assert forall|k: int| 0 <= k < n implies (#[trigger] heads[k]).byte_offset == starts[k]
            && heads[k].line_count == 1 && heads[k].line_offset == sat_u32(k) && heads[k].level == loose_level(
            inner,
            bytes,
            starts,
            k,
        ) by {
            if k < n - 1 {
                assert(heads[k] == prev[k]);
            }
        }
    }
}

/// Under the loose scanner every physical line is a record of its own: one
/// record per line, starting at its line, one line long, with the level the
/// inner scanner reads on it (`Unknown` where it reads no header).
pub proof fn law_loose_one_record_per_line<'a, S: RecordScanner>(inner: &'a S, bytes: Seq<u8>)
    ensures
        ({
            let starts = line_starts(bytes);
            let recs = spec_scan_records(&LooseScanner::loose_of(inner), starts, bytes.len() as u64, bytes);
            &&& recs.len() == starts.len()
            &&& forall|k: int|
                0 <= k < recs.len() ==> (#[trigger] recs[k]).byte_offset == starts[k] && recs[k].line_count == 1
                    && recs[k].line_offset == sat_u32(k) && recs[k].level == loose_level(inner, bytes, starts, k)
        }),
{
    let starts = line_starts(bytes);
    lemma_loose_heads(inner, bytes, starts, starts.len());
}

pub(crate) fn strip_eol(line: &[u8]) -> (r: &[u8])
    ensures
        r@ == spec_strip_eol(line@),
{
    let mut end = line.len();
    if end > 0 && line[end - 1] == 10u8 {
        end -= 1;
    }
    if end > 0 && line[end - 1] == 13u8 {
        end -= 1;
    }
    let r = &line[0..end];
    assert(r@ =~= spec_strip_eol(line@));
    r
}

} // verus!
