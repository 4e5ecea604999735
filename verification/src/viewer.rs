//! The viewer's in-memory state for one opened file: its bytes, line starts
//! and records, kept consistent while the file grows under a tail, is
//! re-indexed after a rotation, or is narrowed by a truncate window.

use vstd::prelude::*;
use crate::index::{
    LineIndex, line_starts, line_starts_upto, is_line_start, lemma_line_starts,
    lemma_line_starts_upto_prefix, lemma_line_starts_upto_extend,
};
use crate::record::{
    RecordHeader, RecordScanner, Level, scan_step, line_end, spec_strip_eol, sat_u32, record_end,
    strip_eol, scan_records, line_text, scan_heads, spec_scan_records, fill_byte_lens,
};
use crate::pattern::HeaderFields;
use vstd::utf8::{valid_utf8, decode_utf8, encode_utf8, is_char_boundary};
use vstd::string::StringSliceAdditionalSpecFns;

verus! {

/// One opened log file as the viewer holds it.
pub struct OpenedFile {
    pub path: String,
    pub records: Vec<RecordHeader>,
    /// First physical line of each record, parallel to `records`.
    pub record_first_line: Vec<u64>,
    /// Number of physical lines.
    pub line_count: u64,
    /// The file content read so far.
    pub bytes: Vec<u8>,
    /// Byte offset of every physical line start of `bytes`.
    pub line_offsets: Vec<u64>,
    pub pattern_source: String,
    pub pattern_name: Option<String>,
    /// Every physical line is its own record (no continuations).
    pub loose: bool,
    /// Id of the most recent search started on this file.
    pub current_search_id: u64,
    /// First visible physical line, when the top is cut.
    pub truncate_before: Option<u64>,
    /// One past the last visible physical line, when the bottom is cut.
    pub truncate_after: Option<u64>,
}

/// `recs` and `firsts` describe records over the first `lines` lines split at
/// `starts`: one first line per record, strictly increasing from line 0, each
/// record starting at its first line's start.
pub open spec fn records_shaped(
    recs: Seq<RecordHeader>,
    firsts: Seq<u64>,
    starts: Seq<u64>,
    lines: nat,
) -> bool {
    &&& recs.len() == firsts.len()
    &&& (recs.len() == 0 <==> lines == 0)
    &&& recs.len() > 0 ==> firsts[0] == 0
    &&& forall|k: int| 0 <= k < firsts.len() ==> #[trigger] firsts[k] < lines
    &&& forall|a: int, b: int| 0 <= a < b < firsts.len() ==> firsts[a] < firsts[b]
    &&& forall|k: int|
        0 <= k < recs.len() ==> (#[trigger] recs[k]).line_offset == sat_u32(firsts[k] as int)
            && recs[k].byte_offset == starts[firsts[k] as int]
}

/// Every record ends inside the first `total` bytes.
pub open spec fn records_within(recs: Seq<RecordHeader>, total: nat) -> bool {
    forall|k: int| 0 <= k < recs.len() ==> (#[trigger] recs[k]).byte_offset + recs[k].byte_len <= total
}

impl OpenedFile {
    /// The bookkeeping agrees with `bytes`: the line starts are those of
    /// `bytes`, the line count is theirs (and fits a record's `u32` line
    /// index), and the records tile the lines in order.
    pub open spec fn wf(&self) -> bool {
        &&& self.line_offsets@ == line_starts(self.bytes@)
        &&& self.line_count == self.line_offsets@.len()
        &&& self.line_count <= u32::MAX
        &&& records_shaped(
            self.records@,
            self.record_first_line@,
            self.line_offsets@,
            self.line_count as nat,
        )
        &&& records_within(self.records@, self.bytes@.len())
    }

    /// The visible window `(lo, hi)`: unset bounds default to the whole file.
    pub open spec fn spec_window(&self) -> (u64, u64) {
        (
            match self.truncate_before {
                Some(b) => b,
                None => 0,
            },
            match self.truncate_after {
                Some(a) => a,
                None => self.line_count,
            },
        )
    }

    /// Resolve the visible physical-line window, `(lo_inclusive, hi_exclusive)`.
    pub fn truncate_window(&self) -> (r: (u64, u64))
        ensures
            r == self.spec_window(),
    {
        let lo = match self.truncate_before {
            Some(b) => b,
            None => 0,
        };
        let hi = match self.truncate_after {
            Some(a) => a,
            None => self.line_count,
        };
        (lo, hi)
    }

    /// Number of physical lines inside the window, never more than the file has.
    pub fn windowed_line_count(&self) -> (r: u64)
        ensures
            r == windowed_lines(self.spec_window(), self.line_count),
    {
        let (lo, hi) = self.truncate_window();
        let span = if hi > lo {
            hi - lo
        } else {
            0
        };
        if span < self.line_count {
            span
        } else {
            self.line_count
        }
    }

    /// Set (or clear) the truncate window. An empty or inverted window is
    /// refused and leaves the file as it was.
    pub fn apply_truncate(&mut self, before: Option<u64>, after: Option<u64>) -> (r: Result<
        TruncatePayload,
        WindowError,
    >)
        ensures
            match (before, after) {
                (Some(b), Some(a)) => b >= a,
                _ => false,
            } ==> r == Err::<TruncatePayload, WindowError>(
                WindowError::Inverted { before: before.unwrap(), after: after.unwrap() },
            ) && *final(self) == *old(self),
            !match (before, after) {
                (Some(b), Some(a)) => b >= a,
                _ => false,
            } ==> {
                &&& final(self).truncate_before == before
                &&& final(self).truncate_after == after
                &&& final(self).records@ == old(self).records@
                &&& final(self).line_count == old(self).line_count
                &&& r == Ok::<TruncatePayload, WindowError>(
                    TruncatePayload {
                        before,
                        after,
                        line_count: windowed_lines(final(self).spec_window(), final(self).line_count),
                        record_count: count_in_window(
                            final(self).records@,
                            final(self).spec_window().0,
                            final(self).spec_window().1,
                        ) as u64,
                    },
                )
            },
    {
        if let (Some(b), Some(a)) = (before, after) {
            if b >= a {
                return Err(WindowError::Inverted { before: b, after: a });
            }
        }
        self.truncate_before = before;
        self.truncate_after = after;
        let (lo, hi) = self.truncate_window();
        let mut count: u64 = 0;
        let mut i: usize = 0;
        while i < self.records.len()
            invariant
                i <= self.records@.len(),
                count == count_in_window(self.records@.take(i as int), lo, hi),
                count <= i,
            decreases self.records@.len() - i,
        {
            let f = self.records[i].line_offset as u64;
            proof {
                assert(self.records@.take(i + 1).drop_last() =~= self.records@.take(i as int));
            }
            if f >= lo && f < hi {
                count = count + 1;
            }
            i += 1;
        }
        assert(self.records@.take(self.records@.len() as int) =~= self.records@);
        let line_count = self.windowed_line_count();
        Ok(TruncatePayload { before, after, line_count, record_count: count })
    }

    /// Replace the line bookkeeping and re-derive each record's first line
    /// from its header.
    pub fn rebuild_line_caches(&mut self, line_count: u64, line_offsets: Vec<u64>)
        ensures
            final(self).line_count == line_count,
            final(self).line_offsets@ == line_offsets@,
            final(self).record_first_line@ == first_lines_of(old(self).records@),
            final(self).records@ == old(self).records@,
            final(self).bytes@ == old(self).bytes@,
            final(self).path == old(self).path,
            final(self).pattern_source == old(self).pattern_source,
            final(self).pattern_name == old(self).pattern_name,
            final(self).loose == old(self).loose,
            final(self).current_search_id == old(self).current_search_id,
            final(self).truncate_before == old(self).truncate_before,
            final(self).truncate_after == old(self).truncate_after,
    {
        self.line_count = line_count;
        self.line_offsets = line_offsets;
        let mut firsts: Vec<u64> = Vec::new();
        let mut i: usize = 0;
        while i < self.records.len()
            invariant
                i <= self.records@.len(),
                firsts@ == first_lines_of(self.records@).take(i as int),
            decreases self.records@.len() - i,
        {
            firsts.push(self.records[i].line_offset as u64);
            proof {
                assert(firsts@ =~= first_lines_of(self.records@).take(i + 1));
            }
            i += 1;
        }
        assert(first_lines_of(self.records@).take(self.records@.len() as int)
            =~= first_lines_of(self.records@));
        self.record_first_line = firsts;
    }
}

/// Lines inside `(lo, hi)`, clamped to `[0, line_count]`.
pub open spec fn windowed_lines(window: (u64, u64), line_count: u64) -> u64 {
    let span: int = if window.1 > window.0 {
        window.1 - window.0
    } else {
        0
    };
    if span < line_count {
        span as u64
    } else {
        line_count
    }
}

/// Number of records whose first line lies in `[lo, hi)`.
pub open spec fn count_in_window(recs: Seq<RecordHeader>, lo: u64, hi: u64) -> nat
    decreases recs.len(),
{
    if recs.len() == 0 {
        0
    } else {
        count_in_window(recs.drop_last(), lo, hi) + if lo <= recs.last().line_offset < hi {
            1nat
        } else {
            0nat
        }
    }
}

/// Each record's first line, as recorded in its header.
pub open spec fn first_lines_of(recs: Seq<RecordHeader>) -> Seq<u64> {
    Seq::new(recs.len(), |i: int| recs[i].line_offset as u64)
}

/// Why a truncate window was refused.
#[derive(Debug, Clone, Copy, PartialEq, Eq, Structural)]
pub enum WindowError {
    /// `before` is not below `after`.
    Inverted { before: u64, after: u64 },
}

/// What the UI is told after a truncate window is set.
#[derive(Debug, Clone, Copy, PartialEq, Eq, Structural)]
pub struct TruncatePayload {
    pub before: Option<u64>,
    pub after: Option<u64>,
    /// Number of physical lines inside the window.
    pub line_count: u64,
    /// Number of records whose first line falls inside the window.
    pub record_count: u64,
}


/// Text of line `i` as the append path reads it: without its `\n` and a
/// `\r` before it; a final line with no `\n` yet is kept whole.
pub open spec fn appended_line_text(bytes: Seq<u8>, starts: Seq<u64>, i: int) -> Seq<u8> {
    let raw = bytes.subrange(starts[i] as int, line_end(starts, bytes.len() as int, i));
    if raw.len() > 0 && raw.last() == 10 {
        spec_strip_eol(raw)
    } else {
        raw
    }
}

/// `recs` extended by scanning lines `from..n` of `bytes` (split at
/// `starts`) as appended lines.
pub open spec fn extend_heads<S: RecordScanner>(
    scanner: &S,
    recs: Seq<RecordHeader>,
    bytes: Seq<u8>,
    starts: Seq<u64>,
    from: nat,
    n: nat,
) -> Seq<RecordHeader>
    decreases n,
{
    if n <= from {
        recs
    } else {
        scan_step(
            extend_heads(scanner, recs, bytes, starts, from, (n - 1) as nat),
            starts[n - 1],
            n - 1,
            scanner.spec_parse_header(appended_line_text(bytes, starts, n - 1)),
        )
    }
}

/// `firsts` extended with the first line of every record opened while
/// scanning lines `from..n`.
pub open spec fn extend_firsts<S: RecordScanner>(
    scanner: &S,
    recs: Seq<RecordHeader>,
    firsts: Seq<u64>,
    bytes: Seq<u8>,
    starts: Seq<u64>,
    from: nat,
    n: nat,
) -> Seq<u64>
    decreases n,
{
    if n <= from {
        firsts
    } else {
        let prev = extend_firsts(scanner, recs, firsts, bytes, starts, from, (n - 1) as nat);
        if scanner.spec_parse_header(appended_line_text(bytes, starts, n - 1)) is Some
            || extend_heads(scanner, recs, bytes, starts, from, (n - 1) as nat).len() == 0 {
            prev.push((n - 1) as u64)
        } else {
            prev
        }
    }
}

/// `recs` with the byte length of every record from `k0` on recomputed so
/// it runs to the next record (the last one to `total`).
pub open spec fn fix_lens_from(recs: Seq<RecordHeader>, k0: int, total: u64) -> Seq<RecordHeader> {
    Seq::new(
        recs.len(),
        |i: int|
            if i >= k0 {
                RecordHeader {
                    byte_len: sat_u32(record_end(recs, total, i) - recs[i].byte_offset),
                    ..recs[i]
                }
            } else {
                recs[i]
            },
    )
}

/// The records after appending: the lines from line `from` on scanned onto
/// `recs`, then the byte lengths from the last old record on recomputed.
pub open spec fn appended_records<S: RecordScanner>(
    scanner: &S,
    recs: Seq<RecordHeader>,
    bytes: Seq<u8>,
    from: nat,
) -> Seq<RecordHeader> {
    fix_lens_from(
        extend_heads(scanner, recs, bytes, line_starts(bytes), from, line_starts(bytes).len()),
        recs.len() - 1,
        bytes.len() as u64,
    )
}

/// Push every line start of `bytes` at or after `from`.
fn push_line_starts(offsets: &mut Vec<u64>, bytes: &[u8], from: usize)
    requires
        old(offsets)@ == line_starts_upto(bytes@, from as nat),
        from <= bytes.len(),
    ensures
        final(offsets)@ == line_starts(bytes@),
{
    let mut p = from;
    while p < bytes.len()
        invariant
            from <= p <= bytes.len(),
            offsets@ == line_starts_upto(bytes@, p as nat),
        decreases bytes.len() - p,
    {
        if p == 0 || bytes[p - 1] == 10u8 {
            offsets.push(p as u64);
        }
        p += 1;
    }
}

/// Scan lines `from..` of `bytes` onto `records`, noting the first line of
/// every record opened.
fn append_record_lines<S: RecordScanner>(
    records: &mut Vec<RecordHeader>,
    firsts: &mut Vec<u64>,
    scanner: &S,
    bytes: &[u8],
    starts: &[u64],
    from: usize,
)
    requires
        starts@ == line_starts(bytes@),
        from <= starts@.len(),
        records_shaped(old(records)@, old(firsts)@, starts@, from as nat),
    ensures
        final(records)@ == extend_heads(scanner, old(records)@, bytes@, starts@, from as nat, starts@.len()),
        final(firsts)@ == extend_firsts(
            scanner,
            old(records)@,
            old(firsts)@,
            bytes@,
            starts@,
            from as nat,
            starts@.len(),
        ),
        final(records)@.len() >= old(records)@.len(),
        records_shaped(final(records)@, final(firsts)@, starts@, starts@.len()),
{
    let blen = bytes.len();
    proof {
        lemma_line_starts(bytes@);
    }
    let ghost recs0 = records@;
    let ghost firsts0 = firsts@;
    let n = starts.len();
    let mut i = from;
    while i < n
        invariant
            n == starts@.len(),
            starts@ == line_starts(bytes@),
            from <= i <= n,
            n <= bytes.len(),
            forall|a: int, b: int| 0 <= a < b < starts@.len() ==> starts@[a] < starts@[b],
            forall|a: int| 0 <= a < starts@.len() ==> is_line_start(bytes@, #[trigger] starts@[a] as int),
            records@ == extend_heads(scanner, recs0, bytes@, starts@, from as nat, i as nat),
            firsts@ == extend_firsts(scanner, recs0, firsts0, bytes@, starts@, from as nat, i as nat),
            records@.len() >= recs0.len(),
            records_shaped(records@, firsts@, starts@, i as nat),
        decreases n - i,
    {
        let start = starts[i];
        let end = if i + 1 < n {
            starts[i + 1]
        } else {
            bytes.len() as u64
        };
        proof {
            assert(is_line_start(bytes@, starts@[i as int] as int));
            if i + 1 < n {
                assert(starts@[i as int] < starts@[i + 1]);
                assert(is_line_start(bytes@, starts@[i + 1] as int));
            }
        }
        let raw = &bytes[start as usize..end as usize];
        let text = if raw.len() > 0 && raw[raw.len() - 1] == 10u8 {
            strip_eol(raw)
        } else {
            raw
        };
        assert(text@ == appended_line_text(bytes@, starts@, i as int));
        let ghost prev = records@;
        let ghost prev_firsts = firsts@;
        let line_offset: u32 = if i <= 0xFFFF_FFFF {
            i as u32
        } else {
            u32::MAX
        };
        match scanner.try_parse_header(text) {
            Some(parsed) => {
                records.push(
                    RecordHeader {
                        byte_offset: start,
                        byte_len: 0,
                        line_offset,
                        line_count: 1,
                        level: parsed.level,
                        fields: parsed.fields,
                    },
                );
                firsts.push(i as u64);
            },
            None => {
                let len = records.len();
                if len > 0 {
                    let last = records[len - 1];
                    records.set(
                        len - 1,
                        RecordHeader { line_count: last.line_count.saturating_add(1), ..last },
                    );
                } else {
                    records.push(
                        RecordHeader {
                            byte_offset: start,
                            byte_len: 0,
                            line_offset,
                            line_count: 1,
                            level: Level::Unknown,
                            fields: HeaderFields::empty(),
                        },
                    );
                    firsts.push(i as u64);
                }
            },
        }
        proof {
            assert(records@ =~= extend_heads(scanner, recs0, bytes@, starts@, from as nat, (i + 1) as nat));
            assert(firsts@ =~= extend_firsts(scanner, recs0, firsts0, bytes@, starts@, from as nat, (i + 1) as nat));
            assert forall|k: int| 0 <= k < records@.len() implies (#[trigger] records@[k]).line_offset
                == sat_u32(firsts@[k] as int) && records@[k].byte_offset == starts@[firsts@[k] as int] by {
                if k < prev.len() {
                    assert(records@[k].line_offset == prev[k].line_offset);
                    assert(records@[k].byte_offset == prev[k].byte_offset);
                    assert(firsts@[k] == prev_firsts[k]);
                }
            }
        }
        i += 1;
    }
}

/// Recompute the byte length of every record from `k0` on.
fn fix_byte_lens_from(records: &mut Vec<RecordHeader>, k0: usize, total: u64)
    requires
        forall|a: int, b: int|
            0 <= a < b < old(records)@.len() ==> old(records)@[a].byte_offset
                < old(records)@[b].byte_offset,
        forall|a: int| 0 <= a < old(records)@.len() ==> (#[trigger] old(records)@[a]).byte_offset < total,
    ensures
        final(records)@ == fix_lens_from(old(records)@, k0 as int, total),
{
    let ghost recs0 = records@;
    let n = records.len();
    let mut k = k0;
    if k > n {
        k = n;
    }
    while k < n
        invariant
            n == recs0.len(),
            records@.len() == n,
            k0 <= k <= n || (k == n && k0 > n),
            forall|a: int, b: int| 0 <= a < b < recs0.len() ==> recs0[a].byte_offset < recs0[b].byte_offset,
            forall|a: int| 0 <= a < recs0.len() ==> (#[trigger] recs0[a]).byte_offset < total,
            forall|a: int|
                0 <= a < n ==> #[trigger] records@[a] == if k0 <= a < k {
                    fix_lens_from(recs0, k0 as int, total)[a]
                } else {
                    recs0[a]
                },
        decreases n - k,
    {
        let end = if k + 1 < n {
            records[k + 1].byte_offset
        } else {
            total
        };
        let r = records[k];
        let len = end - r.byte_offset;
        let byte_len: u32 = if len <= 0xFFFF_FFFF {
            len as u32
        } else {
            u32::MAX
        };
        records.set(k, RecordHeader { byte_len, ..r });
        k += 1;
    }
    assert(records@ =~= fix_lens_from(recs0, k0 as int, total));
}

/// Fold `appended`, which arrived at `from_offset` (the current end of the
/// file), into `file`. When the file's last line had no `\n` yet, the first
/// bytes up to and including the next `\n` complete that line without a
/// new line start or record; every further line is scanned as a header (a
/// new record) or a continuation of the last record. The byte lengths of
/// the last old record and all new ones are then recomputed.
pub fn extend_with_appended<S: RecordScanner>(
    file: &mut OpenedFile,
    scanner: &S,
    from_offset: u64,
    appended: &[u8],
)
    requires
        old(file).wf(),
        from_offset == old(file).bytes@.len(),
    ensures
        final(file).bytes@ == old(file).bytes@ + appended@,
        final(file).line_offsets@ == line_starts(final(file).bytes@),
        final(file).line_count == final(file).line_offsets@.len(),
        final(file).records@ == appended_records(
            scanner,
            old(file).records@,
            final(file).bytes@,
            old(file).line_offsets@.len(),
        ),
        final(file).record_first_line@ == extend_firsts(
            scanner,
            old(file).records@,
            old(file).record_first_line@,
            final(file).bytes@,
            line_starts(final(file).bytes@),
            old(file).line_offsets@.len(),
            line_starts(final(file).bytes@).len(),
        ),
        final(file).records@.len() >= old(file).records@.len(),
        final(file).line_count <= u32::MAX ==> final(file).wf(),
        final(file).path == old(file).path,
        final(file).pattern_source == old(file).pattern_source,
        final(file).pattern_name == old(file).pattern_name,
        final(file).loose == old(file).loose,
        final(file).current_search_id == old(file).current_search_id,
        final(file).truncate_before == old(file).truncate_before,
        final(file).truncate_after == old(file).truncate_after,
{
    let ghost old_bytes = file.bytes@;
    let ghost old_starts = file.line_offsets@;
    let ghost old_recs = file.records@;
    let old_len = file.bytes.len();
    let n0 = file.line_offsets.len();
    let old_record_count = file.records.len();
    file.bytes.extend_from_slice(appended);
    let new_len = file.bytes.len();
    let ghost new_bytes = file.bytes@;
    proof {
        assert(new_bytes =~= old_bytes + appended@);
        assert(new_bytes.take(old_bytes.len() as int) =~= old_bytes);
        lemma_line_starts_upto_extend(old_bytes, new_bytes, old_bytes.len());
    }
    push_line_starts(&mut file.line_offsets, file.bytes.as_slice(), old_len);
    let ghost new_starts = file.line_offsets@;
    proof {
        lemma_line_starts(new_bytes);
        lemma_line_starts_upto_prefix(new_bytes, old_bytes.len(), new_bytes.len());
        assert(new_starts.take(n0 as int) == old_starts);
        assert forall|k: int| 0 <= k < old_recs.len() implies (#[trigger] old_recs[k]).byte_offset
            == new_starts[file.record_first_line@[k] as int] by {
            assert(old_starts[file.record_first_line@[k] as int] == new_starts.take(
                n0 as int,
            )[file.record_first_line@[k] as int]);
        }
    }
    append_record_lines(
        &mut file.records,
        &mut file.record_first_line,
        scanner,
        file.bytes.as_slice(),
        file.line_offsets.as_slice(),
        n0,
    );
    let total = file.bytes.len() as u64;
    let k0 = if old_record_count > 0 {
        old_record_count - 1
    } else {
        0
    };
    let ghost heads = file.records@;
    proof {
        assert forall|a: int, b: int| 0 <= a < b < heads.len() implies heads[a].byte_offset
            < heads[b].byte_offset by {
            assert(heads[a].byte_offset == new_starts[file.record_first_line@[a] as int]);
            assert(heads[b].byte_offset == new_starts[file.record_first_line@[b] as int]);
        }
        assert forall|a: int| 0 <= a < heads.len() implies (#[trigger] heads[a]).byte_offset < total by {
            assert(heads[a].byte_offset == new_starts[file.record_first_line@[a] as int]);
            assert(is_line_start(new_bytes, new_starts[file.record_first_line@[a] as int] as int));
        }
    }
    fix_byte_lens_from(&mut file.records, k0, total);
    proof {
        assert(fix_lens_from(heads, k0 as int, total) =~= fix_lens_from(heads, old_recs.len() - 1, total));
        assert forall|k: int| 0 <= k < file.records@.len() implies (#[trigger] file.records@[k]).line_offset
            == sat_u32(file.record_first_line@[k] as int) && file.records@[k].byte_offset
            == new_starts[file.record_first_line@[k] as int] by {
            assert(file.records@[k].line_offset == heads[k].line_offset);
            assert(file.records@[k].byte_offset == heads[k].byte_offset);
        }
        lemma_extend_keeps_prefix(scanner, old_recs, new_bytes, new_starts, n0 as nat, new_starts.len());
        assert forall|k: int| 0 <= k < file.records@.len() implies (#[trigger] file.records@[k]).byte_offset
            + file.records@[k].byte_len <= new_bytes.len() by {
            if k < k0 {
                assert(file.records@[k] == heads[k]);
                assert(heads[k] == old_recs[k]);
            } else if k + 1 < heads.len() {
                assert(heads[k].byte_offset < heads[k + 1].byte_offset);
            }
        }
    }
    file.line_count = file.line_offsets.len() as u64;
}


/// `x` and `y` hold the same records but for their byte lengths.
pub open spec fn same_but_len(x: Seq<RecordHeader>, y: Seq<RecordHeader>) -> bool {
    &&& x.len() == y.len()
    &&& forall|i: int|
        0 <= i < x.len() ==> RecordHeader { byte_len: 0, ..#[trigger] x[i] } == RecordHeader {
            byte_len: 0,
            ..y[i]
        }
}

/// Scanning appended lines never drops records, leaves all but the last old
/// record alone and moves no old record's start.
proof fn lemma_extend_keeps_prefix<S: RecordScanner>(
    scanner: &S,
    recs: Seq<RecordHeader>,
    bytes: Seq<u8>,
    starts: Seq<u64>,
    from: nat,
    n: nat,
)
    ensures
        extend_heads(scanner, recs, bytes, starts, from, n).len() >= recs.len(),
        forall|k: int|
            0 <= k < recs.len() - 1 ==> #[trigger] extend_heads(scanner, recs, bytes, starts, from, n)[k]
                == recs[k],
        forall|k: int|
            0 <= k < recs.len() ==> (#[trigger] extend_heads(scanner, recs, bytes, starts, from, n)[k]).byte_offset
                == recs[k].byte_offset,
    decreases n,
{
    if n > from {
        lemma_extend_keeps_prefix(scanner, recs, bytes, starts, from, (n - 1) as nat);
        let prev = extend_heads(scanner, recs, bytes, starts, from, (n - 1) as nat);
        let cur = extend_heads(scanner, recs, bytes, starts, from, n);
        assert forall|k: int| 0 <= k < recs.len() - 1 implies #[trigger] cur[k] == recs[k] by {
            assert(cur[k] == prev[k]);
        }
        assert forall|k: int| 0 <= k < recs.len() implies (#[trigger] cur[k]).byte_offset
            == recs[k].byte_offset by {
            assert(cur[k].byte_offset == prev[k].byte_offset);
        }
    }
}

/// Scanning the same appended lines onto two record lists that differ only
/// in byte lengths gives lists that differ only in byte lengths.
proof fn lemma_extend_same_but_len<S: RecordScanner>(
    scanner: &S,
    r1: Seq<RecordHeader>,
    r2: Seq<RecordHeader>,
    bytes: Seq<u8>,
    starts: Seq<u64>,
    from: nat,
    n: nat,
)
    requires
        same_but_len(r1, r2),
    ensures
        same_but_len(
            extend_heads(scanner, r1, bytes, starts, from, n),
            extend_heads(scanner, r2, bytes, starts, from, n),
        ),
    decreases n,
{
    if n > from {
        lemma_extend_same_but_len(scanner, r1, r2, bytes, starts, from, (n - 1) as nat);
        let p1 = extend_heads(scanner, r1, bytes, starts, from, (n - 1) as nat);
        let p2 = extend_heads(scanner, r2, bytes, starts, from, (n - 1) as nat);
        let c1 = extend_heads(scanner, r1, bytes, starts, from, n);
        let c2 = extend_heads(scanner, r2, bytes, starts, from, n);
        assert forall|i: int| 0 <= i < c1.len() implies RecordHeader { byte_len: 0, ..#[trigger] c1[i] }
            == RecordHeader { byte_len: 0, ..c2[i] } by {
            if i < p1.len() {
                assert(RecordHeader { byte_len: 0, ..p1[i] } == RecordHeader { byte_len: 0, ..p2[i] });
            }
        }
    }
}

/// Once every appended line reads like a scanned line, scanning the whole
/// file is scanning its first `from` lines and then the rest as appended.
proof fn lemma_scan_heads_as_extend<S: RecordScanner>(
    scanner: &S,
    bytes: Seq<u8>,
    starts: Seq<u64>,
    from: nat,
    n: nat,
)
    requires
        from <= n,
        forall|i: int|
            from <= i < n ==> #[trigger] appended_line_text(bytes, starts, i) == line_text(
                bytes,
                starts,
                i,
            ),
    ensures
        scan_heads(scanner, bytes, starts, n) == extend_heads(
            scanner,
            scan_heads(scanner, bytes, starts, from),
            bytes,
            starts,
            from,
            n,
        ),
    decreases n,
{
    if n > from {
        lemma_scan_heads_as_extend(scanner, bytes, starts, from, (n - 1) as nat);
        assert(appended_line_text(bytes, starts, n - 1) == line_text(bytes, starts, n - 1));
    }
}

/// Lines of a file agree with lines of a longer file that starts with it,
/// below the first new line.
proof fn lemma_scan_heads_of_prefix<S: RecordScanner>(
    scanner: &S,
    short: Seq<u8>,
    long: Seq<u8>,
    n: nat,
)
    requires
        n <= line_starts(short).len() <= line_starts(long).len(),
        forall|i: int|
            0 <= i < line_starts(short).len() ==> #[trigger] line_text(long, line_starts(long), i)
                == line_text(short, line_starts(short), i),
        line_starts(long).take(line_starts(short).len() as int) == line_starts(short),
    ensures
        scan_heads(scanner, long, line_starts(long), n) == scan_heads(
            scanner,
            short,
            line_starts(short),
            n,
        ),
    decreases n,
{
    if n > 0 {
        lemma_scan_heads_of_prefix(scanner, short, long, (n - 1) as nat);
        assert(line_starts(long)[n - 1] == line_starts(long).take(line_starts(short).len() as int)[n - 1]);
        assert(line_text(long, line_starts(long), n - 1) == line_text(short, line_starts(short), n - 1));
    }
}

/// Appending to a file that ends at a line boundary a chunk that also ends
/// at a line boundary leaves the records exactly as scanning the grown file
/// from scratch: a tail delivering whole lines in any number of ticks
/// matches a fresh index of the same bytes.
#[verifier::rlimit(40)]
pub proof fn law_append_matches_full_scan<S: RecordScanner>(
    scanner: &S,
    old: Seq<u8>,
    chunk: Seq<u8>,
)
    requires
        old.len() == 0 || old.last() == 10,
        chunk.len() == 0 || chunk.last() == 10,
        old.len() + chunk.len() <= u64::MAX,
    ensures
        appended_records(
            scanner,
            spec_scan_records(scanner, line_starts(old), old.len() as u64, old),
            old + chunk,
            line_starts(old).len(),
        ) == spec_scan_records(
            scanner,
            line_starts(old + chunk),
            (old + chunk).len() as u64,
            old + chunk,
        ),
{
    let full = old + chunk;
    let s0 = line_starts(old);
    let s1 = line_starts(full);
    let n0 = s0.len();
    let n1 = s1.len();
    let total = full.len() as u64;
    lemma_line_starts(old);
    lemma_line_starts(full);
    assert(full.take(old.len() as int) =~= old);
    lemma_line_starts_upto_extend(old, full, old.len());
    lemma_line_starts_upto_prefix(full, old.len(), full.len());
    assert(s1.take(n0 as int) == s0);
    // The first new line starts right where the old content ends.
    if chunk.len() > 0 {
        assert(is_line_start(full, old.len() as int)) by {
            if old.len() > 0 {
                assert(full[old.len() - 1] == old.last());
            }
        }
        let k = choose|k: int| 0 <= k < s1.len() && s1[k] == old.len() as u64;
        if k < n0 {
            assert(s1[k] == s0[k]);
            assert(is_line_start(old, s0[k] as int));
        }
        assert(n1 > n0);
        if n0 < k {
            assert(s1[n0 as int] < s1[k]);
        }
        assert(s1[n0 as int] == old.len());
    } else {
        assert(full =~= old);
    }
    // Old lines read the same in the grown file.
    assert forall|i: int| 0 <= i < n0 implies #[trigger] line_text(full, s1, i) == line_text(old, s0, i) by {
        assert(s1[i] == s0[i]);
        if i + 1 < n0 {
            assert(s1[i + 1] == s0[i + 1]);
        }
        assert(is_line_start(old, s0[i] as int));
        assert(line_end(s1, full.len() as int, i) == line_end(s0, old.len() as int, i));
        assert(full.subrange(s1[i] as int, line_end(s1, full.len() as int, i)) =~= old.subrange(
            s0[i] as int,
            line_end(s0, old.len() as int, i),
        ));
    }
    lemma_scan_heads_of_prefix(scanner, old, full, n0);
    // Every line of the grown file ends with `\n`, so appended lines read
    // like scanned ones.
    assert forall|i: int| n0 <= i < n1 implies #[trigger] appended_line_text(full, s1, i) == line_text(
        full,
        s1,
        i,
    ) by {
        assert(is_line_start(full, s1[i] as int));
        if i + 1 < n1 {
            assert(s1[i] < s1[i + 1]);
            assert(is_line_start(full, s1[i + 1] as int));
        }
        let raw = full.subrange(s1[i] as int, line_end(s1, full.len() as int, i));
        assert(raw.len() > 0);
        if i + 1 < n1 {
            assert(raw.last() == full[s1[i + 1] - 1]);
        } else {
            assert(raw.last() == full.last());
            if chunk.len() > 0 {
                assert(full.last() == chunk.last());
            }
        }
    }
    lemma_scan_heads_as_extend(scanner, full, s1, n0, n1);
    let heads0 = scan_heads(scanner, old, s0, n0);
    let recs0 = spec_scan_records(scanner, s0, old.len() as u64, old);
    let heads1 = scan_heads(scanner, full, s1, n1);
    let ext = extend_heads(scanner, recs0, full, s1, n0, n1);
    assert(same_but_len(recs0, heads0)) by {
        assert forall|i: int| 0 <= i < recs0.len() implies RecordHeader {
            byte_len: 0,
            ..#[trigger] recs0[i]
        } == RecordHeader { byte_len: 0, ..heads0[i] } by {}
    }
    lemma_extend_same_but_len(scanner, recs0, heads0, full, s1, n0, n1);
    lemma_extend_keeps_prefix(scanner, recs0, full, s1, n0, n1);
    lemma_extend_keeps_prefix(scanner, heads0, full, s1, n0, n1);
    let lhs = fix_lens_from(ext, recs0.len() - 1, total);
    let rhs = spec_scan_records(scanner, s1, total, full);
    assert forall|i: int| 0 <= i < lhs.len() implies #[trigger] lhs[i] == rhs[i] by {
        assert(RecordHeader { byte_len: 0, ..ext[i] } == RecordHeader { byte_len: 0, ..heads1[i] });
        if i + 1 < ext.len() {
            assert(RecordHeader { byte_len: 0, ..ext[i + 1] } == RecordHeader {
                byte_len: 0,
                ..heads1[i + 1]
            });
        }
        if i < recs0.len() - 1 {
            assert(ext[i] == recs0[i]);
            assert(heads1[i] == heads0[i]);
            assert(heads1[i + 1].byte_offset == heads0[i + 1].byte_offset);
        }
    }
    assert(lhs =~= rhs);
}


/// The chunks laid end to end.
pub open spec fn concat_chunks(chunks: Seq<Seq<u8>>) -> Seq<u8>
    decreases chunks.len(),
{
    if chunks.len() == 0 {
        Seq::empty()
    } else {
        concat_chunks(chunks.drop_last()) + chunks.last()
    }
}

/// The records of a file that starts empty and is handed `chunks` one after
/// another, each appended as `extend_with_appended` appends it.
pub open spec fn records_after_chunks<S: RecordScanner>(scanner: &S, chunks: Seq<Seq<u8>>) -> Seq<RecordHeader>
    decreases chunks.len(),
{
    if chunks.len() == 0 {
        Seq::empty()
    } else {
        let before = concat_chunks(chunks.drop_last());
        appended_records(
            scanner,
            records_after_chunks(scanner, chunks.drop_last()),
            before + chunks.last(),
            line_starts(before).len(),
        )
    }
}

/// Handing a file its content in any number of chunks, each ending with a
/// newline, leaves exactly the records of scanning the whole content at
/// once.
pub proof fn law_chunked_append_matches_full_scan<S: RecordScanner>(scanner: &S, chunks: Seq<Seq<u8>>)
    requires
        forall|k: int| 0 <= k < chunks.len() ==> (#[trigger] chunks[k]).len() == 0 || chunks[k].last() == 10,
        concat_chunks(chunks).len() <= u64::MAX,
    ensures
        records_after_chunks(scanner, chunks) == spec_scan_records(
            scanner,
            line_starts(concat_chunks(chunks)),
            concat_chunks(chunks).len() as u64,
            concat_chunks(chunks),
        ),
    decreases chunks.len(),
{
    if chunks.len() == 0 {
        let e = Seq::<u8>::empty();
        assert(concat_chunks(chunks) == e);
        lemma_line_starts(e);
        assert(line_starts(e).len() == 0);
        assert(spec_scan_records(scanner, line_starts(e), 0, e) =~= Seq::<RecordHeader>::empty());
    } else {
        let init = chunks.drop_last();
        let before = concat_chunks(init);
        let last = chunks.last();
        assert forall|k: int| 0 <= k < init.len() implies (#[trigger] init[k]).len() == 0 || init[k].last() == 10 by {
            assert(init[k] == chunks[k]);
        }
        assert(concat_chunks(chunks) == before + last);
        lemma_concat_ends_line(init);
        law_chunked_append_matches_full_scan(scanner, init);
        assert(last == chunks[chunks.len() - 1]);
        law_append_matches_full_scan(scanner, before, last);
    }
}

/// Chunks that each end with a newline lay out content that is empty or
/// ends with a newline.
proof fn lemma_concat_ends_line(chunks: Seq<Seq<u8>>)
    requires
        forall|k: int| 0 <= k < chunks.len() ==> (#[trigger] chunks[k]).len() == 0 || chunks[k].last() == 10,
    ensures
        concat_chunks(chunks).len() == 0 || concat_chunks(chunks).last() == 10,
    decreases chunks.len(),
{
    if chunks.len() > 0 {
        let init = chunks.drop_last();
        assert forall|k: int| 0 <= k < init.len() implies (#[trigger] init[k]).len() == 0 || init[k].last() == 10 by {
            assert(init[k] == chunks[k]);
        }
        lemma_concat_ends_line(init);
        assert(chunks.last() == chunks[chunks.len() - 1]);
        let c = concat_chunks(init) + chunks.last();
        if chunks.last().len() == 0 {
            assert(c =~= concat_chunks(init));
        } else {
            assert(c.last() == chunks.last().last());
        }
    }
}

/// A fresh scan of a file with at most `u32::MAX` lines is shaped: its
/// header line indices are its first lines.
pub proof fn lemma_scan_shaped<S: RecordScanner>(scanner: &S, bytes: Seq<u8>)
    requires
        bytes.len() <= u64::MAX,
        line_starts(bytes).len() <= u32::MAX,
    ensures
        ({
            let starts = line_starts(bytes);
            let recs = spec_scan_records(scanner, starts, bytes.len() as u64, bytes);
            &&& records_shaped(recs, first_lines_of(recs), starts, starts.len())
            &&& records_within(recs, bytes.len())
        }),
{
    let starts = line_starts(bytes);
    let n = starts.len();
    let recs = spec_scan_records(scanner, starts, bytes.len() as u64, bytes);
    let heads = scan_heads(scanner, bytes, starts, n);
    let firsts = first_lines_of(recs);
    lemma_line_starts(bytes);
    crate::record::lemma_scan_heads_shape(scanner, bytes, starts, n);
    assert forall|k: int| 0 <= k < recs.len() implies #[trigger] firsts[k] < n && (recs[k].line_offset
        == sat_u32(firsts[k] as int) && recs[k].byte_offset == starts[firsts[k] as int]) by {
        let j = choose|j: int| 0 <= j < n && #[trigger] heads[k].byte_offset == starts[j]
            && heads[k].line_offset == sat_u32(j);
        assert(recs[k].line_offset == heads[k].line_offset);
        assert(recs[k].byte_offset == heads[k].byte_offset);
        assert(firsts[k] == j);
    }
    assert forall|a: int, b: int| 0 <= a < b < firsts.len() implies firsts[a] < firsts[b] by {
        assert(heads[a].byte_offset < heads[b].byte_offset);
        assert(recs[a].byte_offset == starts[firsts[a] as int]);
        assert(recs[b].byte_offset == starts[firsts[b] as int]);
        if firsts[a] >= firsts[b] {
            if firsts[a] > firsts[b] {
                assert(starts[firsts[b] as int] < starts[firsts[a] as int]);
            }
        }
    }
    if recs.len() > 0 {
        assert(recs[0].byte_offset == starts[0]);
        if firsts[0] > 0 {
            assert(starts[0] < starts[firsts[0] as int]);
        }
    }
    assert forall|k: int| 0 <= k < recs.len() implies (#[trigger] recs[k]).byte_offset + recs[k].byte_len
        <= bytes.len() by {
        let j = choose|j: int| 0 <= j < n && #[trigger] heads[k].byte_offset == starts[j]
            && heads[k].line_offset == sat_u32(j);
        assert(is_line_start(bytes, starts[j] as int));
        if k + 1 < heads.len() {
            assert(heads[k].byte_offset < heads[k + 1].byte_offset);
            let j2 = choose|j2: int| 0 <= j2 < n && #[trigger] heads[k + 1].byte_offset == starts[j2]
                && heads[k + 1].line_offset == sat_u32(j2);
            assert(is_line_start(bytes, starts[j2] as int));
        }
    }
}

impl OpenedFile {
    /// Index `bytes` afresh with `scanner`: line starts, records and their
    /// first lines. No truncate window and no search yet.
    pub fn new<S: RecordScanner>(
        path: String,
        bytes: Vec<u8>,
        scanner: &S,
        pattern_source: String,
        pattern_name: Option<String>,
        loose: bool,
    ) -> (r: OpenedFile)
        ensures
            r.bytes@ == bytes@,
            r.line_offsets@ == line_starts(bytes@),
            r.line_count == line_starts(bytes@).len(),
            r.records@ == spec_scan_records(scanner, line_starts(bytes@), bytes@.len() as u64, bytes@),
            r.record_first_line@ == first_lines_of(r.records@),
            r.path == path,
            r.pattern_source == pattern_source,
            r.pattern_name == pattern_name,
            r.loose == loose,
            r.current_search_id == 0,
            r.truncate_before is None,
            r.truncate_after is None,
            r.line_count <= u32::MAX ==> r.wf(),
    {
        let line_index = LineIndex::build(bytes.as_slice());
        let records = scan_records(scanner, &line_index, bytes.as_slice());
        let line_count = line_index.line_offsets.len() as u64;
        let mut file = OpenedFile {
            path,
            records,
            record_first_line: Vec::new(),
            line_count: 0,
            bytes,
            line_offsets: Vec::new(),
            pattern_source,
            pattern_name,
            loose,
            current_search_id: 0,
            truncate_before: None,
            truncate_after: None,
        };
        file.rebuild_line_caches(line_count, line_index.line_offsets);
        proof {
            if file.line_count <= u32::MAX {
                lemma_scan_shaped(scanner, file.bytes@);
            }
        }
        file
    }

    /// Re-index the file from `bytes`, its whole content after a rotation.
    /// Returns `(line_count, record_count, size)`.
    pub fn reindex<S: RecordScanner>(&mut self, scanner: &S, bytes: Vec<u8>) -> (r: (u64, u64, u64))
        ensures
            final(self).bytes@ == bytes@,
            final(self).line_offsets@ == line_starts(bytes@),
            final(self).line_count == line_starts(bytes@).len(),
            final(self).records@ == spec_scan_records(
                scanner,
                line_starts(bytes@),
                bytes@.len() as u64,
                bytes@,
            ),
            final(self).record_first_line@ == first_lines_of(final(self).records@),
            r == (final(self).line_count, final(self).records@.len() as u64, bytes@.len() as u64),
            final(self).path == old(self).path,
            final(self).pattern_source == old(self).pattern_source,
            final(self).pattern_name == old(self).pattern_name,
            final(self).loose == old(self).loose,
            final(self).current_search_id == old(self).current_search_id,
            final(self).truncate_before == old(self).truncate_before,
            final(self).truncate_after == old(self).truncate_after,
            final(self).line_count <= u32::MAX ==> final(self).wf(),
    {
        let line_index = LineIndex::build(bytes.as_slice());
        let records = scan_records(scanner, &line_index, bytes.as_slice());
        let line_count = line_index.line_offsets.len() as u64;
        let record_count = records.len() as u64;
        let size = bytes.len() as u64;
        self.records = records;
        self.bytes = bytes;
        self.rebuild_line_caches(line_count, line_index.line_offsets);
        proof {
            if self.line_count <= u32::MAX {
                lemma_scan_shaped(scanner, self.bytes@);
            }
        }
        (line_count, record_count, size)
    }
}

/// What a tail tick tells the UI.
#[derive(Debug, Clone, Copy, PartialEq, Eq, Structural)]
pub struct TailDelta {
    /// Records opened by this tick.
    pub new_record_count: u64,
    pub line_count: u64,
    pub record_count: u64,
    /// Byte length of the file as now held.
    pub last_offset: u64,
    /// The file was rotated and re-indexed from scratch.
    pub rotated: bool,
}

/// Fold appended bytes into `file` (see `extend_with_appended`) and report
/// the resulting counts.
pub fn apply_appended<S: RecordScanner>(
    file: &mut OpenedFile,
    scanner: &S,
    from_offset: u64,
    appended: &[u8],
) -> (d: TailDelta)
    requires
        old(file).wf(),
        from_offset == old(file).bytes@.len(),
    ensures
        final(file).bytes@ == old(file).bytes@ + appended@,
        final(file).line_offsets@ == line_starts(final(file).bytes@),
        final(file).records@ == appended_records(
            scanner,
            old(file).records@,
            final(file).bytes@,
            old(file).line_offsets@.len(),
        ),
        final(file).line_count <= u32::MAX ==> final(file).wf(),
        d == (TailDelta {
            new_record_count: (final(file).records@.len() - old(file).records@.len()) as u64,
            line_count: final(file).line_count,
            record_count: final(file).records@.len() as u64,
            last_offset: final(file).bytes@.len() as u64,
            rotated: false,
        }),
{
    let prev_records = file.records.len();
    extend_with_appended(file, scanner, from_offset, appended);
    let new_record_count = (file.records.len() - prev_records) as u64;
    TailDelta {
        new_record_count,
        line_count: file.line_count,
        record_count: file.records.len() as u64,
        last_offset: file.bytes.len() as u64,
        rotated: false,
    }
}


/// The characters `String::from_utf8_lossy` makes of `bytes`: each invalid
/// sequence becomes U+FFFD.
pub uninterp spec fn utf8_lossy(bytes: Seq<u8>) -> Seq<char>;

/// `String::from_utf8_lossy(bytes).into_owned()`. Claimed: the result holds
/// the characters `utf8_lossy` names, and exactly the decoded characters
/// when `bytes` is valid UTF-8 (std documents that valid input is returned
/// unchanged).
#[verifier::external_body]
pub(crate) fn lossy_string(bytes: &[u8]) -> (r: String)
    ensures
        r@ == utf8_lossy(bytes@),
        valid_utf8(bytes@) ==> r@ == decode_utf8(bytes@),
{
    String::from_utf8_lossy(bytes).into_owned()
}

/// The largest character boundary of `bytes` at or below `c` (0 at worst).
pub open spec fn boundary_at_or_below(bytes: Seq<u8>, c: int) -> int
    decreases c,
{
    if c <= 0 {
        0
    } else if is_char_boundary(bytes, c) {
        c
    } else {
        boundary_at_or_below(bytes, c - 1)
    }
}

/// How many leading bytes of `bytes` are kept under an optional cap: all of
/// them when they fit, else as many as end on a character boundary.
pub open spec fn capped_len(bytes: Seq<u8>, cap: Option<usize>) -> int {
    match cap {
        Some(c) => if bytes.len() <= c {
            bytes.len() as int
        } else {
            boundary_at_or_below(bytes, c as int)
        },
        None => bytes.len() as int,
    }
}

/// Cut `text` to at most `cap` bytes on a UTF-8 character boundary, leaving
/// shorter text untouched.
pub fn cap_line_text(text: String, cap: usize) -> (r: String)
    ensures
        encode_utf8(r@) == encode_utf8(text@).take(capped_len(encode_utf8(text@), Some(cap))),
{
    let s = text.as_str();
    let len = s.as_bytes().len();
    proof {
        assert(s.spec_bytes() == encode_utf8(text@));
    }
    if len <= cap {
        proof {
            assert(encode_utf8(text@).take(encode_utf8(text@).len() as int) =~= encode_utf8(text@));
        }
        return text;
    }
    let ghost b = s.spec_bytes();
    proof {
        broadcast use vstd::utf8::encode_utf8_valid_utf8;
    }
    let mut cut = cap;
    while cut > 0 && !s.is_char_boundary(cut)
        invariant
            b == s.spec_bytes(),
            valid_utf8(b),
            cut <= cap < b.len(),
            boundary_at_or_below(b, cap as int) == boundary_at_or_below(b, cut as int),
        decreases cut,
    {
        cut -= 1;
    }
    let (head, _) = s.split_at(cut);
    let r = head.to_owned();
    proof {
        assert(encode_utf8(r@) == head.spec_bytes());
        assert(b.subrange(0, cut as int) =~= b.take(cut as int));
    }
    r
}

/// Bytes of one physical line shipped to the UI per page.
pub open spec fn spec_line_text_cap() -> usize {
    4096
}

/// Bytes of one physical line shipped to the UI per page; longer lines are
/// cut for transport and fetched in windows.
pub fn line_text_cap() -> (r: usize)
    ensures
        r == spec_line_text_cap(),
{
    4096
}

/// The last record whose first line is at or before line `l` (record 0 when
/// none is).
pub open spec fn record_of_line(firsts: Seq<u64>, l: u64) -> int
    decreases firsts.len(),
{
    if firsts.len() == 0 {
        0
    } else if firsts.last() <= l {
        firsts.len() - 1
    } else {
        record_of_line(firsts.drop_last(), l)
    }
}

proof fn lemma_record_of_line(firsts: Seq<u64>, l: u64, k: int)
    requires
        forall|a: int, b: int| 0 <= a < b < firsts.len() ==> firsts[a] < firsts[b],
        0 <= k < firsts.len(),
        firsts[k] <= l,
        k + 1 == firsts.len() || firsts[k + 1] > l,
    ensures
        record_of_line(firsts, l) == k,
    decreases firsts.len(),
{
    if k + 1 < firsts.len() {
        assert(firsts[k + 1] <= firsts.last());
        let rest = firsts.drop_last();
        lemma_record_of_line(rest, l, k);
    }
}

/// One physical line as shown by the UI.
#[derive(Debug, Clone)]
pub struct LinePayload {
    pub record_idx: u64,
    pub line_within_record: u32,
    /// Offset of the line's first byte from its record's first byte.
    pub byte_offset_in_record: u32,
    pub level: Level,
    /// The header's field spans, on a record's first line only.
    pub fields: Option<HeaderFields>,
    /// Byte length of the whole line's text.
    pub full_len: u64,
    /// `text` was cut to fit the transport cap.
    pub truncated: bool,
    pub text: String,
}

/// A page of consecutive physical lines.
#[derive(Debug, Clone)]
pub struct LinesPayload {
    pub start_line: u64,
    pub lines: Vec<LinePayload>,
}

/// Why a viewer request was refused.
#[derive(Debug, Clone, Copy, PartialEq, Eq, Structural)]
pub enum ViewError {
    /// The requested lines are not all in the file, or the range is empty.
    OutOfRange,
}

/// `p` is what the UI is sent for line `l` of `file` under `cap`.
pub open spec fn line_payload_matches(
    p: LinePayload,
    file: OpenedFile,
    l: int,
    cap: Option<usize>,
) -> bool {
    let k = record_of_line(file.record_first_line@, l as u64);
    let rec = file.records@[k];
    let within = l - rec.line_offset;
    let full = encode_utf8(utf8_lossy(line_text(file.bytes@, file.line_offsets@, l)));
    let shown = full.take(capped_len(full, cap));
    &&& p.record_idx == k
    &&& p.line_within_record == if within <= u32::MAX {
        within as u32
    } else {
        0u32
    }
    &&& p.byte_offset_in_record == sat_u32(file.line_offsets@[l] - rec.byte_offset)
    &&& p.level == rec.level
    &&& p.fields == if p.line_within_record == 0 {
        Some(rec.fields)
    } else {
        None
    }
    &&& p.full_len == full.len()
    &&& encode_utf8(p.text@) == shown
    &&& p.truncated == (shown.len() < full.len())
}

/// The page of lines `start..end` of `file`, each line's text cut to `cap`
/// bytes (`None`: whole lines). The range must be non-empty and inside the
/// file.
pub fn build_lines_payload_capped(
    file: &OpenedFile,
    start: u64,
    end: u64,
    cap: Option<usize>,
) -> (r: Result<LinesPayload, ViewError>)
    requires
        file.wf(),
    ensures
        r is Err <==> (start >= file.line_count || end > file.line_count || start >= end),
        r matches Err(e) ==> e == ViewError::OutOfRange,
        r matches Ok(p) ==> {
            &&& p.start_line == start
            &&& p.lines@.len() == end - start
            &&& forall|i: int|
                0 <= i < p.lines@.len() ==> line_payload_matches(
                    #[trigger] p.lines@[i],
                    *file,
                    start + i,
                    cap,
                )
        },
{
    let total = file.line_count;
    if start >= total || end > total || start >= end {
        return Err(ViewError::OutOfRange);
    }
    let ghost firsts = file.record_first_line@;
    let ghost starts = file.line_offsets@;
    let blen = file.bytes.len();
    proof {
        lemma_line_starts(file.bytes@);
    }
    let nrec = file.records.len();
    // The records opening at or before `start`: a binary search.
    let mut lo: usize = 0;
    let mut hi: usize = nrec;
    while lo < hi
        invariant
            hi <= nrec == firsts.len(),
            firsts == file.record_first_line@,
            file.wf(),
            lo <= hi,
            forall|a: int| 0 <= a < lo ==> firsts[a] <= start,
            forall|a: int| hi <= a < nrec ==> firsts[a] > start,
        decreases hi - lo,
    {
        let mid = lo + (hi - lo) / 2;
        if file.record_first_line[mid] <= start {
            proof {
                assert forall|a: int| 0 <= a <= mid implies firsts[a] <= start by {
                    if a < mid {
                        assert(firsts[a] < firsts[mid as int]);
                    }
                }
            }
            lo = mid + 1;
        } else {
            proof {
                assert forall|a: int| mid <= a < nrec implies firsts[a] > start by {
                    if a > mid {
                        assert(firsts[mid as int] < firsts[a]);
                    }
                }
            }
            hi = mid;
        }
    }
    let mut rec_idx: usize = if lo > 0 {
        lo - 1
    } else {
        0
    };
    let mut lines: Vec<LinePayload> = Vec::new();
    let mut line_idx = start;
    while line_idx < end
        invariant
            file.wf(),
            firsts == file.record_first_line@,
            starts == file.line_offsets@,
            nrec == firsts.len() == file.records@.len(),
            blen == file.bytes@.len(),
            0 < nrec,
            start <= line_idx <= end <= file.line_count,
            rec_idx < nrec,
            firsts[rec_idx as int] <= line_idx,
            forall|a: int, b: int| 0 <= a < b < starts.len() ==> starts[a] < starts[b],
            forall|a: int| 0 <= a < starts.len() ==> is_line_start(file.bytes@, #[trigger] starts[a] as int),
            lines@.len() == line_idx - start,
            forall|i: int|
                0 <= i < lines@.len() ==> line_payload_matches(#[trigger] lines@[i], *file, start + i, cap),
        decreases end - line_idx,
    {
        while rec_idx + 1 < nrec && file.record_first_line[rec_idx + 1] <= line_idx
            invariant
                file.wf(),
                firsts == file.record_first_line@,
                nrec == firsts.len(),
                rec_idx < nrec,
                firsts[rec_idx as int] <= line_idx,
            decreases nrec - rec_idx,
        {
            rec_idx += 1;
        }
        proof {
            lemma_record_of_line(firsts, line_idx, rec_idx as int);
        }
        let rec = file.records[rec_idx];
        let li = line_idx as usize;
        let line_start = file.line_offsets[li];
        let line_end = if li + 1 < file.line_offsets.len() {
            file.line_offsets[li + 1]
        } else {
            blen as u64
        };
        proof {
            assert(is_line_start(file.bytes@, starts[li as int] as int));
            if li + 1 < starts.len() {
                assert(starts[li as int] < starts[li + 1]);
                assert(is_line_start(file.bytes@, starts[li + 1] as int));
            }
            assert(rec.byte_offset == starts[firsts[rec_idx as int] as int]);
            if firsts[rec_idx as int] < line_idx {
                assert(starts[firsts[rec_idx as int] as int] < starts[li as int]);
            }
        }
        let raw = &file.bytes.as_slice()[line_start as usize..line_end as usize];
        let stripped = strip_eol(raw);
        let text = lossy_string(stripped);
        let full_len = text.as_str().as_bytes().len() as u64;
        let text = match cap {
            Some(c) => cap_line_text(text, c),
            None => text,
        };
        let shown_len = text.as_str().as_bytes().len() as u64;
        let truncated = shown_len < full_len;
        let within = line_idx - rec.line_offset as u64;
        let line_within_record: u32 = if within <= 0xFFFF_FFFF {
            within as u32
        } else {
            0
        };
        let fields = if line_within_record == 0 {
            Some(rec.fields)
        } else {
            None
        };
        let off = line_start - rec.byte_offset;
        let byte_offset_in_record: u32 = if off <= 0xFFFF_FFFF {
            off as u32
        } else {
            u32::MAX
        };
        let ghost full_bytes = encode_utf8(utf8_lossy(line_text(file.bytes@, starts, li as int)));
        proof {
            assert(stripped@ == line_text(file.bytes@, starts, li as int));
            if cap is None {
                assert(full_bytes.take(full_bytes.len() as int) =~= full_bytes);
            }
        }
        let item = LinePayload {
            record_idx: rec_idx as u64,
            line_within_record,
            byte_offset_in_record,
            level: rec.level,
            fields,
            full_len,
            truncated,
            text,
        };
        proof {
            let k = record_of_line(file.record_first_line@, line_idx as u64);
            assert(k == rec_idx);
            assert(item.full_len == full_bytes.len());
            assert(encode_utf8(item.text@) == full_bytes.take(capped_len(full_bytes, cap)));
            assert(item.line_within_record == if within <= u32::MAX { within as u32 } else { 0u32 });
            assert(line_payload_matches(item, *file, line_idx as int, cap));
        }
        lines.push(item);
        line_idx += 1;
    }
    Ok(LinesPayload { start_line: start, lines })
}

/// The page of lines `start..end` with every line cut to the transport cap.
pub fn build_lines_payload(file: &OpenedFile, start: u64, end: u64) -> (r: Result<LinesPayload, ViewError>)
    requires
        file.wf(),
    ensures
        r is Err <==> (start >= file.line_count || end > file.line_count || start >= end),
        r matches Ok(p) ==> {
            &&& p.start_line == start
            &&& p.lines@.len() == end - start
            &&& forall|i: int|
                0 <= i < p.lines@.len() ==> line_payload_matches(
                    #[trigger] p.lines@[i],
                    *file,
                    start + i,
                    Some(spec_line_text_cap()),
                )
        },
{
    build_lines_payload_capped(file, start, end, Some(line_text_cap()))
}


/// A bounded slice of one physical line.
#[derive(Debug, Clone)]
pub struct LineWindowPayload {
    /// Offset within the line where `text` begins.
    pub start: u64,
    /// Byte length of the whole line (end-of-line bytes stripped).
    pub full_len: u64,
    pub text: String,
}

/// `x` as a `usize`, or `default` where it does not fit.
pub open spec fn usize_or(x: u64, default: usize) -> usize {
    if x <= usize::MAX {
        x as usize
    } else {
        default
    }
}

/// The window `[lo, hi)` of a line of `len` bytes around `center`, `radius`
/// bytes each way, clamped to the line.
pub open spec fn line_window(len: int, center: u64, radius: u64) -> (int, int) {
    let c = if usize_or(center, 0) < len {
        usize_or(center, 0) as int
    } else {
        len
    };
    let r = usize_or(radius, 0) as int;
    let lo = if c >= r {
        c - r
    } else {
        0
    };
    let up = if c + r <= usize::MAX {
        c + r
    } else {
        usize::MAX as int
    };
    (lo, if up < len {
        up
    } else {
        len
    })
}

/// The slice of physical line `line_index` of `file` centred on byte
/// `center` of the line, reaching `radius` bytes each way.
pub fn build_line_window(file: &OpenedFile, line_index: u64, center: u64, radius: u64) -> (r: Result<
    LineWindowPayload,
    ViewError,
>)
    requires
        file.wf(),
    ensures
        r is Err <==> line_index >= file.line_count,
        r matches Err(e) ==> e == ViewError::OutOfRange,
        r matches Ok(p) ==> {
            let line = line_text(file.bytes@, file.line_offsets@, line_index as int);
            let w = line_window(line.len() as int, center, radius);
            &&& p.start == w.0
            &&& p.full_len == line.len()
            &&& p.text@ == utf8_lossy(line.subrange(w.0, w.1))
        },
{
    if line_index >= file.line_count {
        return Err(ViewError::OutOfRange);
    }
    let blen = file.bytes.len();
    proof {
        lemma_line_starts(file.bytes@);
    }
    let ghost starts = file.line_offsets@;
    let li = line_index as usize;
    let line_start = file.line_offsets[li];
    let line_end = if li + 1 < file.line_offsets.len() {
        file.line_offsets[li + 1]
    } else {
        blen as u64
    };
    proof {
        assert(is_line_start(file.bytes@, starts[li as int] as int));
        if li + 1 < starts.len() {
            assert(starts[li as int] < starts[li + 1]);
            assert(is_line_start(file.bytes@, starts[li + 1] as int));
        }
    }
    let raw = &file.bytes.as_slice()[line_start as usize..line_end as usize];
    let line = strip_eol(raw);
    let line_len = line.len();
    let c0: usize = if center <= usize::MAX as u64 {
        center as usize
    } else {
        0
    };
    let c = if c0 < line_len {
        c0
    } else {
        line_len
    };
    let rad: usize = if radius <= usize::MAX as u64 {
        radius as usize
    } else {
        0
    };
    let win_start = c.saturating_sub(rad);
    let up = c.saturating_add(rad);
    let win_end = if up < line_len {
        up
    } else {
        line_len
    };
    let text = lossy_string(&line[win_start..win_end]);
    proof {
        assert(line@ == line_text(file.bytes@, starts, li as int));
    }
    Ok(LineWindowPayload { start: win_start as u64, full_len: line_len as u64, text })
}

} // verus!
