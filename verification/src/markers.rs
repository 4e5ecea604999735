//! Event markers: records whose first line carries a known banner (a site
//! restart, say), flagged for the viewport's rail.

use vstd::prelude::*;
use crate::bytes::{contains, bytes_contain};
use crate::record::{RecordHeader, sat_u32};

verus! {

/// Kind of event a marker flags.
#[derive(Debug, Clone, Copy, PartialEq, Eq, Structural)]
pub enum MarkerKind {
    /// Site restart.
    Restart,
}

/// A record is flagged with `kind` when its first line contains `needle`
/// (case-sensitive).
#[derive(Debug, Clone)]
pub struct MarkerRule {
    pub kind: MarkerKind,
    pub needle: Vec<u8>,
}

/// One flagged record.
#[derive(Debug, Clone, Copy, PartialEq, Eq, Structural)]
pub struct MarkerRef {
    pub kind: MarkerKind,
    /// Physical line of the marker (the record's first line).
    pub line_index: u64,
    /// Index of the record.
    pub record_idx: u32,
}

/// The bytes of `Core Plugin Load`.
pub open spec fn lit_core_plugin_load() -> Seq<u8> {
    seq![67u8, 111u8, 114u8, 101u8, 32u8, 80u8, 108u8, 117u8, 103u8, 105u8, 110u8, 32u8, 76u8, 111u8, 97u8, 100u8]
}

pub const LIT_CORE_PLUGIN_LOAD: [u8; 16] = [67u8, 111u8, 114u8, 101u8, 32u8, 80u8, 108u8, 117u8, 103u8, 105u8, 110u8, 32u8, 76u8, 111u8, 97u8, 100u8];

/// A rule as a value: its kind and needle.
pub open spec fn rules_view(rules: Seq<MarkerRule>) -> Seq<(MarkerKind, Seq<u8>)> {
    rules.map_values(|r: MarkerRule| (r.kind, r.needle@))
}

/// The built-in rules, as values: a restart banner.
pub open spec fn spec_builtin_marker_rules() -> Seq<(MarkerKind, Seq<u8>)> {
    seq![(MarkerKind::Restart, lit_core_plugin_load())]
}

/// The built-in rules: a restart banner.
pub fn builtin_marker_rules() -> (r: Vec<MarkerRule>)
    ensures
        rules_view(r@) == spec_builtin_marker_rules(),
{
    let needle = LIT_CORE_PLUGIN_LOAD;
    let mut v: Vec<u8> = Vec::new();
    let mut i: usize = 0;
    while i < 16
        invariant
            i <= 16,
            needle@ == lit_core_plugin_load(),
            v@ == needle@.take(i as int),
        decreases 16 - i,
    {
        v.push(needle[i]);
        proof {
            assert(v@ =~= needle@.take(i + 1));
        }
        i += 1;
    }
    assert(v@ =~= lit_core_plugin_load());
    let mut rules: Vec<MarkerRule> = Vec::new();
    rules.push(MarkerRule { kind: MarkerKind::Restart, needle: v });
    assert(rules_view(rules@) =~= spec_builtin_marker_rules());
    rules
}

/// `x` as a `usize`, `usize::MAX` where it does not fit.
pub open spec fn usize_sat(x: int) -> int {
    if x <= usize::MAX {
        x
    } else {
        usize::MAX as int
    }
}

/// Where the first line of `rec` (line `li`) starts in `bytes`.
pub open spec fn marker_line_start(offs: Seq<u64>, li: int) -> int {
    usize_sat(offs[li] as int)
}

/// Where the first line of `rec` (line `li`) ends: before the next line's
/// `\n`-free start, or at the record's end for the last line, clamped to
/// the bytes and never before the start.
pub open spec fn marker_line_end(rec: RecordHeader, bytes_len: int, offs: Seq<u64>, li: int) -> int {
    let raw = if li + 1 < offs.len() {
        let next = usize_sat(offs[li + 1] as int);
        if next >= 1 {
            next - 1
        } else {
            0
        }
    } else {
        usize_sat(rec.byte_offset + rec.byte_len)
    };
    let clamped = if raw < bytes_len {
        raw
    } else {
        bytes_len
    };
    let start = marker_line_start(offs, li);
    if clamped > start {
        clamped
    } else {
        start
    }
}

/// `rule` fires on `line`.
pub open spec fn rule_fires(rule: (MarkerKind, Seq<u8>), line: Seq<u8>) -> bool {
    rule.1.len() > 0 && rule.1.len() <= line.len() && contains(line, rule.1)
}

/// The kind of the first rule that fires on `line`.
pub open spec fn first_firing(rules: Seq<(MarkerKind, Seq<u8>)>, line: Seq<u8>) -> Option<MarkerKind>
    decreases rules.len(),
{
    if rules.len() == 0 {
        None
    } else if rule_fires(rules[0], line) {
        Some(rules[0].0)
    } else {
        first_firing(rules.drop_first(), line)
    }
}

/// The markers of the first `n` records, in record order.
pub open spec fn markers_upto(
    recs: Seq<RecordHeader>,
    bytes: Seq<u8>,
    offs: Seq<u64>,
    rules: Seq<(MarkerKind, Seq<u8>)>,
    n: nat,
) -> Seq<MarkerRef>
    decreases n,
{
    if n == 0 {
        Seq::empty()
    } else {
        let prev = markers_upto(recs, bytes, offs, rules, (n - 1) as nat);
        let k = n - 1;
        let rec = recs[k];
        let li = rec.line_offset as int;
        if li >= offs.len() {
            prev
        } else {
            let line = bytes.subrange(
                marker_line_start(offs, li),
                marker_line_end(rec, bytes.len() as int, offs, li),
            );
            match first_firing(rules, line) {
                Some(kind) => prev.push(
                    MarkerRef { kind, line_index: rec.line_offset as u64, record_idx: sat_u32(k) },
                ),
                None => prev,
            }
        }
    }
}

/// The first line of every record inside the file can be sliced out.
pub open spec fn marker_lines_in_bounds(recs: Seq<RecordHeader>, bytes: Seq<u8>, offs: Seq<u64>) -> bool {
    forall|k: int|
        0 <= k < recs.len() && (#[trigger] recs[k]).line_offset < offs.len() ==> {
            &&& marker_line_start(offs, recs[k].line_offset as int) <= bytes.len()
            &&& recs[k].line_offset + 1 >= offs.len() ==> recs[k].byte_offset + recs[k].byte_len
                <= u64::MAX
        }
}

/// One marker per record whose first line some rule fires on: the first
/// such rule names its kind. Records whose first line is not in
/// `line_offsets` are skipped.
pub fn scan_markers(
    records: &[RecordHeader],
    bytes: &[u8],
    line_offsets: &[u64],
    rules: &[MarkerRule],
) -> (r: Vec<MarkerRef>)
    requires
        marker_lines_in_bounds(records@, bytes@, line_offsets@),
    ensures
        r@ == markers_upto(records@, bytes@, line_offsets@, rules_view(rules@), records@.len()),
{
    let mut out: Vec<MarkerRef> = Vec::new();
    if rules.len() == 0 {
        proof {
            lemma_no_rules_no_markers(records@, bytes@, line_offsets@, rules_view(rules@), records@.len());
        }
        return out;
    }
    let total_lines = line_offsets.len();
    let mut k: usize = 0;
    while k < records.len()
        invariant
            k <= records@.len(),
            total_lines == line_offsets@.len(),
            marker_lines_in_bounds(records@, bytes@, line_offsets@),
            out@ == markers_upto(records@, bytes@, line_offsets@, rules_view(rules@), k as nat),
        decreases records@.len() - k,
    {
        let rec = records[k];
        let line_idx = rec.line_offset as usize;
        if line_idx < total_lines {
            let ls = line_offsets[line_idx];
            let line_start: usize = if ls <= usize::MAX as u64 {
                ls as usize
            } else {
                usize::MAX
            };
            let line_end_raw: usize = if line_idx + 1 < total_lines {
                let nx = line_offsets[line_idx + 1];
                let next: usize = if nx <= usize::MAX as u64 {
                    nx as usize
                } else {
                    usize::MAX
                };
                next.saturating_sub(1)
            } else {
                let e = rec.byte_offset + rec.byte_len as u64;
                if e <= usize::MAX as u64 {
                    e as usize
                } else {
                    usize::MAX
                }
            };
            let clamped = if line_end_raw < bytes.len() {
                line_end_raw
            } else {
                bytes.len()
            };
            let line_end = if clamped > line_start {
                clamped
            } else {
                line_start
            };
            let line = &bytes[line_start..line_end];
            proof {
                assert(line_start == marker_line_start(line_offsets@, line_idx as int));
                assert(line_end == marker_line_end(rec, bytes@.len() as int, line_offsets@, line_idx as int));
                assert(rules_view(rules@).skip(0) =~= rules_view(rules@));
            }
            let mut j: usize = 0;
            let mut found: Option<MarkerKind> = None;
            while j < rules.len()
                invariant_except_break
                    found is None,
                invariant
                    j <= rules@.len(),
                    first_firing(rules_view(rules@), line@) == first_firing(rules_view(rules@).skip(j as int), line@),
                ensures
                    found == first_firing(rules_view(rules@), line@),
                decreases rules@.len() - j,
            {
                let needle = rules[j].needle.as_slice();
                proof {
                    assert(rules_view(rules@).skip(j as int)[0] == rules_view(rules@)[j as int]);
                    assert(rules_view(rules@).skip(j as int).drop_first() =~= rules_view(rules@).skip(j + 1));
                }
                if needle.len() > 0 && needle.len() <= line.len() && bytes_contain(line, needle) {
                    found = Some(rules[j].kind);
                    break;
                }
                j += 1;
                proof {
                    if j == rules@.len() {
                        assert(rules_view(rules@).skip(j as int).len() == 0);
                    }
                }
            }
            let ghost prev = out@;
            match found {
                Some(kind) => {
                    out.push(
                        MarkerRef {
                            kind,
                            line_index: rec.line_offset as u64,
                            record_idx: if k <= 0xFFFF_FFFF {
                                k as u32
                            } else {
                                u32::MAX
                            },
                        },
                    );
                },
                None => {},
            }
            proof {
                assert(records@[k as int] == rec);
                assert(out@ =~= markers_upto(records@, bytes@, line_offsets@, rules_view(rules@), (k + 1) as nat));
            }
        } else {
            proof {
                assert(records@[k as int] == rec);
            }
        }
        k += 1;
    }
    out
}

proof fn lemma_no_rules_no_markers(
    recs: Seq<RecordHeader>,
    bytes: Seq<u8>,
    offs: Seq<u64>,
    rules: Seq<(MarkerKind, Seq<u8>)>,
    n: nat,
)
    requires
        rules.len() == 0,
    ensures
        markers_upto(recs, bytes, offs, rules, n) == Seq::<MarkerRef>::empty(),
    decreases n,
{
    if n > 0 {
        lemma_no_rules_no_markers(recs, bytes, offs, rules, (n - 1) as nat);
    }
}

} // verus!
