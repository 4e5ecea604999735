//! The level minimap: records mapped onto a fixed number of buckets over the
//! file's lines, with the worst severity and per-level counts of each.

use vstd::prelude::*;
use crate::record::{Level, RecordHeader};
use crate::viewer::OpenedFile;

verus! {

/// Rank of a level in "worst severity wins": warnings and errors beat
/// everything else, however few they are.
pub open spec fn spec_level_rank(l: Level) -> u8 {
    match l {
        Level::Fatal => 7,
        Level::Error => 6,
        Level::Warn => 5,
        Level::Info => 3,
        Level::Debug => 2,
        Level::Trace => 1,
        Level::All => 4,
        Level::Off | Level::Unknown => 0,
    }
}

pub fn level_rank(l: Level) -> (r: u8)
    ensures
        r == spec_level_rank(l),
{
    match l {
        Level::Fatal => 7,
        Level::Error => 6,
        Level::Warn => 5,
        Level::Info => 3,
        Level::Debug => 2,
        Level::Trace => 1,
        Level::All => 4,
        Level::Off | Level::Unknown => 0,
    }
}

/// One minimap bucket.
#[derive(Debug, Clone, Copy, PartialEq, Eq, Structural)]
pub struct BucketStat {
    /// Worst severity among the records touching the bucket.
    pub worst: Level,
    /// Records at ERROR or FATAL touching the bucket.
    pub error: u32,
    /// Records at WARN touching the bucket.
    pub warn: u32,
    /// Records touching the bucket.
    pub total: u32,
}

/// The minimap of a file.
#[derive(Debug, Clone)]
pub struct LevelMinimapPayload {
    /// One stat per bucket, top of the file first.
    pub buckets: Vec<BucketStat>,
    /// The line span the minimap was computed over.
    pub line_count: u64,
    /// Largest `error + warn` over the buckets.
    pub max_error_warn_sum: u32,
    /// Largest `total` over the buckets.
    pub max_total: u32,
}

pub open spec fn empty_bucket() -> BucketStat {
    BucketStat { worst: Level::Unknown, error: 0, warn: 0, total: 0 }
}

/// `x + 1`, saturating.
pub open spec fn sat_inc32(x: u32) -> u32 {
    if x < u32::MAX {
        (x + 1) as u32
    } else {
        x
    }
}

/// `x + y`, saturating.
pub open spec fn sat_add32(x: u32, y: u32) -> u32 {
    if x + y <= u32::MAX {
        (x + y) as u32
    } else {
        u32::MAX
    }
}

/// `s` after one more record at level `l` touches it.
pub open spec fn bump(s: BucketStat, l: Level) -> BucketStat {
    BucketStat {
        worst: if spec_level_rank(l) > spec_level_rank(s.worst) {
            l
        } else {
            s.worst
        },
        error: if l == Level::Error || l == Level::Fatal {
            sat_inc32(s.error)
        } else {
            s.error
        },
        warn: if l == Level::Warn {
            sat_inc32(s.warn)
        } else {
            s.warn
        },
        total: sat_inc32(s.total),
    }
}

/// `a * b`, saturating at `u64::MAX`.
pub open spec fn mul_sat(a: u64, b: u64) -> u64 {
    if a * b <= u64::MAX {
        (a * b) as u64
    } else {
        u64::MAX
    }
}

/// Bucket of line `line` among `bc` buckets over `lc` lines (`bc - 1` when
/// the quotient does not fit a `usize`).
pub open spec fn bucket_of(line: u64, lc: u64, bc: usize) -> int {
    let q = mul_sat(line, bc as u64) / lc;
    if q <= usize::MAX {
        q as int
    } else {
        bc - 1
    }
}

/// Last line of `rec` (a record spans at least one line).
pub open spec fn last_line_of(rec: RecordHeader) -> u64 {
    (rec.line_offset + (if rec.line_count >= 1 {
        rec.line_count
    } else {
        1u32
    }) - 1) as u64
}

/// First bucket `rec` touches.
pub open spec fn first_bucket(rec: RecordHeader, lc: u64, bc: usize) -> int {
    bucket_of(rec.line_offset as u64, lc, bc)
}

/// Last bucket `rec` touches, clamped to the last bucket.
pub open spec fn last_bucket(rec: RecordHeader, lc: u64, bc: usize) -> int {
    let b = bucket_of(last_line_of(rec), lc, bc);
    if b < bc - 1 {
        b
    } else {
        bc - 1
    }
}

/// Bucket `b` after every record of `recs`, in order, that touches it.
pub open spec fn bucket_after(recs: Seq<RecordHeader>, lc: u64, bc: usize, b: int) -> BucketStat
    decreases recs.len(),
{
    if recs.len() == 0 {
        empty_bucket()
    } else {
        let prev = bucket_after(recs.drop_last(), lc, bc, b);
        if first_bucket(recs.last(), lc, bc) <= b <= last_bucket(recs.last(), lc, bc) {
            bump(prev, recs.last().level)
        } else {
            prev
        }
    }
}

/// Largest `error + warn` (saturating) over `buckets`, 0 when empty.
pub open spec fn max_heat(buckets: Seq<BucketStat>) -> u32
    decreases buckets.len(),
{
    if buckets.len() == 0 {
        0
    } else {
        let prev = max_heat(buckets.drop_last());
        let h = sat_add32(buckets.last().error, buckets.last().warn);
        if h > prev {
            h
        } else {
            prev
        }
    }
}

/// Largest `total` over `buckets`, 0 when empty.
pub open spec fn max_total_of(buckets: Seq<BucketStat>) -> u32
    decreases buckets.len(),
{
    if buckets.len() == 0 {
        0
    } else {
        let prev = max_total_of(buckets.drop_last());
        if buckets.last().total > prev {
            buckets.last().total
        } else {
            prev
        }
    }
}

/// The bucket count actually used: at least one.
pub open spec fn clamp_buckets(bucket_count: usize) -> usize {
    if bucket_count >= 1 {
        bucket_count
    } else {
        1
    }
}

fn bucket_of_exec(line: u64, lc: u64, bc: usize) -> (r: usize)
    requires
        lc > 0,
        bc >= 1,
    ensures
        r == bucket_of(line, lc, bc),
{
    let prod = match line.checked_mul(bc as u64) {
        Some(p) => p,
        None => u64::MAX,
    };
    let q = prod / lc;
    if q <= usize::MAX as u64 {
        q as usize
    } else {
        bc - 1
    }
}

/// `r` is the minimap of `records` over `line_count` lines with
/// `bucket_count` buckets (at least one).
pub open spec fn minimap_of(
    r: LevelMinimapPayload,
    records: Seq<RecordHeader>,
    line_count: u64,
    bucket_count: usize,
) -> bool {
    &&& r.buckets@.len() == clamp_buckets(bucket_count)
    &&& r.line_count == line_count
    &&& forall|b: int|
        0 <= b < r.buckets@.len() ==> #[trigger] r.buckets@[b] == if line_count == 0 {
            empty_bucket()
        } else {
            bucket_after(records, line_count, clamp_buckets(bucket_count), b)
        }
    &&& r.max_error_warn_sum == max_heat(r.buckets@)
    &&& r.max_total == max_total_of(r.buckets@)
}

/// Map each record's line span onto `bucket_count` buckets (at least one)
/// over `line_count` lines and roll up every bucket: the worst level (the
/// first record of the highest rank wins), and how many touching records
/// are errors, warnings and in all. An empty file or record list gives
/// all-empty buckets.
pub fn build_level_minimap_payload(
    records: &[RecordHeader],
    line_count: u64,
    bucket_count: usize,
) -> (r: LevelMinimapPayload)
    requires
        line_count > 0 ==> forall|k: int|
            0 <= k < records@.len() ==> first_bucket(
                #[trigger] records@[k],
                line_count,
                clamp_buckets(bucket_count),
            ) <= last_bucket(records@[k], line_count, clamp_buckets(bucket_count)) + 1,
    ensures
        minimap_of(r, records@, line_count, bucket_count),
{
    let bc: usize = if bucket_count >= 1 {
        bucket_count
    } else {
        1
    };
    let empty = BucketStat { worst: Level::Unknown, error: 0, warn: 0, total: 0 };
    let mut buckets: Vec<BucketStat> = Vec::new();
    let mut i: usize = 0;
    while i < bc
        invariant
            empty == empty_bucket(),
            i <= bc,
            buckets@.len() == i,
            forall|b: int| 0 <= b < i ==> #[trigger] buckets@[b] == empty_bucket(),
        decreases bc - i,
    {
        buckets.push(empty);
        i += 1;
    }
    if line_count == 0 || records.len() == 0 {
        proof {
            assert forall|b: int| 0 <= b < buckets@.len() implies #[trigger] buckets@[b] == if line_count
                == 0 {
                empty_bucket()
            } else {
                bucket_after(records@, line_count, bc, b)
            } by {}
            lemma_max_of_empty_buckets(buckets@);
        }
        return LevelMinimapPayload { buckets, line_count, max_error_warn_sum: 0, max_total: 0 };
    }
    let lc = line_count;
    let mut k: usize = 0;
    while k < records.len()
        invariant
            bc == clamp_buckets(bucket_count),
            lc == line_count,
            lc > 0,
            buckets@.len() == bc,
            k <= records@.len(),
            forall|j: int|
                0 <= j < records@.len() ==> first_bucket(#[trigger] records@[j], lc, bc) <= last_bucket(
                    records@[j],
                    lc,
                    bc,
                ) + 1,
            forall|b: int|
                0 <= b < bc ==> #[trigger] buckets@[b] == bucket_after(records@.take(k as int), lc, bc, b),
        decreases records@.len() - k,
    {
        let rec = records[k];
        let first_line = rec.line_offset as u64;
        let span: u32 = if rec.line_count >= 1 {
            rec.line_count
        } else {
            1
        };
        let last_line = first_line + span as u64 - 1;
        let first_b = bucket_of_exec(first_line, lc, bc);
        let lb = bucket_of_exec(last_line, lc, bc);
        let last_b = if lb < bc - 1 {
            lb
        } else {
            bc - 1
        };
        proof {
            assert(records@[k as int] == rec);
            assert(last_line == last_line_of(rec));
            assert(records@.take(k + 1).drop_last() =~= records@.take(k as int));
            assert(records@.take(k + 1).last() == rec);
        }
        let ghost before = buckets@;
        let rank = level_rank(rec.level);
        let mut b = first_b;
        while b <= last_b
            invariant
                bc >= 1,
                buckets@.len() == bc,
                last_b < bc,
                first_b <= b <= last_b + 1,
                before.len() == bc,
                rank == spec_level_rank(rec.level),
                forall|x: int|
                    0 <= x < bc ==> #[trigger] buckets@[x] == if first_b <= x < b {
                        bump(before[x], rec.level)
                    } else {
                        before[x]
                    },
            decreases last_b + 1 - b,
        {
            let cur = buckets[b];
            let worst = if rank > level_rank(cur.worst) {
                rec.level
            } else {
                cur.worst
            };
            let error = match rec.level {
                Level::Error | Level::Fatal => cur.error.saturating_add(1),
                _ => cur.error,
            };
            let warn = match rec.level {
                Level::Warn => cur.warn.saturating_add(1),
                _ => cur.warn,
            };
            let total = cur.total.saturating_add(1);
            buckets.set(b, BucketStat { worst, error, warn, total });
            b += 1;
        }
        proof {
            assert forall|x: int| 0 <= x < bc implies #[trigger] buckets@[x] == bucket_after(
                records@.take(k + 1),
                lc,
                bc,
                x,
            ) by {
                assert(bucket_after(records@.take(k + 1), lc, bc, x) == if first_bucket(rec, lc, bc) <= x
                    <= last_bucket(rec, lc, bc) {
                    bump(before[x], rec.level)
                } else {
                    before[x]
                });
            }
        }
        k += 1;
    }
    assert(records@.take(records@.len() as int) =~= records@);
    let mut heat_max: u32 = 0;
    let mut total_max: u32 = 0;
    let mut j: usize = 0;
    while j < bc
        invariant
            buckets@.len() == bc,
            j <= bc,
            heat_max == max_heat(buckets@.take(j as int)),
            total_max == max_total_of(buckets@.take(j as int)),
        decreases bc - j,
    {
        let bs = buckets[j];
        let heat = bs.error.saturating_add(bs.warn);
        proof {
            assert(buckets@.take(j + 1).drop_last() =~= buckets@.take(j as int));
            assert(buckets@.take(j + 1).last() == bs);
        }
        if heat > heat_max {
            heat_max = heat;
        }
        if bs.total > total_max {
            total_max = bs.total;
        }
        j += 1;
    }
    assert(buckets@.take(bc as int) =~= buckets@);
    LevelMinimapPayload { buckets, line_count, max_error_warn_sum: heat_max, max_total: total_max }
}

/// The minimap's severity order: trace < debug < info < all < warn < error
/// < fatal, with `off` and unknown levels below everything.
pub proof fn law_minimap_severity_order()
    ensures
        spec_level_rank(Level::Off) < spec_level_rank(Level::Trace),
        spec_level_rank(Level::Unknown) < spec_level_rank(Level::Trace),
        spec_level_rank(Level::Trace) < spec_level_rank(Level::Debug),
        spec_level_rank(Level::Debug) < spec_level_rank(Level::Info),
        spec_level_rank(Level::Info) < spec_level_rank(Level::All),
        spec_level_rank(Level::All) < spec_level_rank(Level::Warn),
        spec_level_rank(Level::Warn) < spec_level_rank(Level::Error),
        spec_level_rank(Level::Error) < spec_level_rank(Level::Fatal),
{
}

/// A bucket's worst level is the most severe level among the records that
/// touch it: no touching record is more severe, and unless no record
/// touches it (unknown), some touching record has exactly that level. So a
/// bucket touched by a warning and by any number of info lines reads warn.
pub proof fn law_bucket_worst_is_most_severe(records: Seq<RecordHeader>, lc: u64, bc: usize, b: int)
    ensures
        forall|k: int|
            0 <= k < records.len() && first_bucket(records[k], lc, bc) <= b <= last_bucket(records[k], lc, bc)
                ==> spec_level_rank(#[trigger] records[k].level) <= spec_level_rank(
                bucket_after(records, lc, bc, b).worst,
            ),
        bucket_after(records, lc, bc, b).worst == Level::Unknown || exists|k: int|
            0 <= k < records.len() && first_bucket(records[k], lc, bc) <= b <= last_bucket(records[k], lc, bc)
                && #[trigger] records[k].level == bucket_after(records, lc, bc, b).worst,
    decreases records.len(),
{
    if records.len() > 0 {
        let init = records.drop_last();
        law_bucket_worst_is_most_severe(init, lc, bc, b);
        let prev = bucket_after(init, lc, bc, b);
        let cur = bucket_after(records, lc, bc, b);
        let n = records.len() - 1;
        assert(records.last() == records[n]);
        assert(spec_level_rank(prev.worst) <= spec_level_rank(cur.worst));
        assert forall|k: int|
            0 <= k < records.len() && first_bucket(records[k], lc, bc) <= b <= last_bucket(records[k], lc, bc)
                implies spec_level_rank(#[trigger] records[k].level) <= spec_level_rank(cur.worst) by {
            if k < n {
                assert(records[k] == init[k]);
            }
        }
        if cur.worst != Level::Unknown {
            if cur.worst == records[n].level && first_bucket(records[n], lc, bc) <= b <= last_bucket(records[n], lc, bc) {
            } else {
                assert(cur.worst == prev.worst);
                let k = choose|k: int|
                    0 <= k < init.len() && first_bucket(init[k], lc, bc) <= b <= last_bucket(init[k], lc, bc)
                        && #[trigger] init[k].level == prev.worst;
                assert(records[k] == init[k]);
            }
        }
    }
}

/// `n`, capped at `u32::MAX`.
pub open spec fn cap32(n: nat) -> u32 {
    if n <= u32::MAX {
        n as u32
    } else {
        u32::MAX
    }
}

/// A bucket counts the records that touch it: `total` all of them,
/// `error` those at error or fatal level, `warn` those at warn level, each
/// capped at `u32::MAX`.
pub proof fn law_bucket_counts(records: Seq<RecordHeader>, lc: u64, bc: usize, b: int)
    ensures
        bucket_after(records, lc, bc, b).total == cap32(
            records.filter(|r: RecordHeader| first_bucket(r, lc, bc) <= b <= last_bucket(r, lc, bc)).len(),
        ),
        bucket_after(records, lc, bc, b).error == cap32(
            records.filter(
                |r: RecordHeader|
                    first_bucket(r, lc, bc) <= b <= last_bucket(r, lc, bc) && (r.level == Level::Error || r.level
                        == Level::Fatal),
            ).len(),
        ),
        bucket_after(records, lc, bc, b).warn == cap32(
            records.filter(
                |r: RecordHeader| first_bucket(r, lc, bc) <= b <= last_bucket(r, lc, bc) && r.level == Level::Warn,
            ).len(),
        ),
    decreases records.len(),
{
    reveal(Seq::filter);
    if records.len() > 0 {
        law_bucket_counts(records.drop_last(), lc, bc, b);
    }
}

proof fn lemma_max_of_empty_buckets(buckets: Seq<BucketStat>)
    requires
        forall|b: int| 0 <= b < buckets.len() ==> #[trigger] buckets[b] == empty_bucket(),
    ensures
        max_heat(buckets) == 0,
        max_total_of(buckets) == 0,
    decreases buckets.len(),
{
    if buckets.len() > 0 {
        lemma_max_of_empty_buckets(buckets.drop_last());
    }
}

/// The records whose first line lies in `[lo, hi)`, renumbered so the
/// window's first line is line 0.
pub open spec fn windowed_records(recs: Seq<RecordHeader>, lo: u64, hi: u64) -> Seq<RecordHeader>
    decreases recs.len(),
{
    if recs.len() == 0 {
        Seq::empty()
    } else {
        let prev = windowed_records(recs.drop_last(), lo, hi);
        let r = recs.last();
        if lo <= r.line_offset && r.line_offset < hi {
            prev.push(RecordHeader { line_offset: (r.line_offset - lo) as u32, ..r })
        } else {
            prev
        }
    }
}

/// Keep the records inside the window `[lo, hi)`, renumbering their first
/// lines relative to `lo`.
pub fn window_records(records: &[RecordHeader], lo: u64, hi: u64) -> (r: Vec<RecordHeader>)
    ensures
        r@ == windowed_records(records@, lo, hi),
{
    let mut out: Vec<RecordHeader> = Vec::new();
    let mut k: usize = 0;
    while k < records.len()
        invariant
            k <= records@.len(),
            out@ == windowed_records(records@.take(k as int), lo, hi),
        decreases records@.len() - k,
    {
        let r = records[k];
        proof {
            assert(records@.take(k + 1).drop_last() =~= records@.take(k as int));
            assert(records@.take(k + 1).last() == r);
        }
        let f = r.line_offset as u64;
        if f >= lo && f < hi {
            out.push(RecordHeader { line_offset: (f - lo) as u32, ..r });
        }
        k += 1;
    }
    assert(records@.take(records@.len() as int) =~= records@);
    out
}


/// A record that starts inside the `lc` lines never starts past the last
/// of at most `u32::MAX` buckets.
proof fn lemma_bucket_in_bounds(rec: RecordHeader, lc: u64, bc: usize)
    requires
        rec.line_offset < lc,
        1 <= bc <= u32::MAX,
    ensures
        first_bucket(rec, lc, bc) <= last_bucket(rec, lc, bc) + 1,
{
    let x = rec.line_offset as int;
    let y = last_line_of(rec) as int;
    let b = bc as int;
    let l = lc as int;
    assert(x * b <= 0xFFFF_FFFF * 0xFFFF_FFFF) by (nonlinear_arith)
        requires
            0 <= x <= 0xFFFF_FFFF,
            0 <= b <= 0xFFFF_FFFF,
    ;
    assert(mul_sat(rec.line_offset as u64, bc as u64) == x * b);
    assert((x * b) / l < b) by (nonlinear_arith)
        requires
            0 <= x < l,
            1 <= b,
    ;
    assert(x <= y);
    assert(x * b <= y * b) by (nonlinear_arith)
        requires
            0 <= x <= y,
            0 <= b,
    ;
    let my = mul_sat(last_line_of(rec), bc as u64) as int;
    assert(x * b <= my);
    assert((x * b) / l <= my / l) by (nonlinear_arith)
        requires
            0 <= x * b <= my,
            0 < l,
    ;
}

impl OpenedFile {
    /// The minimap of the file, or of its truncate window when one is set:
    /// then only records starting inside the window count, renumbered from
    /// the window's first line, over the window's span.
    pub fn level_minimap(&self, bucket_count: u32) -> (r: LevelMinimapPayload)
        requires
            self.wf(),
        ensures
            self.truncate_before is None && self.truncate_after is None ==> minimap_of(
                r,
                self.records@,
                self.line_count,
                bucket_count as usize,
            ),
            !(self.truncate_before is None && self.truncate_after is None) ==> minimap_of(
                r,
                windowed_records(self.records@, self.spec_window().0, self.spec_window().1),
                (if self.spec_window().1 > self.spec_window().0 {
                    self.spec_window().1 - self.spec_window().0
                } else {
                    0
                }) as u64,
                bucket_count as usize,
            ),
    {
        let bc = bucket_count as usize;
        let (lo, hi) = self.truncate_window();
        if self.truncate_before.is_none() && self.truncate_after.is_none() {
            proof {
                assert forall|k: int| 0 <= k < self.records@.len() implies first_bucket(
                    #[trigger] self.records@[k],
                    self.line_count,
                    clamp_buckets(bc),
                ) <= last_bucket(self.records@[k], self.line_count, clamp_buckets(bc)) + 1 by {
                    lemma_bucket_in_bounds(self.records@[k], self.line_count, clamp_buckets(bc));
                }
            }
            return build_level_minimap_payload(self.records.as_slice(), self.line_count, bc);
        }
        let span = if hi > lo {
            hi - lo
        } else {
            0
        };
        let windowed = window_records(self.records.as_slice(), lo, hi);
        proof {
            lemma_windowed_below(self.records@, lo, hi);
            assert forall|k: int| 0 <= k < windowed@.len() implies first_bucket(
                #[trigger] windowed@[k],
                span,
                clamp_buckets(bc),
            ) <= last_bucket(windowed@[k], span, clamp_buckets(bc)) + 1 by {
                lemma_bucket_in_bounds(windowed@[k], span, clamp_buckets(bc));
            }
        }
        build_level_minimap_payload(windowed.as_slice(), span, bc)
    }
}

/// A windowed record starts below the window's span.
proof fn lemma_windowed_below(recs: Seq<RecordHeader>, lo: u64, hi: u64)
    ensures
        forall|k: int|
            0 <= k < windowed_records(recs, lo, hi).len() ==> (#[trigger] windowed_records(
                recs,
                lo,
                hi,
            )[k]).line_offset < hi - lo,
    decreases recs.len(),
{
    if recs.len() > 0 {
        lemma_windowed_below(recs.drop_last(), lo, hi);
    }
}

} // verus!
