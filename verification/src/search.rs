//! Smart and regex search over records.
//!
//! Both modes return `HitRef`s (record index, record-relative byte ranges,
//! score); the viewer decides whether to highlight or hide. Each record is
//! searched on its own bytes, so no match crosses a record boundary.
//!
//! Smart search splits the query on ASCII whitespace. Every token must
//! occur in the record, in order, case-insensitively unless asked
//! otherwise. The score is the number of bytes between consecutive tokens
//! (lower is better): for every occurrence of the first token the earliest
//! possible occurrence of each following token is taken, and the chain with
//! the smallest gap sum wins (the earliest on a tie).

use vstd::prelude::*;
use crate::bytes::{lower, lower_seq, to_lower_byte};
use vstd::string::{StringExecFns, StringSliceAdditionalSpecFns};
use crate::record::{Level, RecordHeader, sat_u32};
use crate::regex_scanner::{CompiledRegex, regex_compiles, regex_error_text, regex_find_all};
use crate::thread_groups::{classify, spec_classify, ThreadGroup, ThreadGroupMask};
use crate::smart_optimality::lemma_smart_ranges_within;

verus! {

#[derive(Debug, Clone, Copy, PartialEq, Eq, Structural)]
pub enum SearchMode {
    Smart,
    Regex,
}

/// The mask bit of each level.
pub open spec fn spec_level_bit(level: Level) -> u16 {
    match level {
        Level::Trace => 1,
        Level::Debug => 2,
        Level::Info => 4,
        Level::Warn => 8,
        Level::Error => 16,
        Level::Fatal => 32,
        Level::Off => 64,
        Level::All => 128,
        Level::Unknown => 256,
    }
}

pub fn level_bit(level: Level) -> (r: u16)
    ensures
        r == spec_level_bit(level),
{
    match level {
        Level::Trace => 1u16,
        Level::Debug => 2u16,
        Level::Info => 4u16,
        Level::Warn => 8u16,
        Level::Error => 16u16,
        Level::Fatal => 32u16,
        Level::Off => 64u16,
        Level::All => 128u16,
        Level::Unknown => 256u16,
    }
}

/// Bitmask of levels a search lets through; a set bit includes the level
/// whose `level_bit` it is.
#[derive(Debug, Clone, Copy, PartialEq, Eq, Structural)]
pub struct LevelMask(pub u16);

impl LevelMask {
    /// The mask that lets every level through (`0xFFFF`).
    pub open spec fn spec_all() -> LevelMask {
        LevelMask(0xFFFFu16)
    }

    pub fn all() -> (r: LevelMask)
        ensures
            r == Self::spec_all(),
    {
        LevelMask(0xFFFFu16)
    }

    pub open spec fn spec_allows(self, level: Level) -> bool {
        self.0 & spec_level_bit(level) != 0
    }

    pub fn allows(self, level: Level) -> (r: bool)
        ensures
            r == self.spec_allows(level),
    {
        self.0 & level_bit(level) != 0
    }

    pub open spec fn spec_with(self, level: Level, allow: bool) -> LevelMask {
        if allow {
            LevelMask(self.0 | spec_level_bit(level))
        } else {
            LevelMask(self.0 & !spec_level_bit(level))
        }
    }

    pub fn with(self, level: Level, allow: bool) -> (r: LevelMask)
        ensures
            r == self.spec_with(level, allow),
    {
        if allow {
            LevelMask(self.0 | level_bit(level))
        } else {
            LevelMask(self.0 & !level_bit(level))
        }
    }
}

impl Default for LevelMask {
    fn default() -> (r: LevelMask)
        ensures
            r == LevelMask::spec_all(),
    {
        LevelMask::all()
    }
}

/// Setting or clearing a level's bit decides exactly that level and leaves
/// every other level as it was.
pub proof fn law_level_mask_with(mask: LevelMask, level: Level, other: Level, allow: bool)
    ensures
        mask.spec_with(level, allow).spec_allows(level) == allow,
        other != level ==> mask.spec_with(level, allow).spec_allows(other) == mask.spec_allows(other),
{
    let m = mask.0;
    let b = spec_level_bit(level);
    let o = spec_level_bit(other);
    assert((m | b) & b != 0 && (m & !b) & b == 0) by (bit_vector)
        requires
            b == 1 || b == 2 || b == 4 || b == 8 || b == 16 || b == 32 || b == 64 || b == 128 || b == 256;
    if other != level {
        assert(((m | b) & o != 0) == (m & o != 0) && ((m & !b) & o != 0) == (m & o != 0))
            by (bit_vector)
            requires
                b == 1 || b == 2 || b == 4 || b == 8 || b == 16 || b == 32 || b == 64 || b == 128 || b == 256,
                o == 1 || o == 2 || o == 4 || o == 8 || o == 16 || o == 32 || o == 64 || o == 128 || o == 256,
                o != b;
    }
}

#[derive(Debug, Clone)]
pub struct HitRef {
    /// Index into the record array.
    pub record_idx: u64,
    /// First physical line of the matching record.
    pub record_first_line: u64,
    /// Number of physical lines the record spans.
    pub record_line_count: u32,
    /// Level of the matching record.
    pub level: Level,
    /// Byte ranges within the record, relative to its first byte: one per
    /// smart-search token, or one per regex match.
    pub ranges: Vec<(u32, u32)>,
    /// Lower is better: the gap sum for smart search, 0 for regex.
    pub score: u32,
}

/// A hit as a mathematical value.
pub struct HitView {
    pub record_idx: u64,
    pub record_first_line: u64,
    pub record_line_count: u32,
    pub level: Level,
    pub ranges: Seq<(u32, u32)>,
    pub score: u32,
}

impl HitRef {
    pub open spec fn view(&self) -> HitView {
        HitView {
            record_idx: self.record_idx,
            record_first_line: self.record_first_line,
            record_line_count: self.record_line_count,
            level: self.level,
            ranges: self.ranges@,
            score: self.score,
        }
    }
}

pub open spec fn hits_view(h: Seq<HitRef>) -> Seq<HitView> {
    h.map_values(|x: HitRef| x.view())
}

#[derive(Debug, Clone, Copy)]
pub struct SearchOptions {
    pub case_sensitive: bool,
    pub level_mask: LevelMask,
    pub thread_group_mask: ThreadGroupMask,
}

impl Default for SearchOptions {
    fn default() -> (r: SearchOptions)
        ensures
            !r.case_sensitive,
            r.level_mask == LevelMask::spec_all(),
            r.thread_group_mask == ThreadGroupMask::spec_all(),
    {
        SearchOptions {
            case_sensitive: false,
            level_mask: LevelMask::all(),
            thread_group_mask: ThreadGroupMask::all(),
        }
    }
}

#[derive(Debug)]
pub enum SearchError {
    EmptyQuery,
    BadRegex(String),
}

// ---------------------------------------------------------------------------
// Record filters.

/// `x` clamped to `usize::MAX`.
pub open spec fn sat_usize(x: int) -> int {
    if x <= usize::MAX {
        x
    } else {
        usize::MAX as int
    }
}

fn sat_usize_of_u64(x: u64) -> (r: usize)
    ensures
        r == sat_usize(x as int),
{
    if x <= usize::MAX as u64 {
        x as usize
    } else {
        usize::MAX
    }
}

/// The thread group of a record's thread field (`Other` when it has none or
/// it lies outside `bytes`).
pub open spec fn spec_thread_group_of(rec: RecordHeader, bytes: Seq<u8>) -> ThreadGroup {
    match rec.fields.thread {
        Some((s, e)) => {
            let base = sat_usize(rec.byte_offset as int);
            let start = sat_usize(base + s);
            let end0 = sat_usize(base + e);
            let end = if end0 < bytes.len() {
                end0
            } else {
                bytes.len() as int
            };
            if start > end || start >= bytes.len() {
                ThreadGroup::Other
            } else {
                spec_classify(bytes.subrange(start, end))
            }
        },
        None => ThreadGroup::Other,
    }
}

/// Classify the thread a record names.
pub fn thread_group_of(rec: &RecordHeader, bytes: &[u8]) -> (r: ThreadGroup)
    ensures
        r == spec_thread_group_of(*rec, bytes@),
{
    match rec.fields.thread {
        Some((s, e)) => {
            let base = sat_usize_of_u64(rec.byte_offset);
            let start = base.saturating_add(s as usize);
            let end0 = base.saturating_add(e as usize);
            let end = if end0 < bytes.len() {
                end0
            } else {
                bytes.len()
            };
            if start > end || start >= bytes.len() {
                ThreadGroup::Other
            } else {
                classify(&bytes[start..end])
            }
        },
        None => ThreadGroup::Other,
    }
}

/// A record passes the level mask, and the thread-group mask unless that
/// lets everything through.
pub open spec fn spec_record_passes(rec: RecordHeader, bytes: Seq<u8>, opts: SearchOptions) -> bool {
    opts.level_mask.spec_allows(rec.level) && (opts.thread_group_mask == ThreadGroupMask::spec_all()
        || opts.thread_group_mask.spec_allows(spec_thread_group_of(rec, bytes)))
}

pub(crate) fn record_passes(rec: &RecordHeader, bytes: &[u8], opts: SearchOptions) -> (r: bool)
    ensures
        r == spec_record_passes(*rec, bytes@, opts),
{
    if !opts.level_mask.allows(rec.level) {
        return false;
    }
    if opts.thread_group_mask == ThreadGroupMask::all() {
        return true;
    }
    let group = thread_group_of(rec, bytes);
    opts.thread_group_mask.allows(group)
}

/// The bytes of a record, cut at the end of `bytes`.
pub open spec fn spec_record_text(rec: RecordHeader, bytes: Seq<u8>) -> Seq<u8> {
    let start = rec.byte_offset as int;
    let end0 = sat_usize(start + rec.byte_len);
    let end = if end0 < bytes.len() {
        end0
    } else {
        bytes.len() as int
    };
    bytes.subrange(start, end)
}

fn record_text<'a>(rec: &RecordHeader, bytes: &'a [u8]) -> (r: &'a [u8])
    requires
        rec.byte_offset <= bytes.len(),
    ensures
        r@ == spec_record_text(*rec, bytes@),
{
    let start = rec.byte_offset as usize;
    let end0 = start.saturating_add(rec.byte_len as usize);
    let end = if end0 < bytes.len() {
        end0
    } else {
        bytes.len()
    };
    &bytes[start..end]
}

// ---------------------------------------------------------------------------
// Smart search.

/// ASCII whitespace as `str::split_ascii_whitespace` sees it.
pub open spec fn is_ascii_ws(b: u8) -> bool {
    b == 32 || b == 9 || b == 10 || b == 12 || b == 13
}

/// The maximal runs of non-whitespace bytes from `i` on; `cur` is the run
/// in progress.
pub open spec fn split_ws_from(s: Seq<u8>, i: int, cur: Seq<u8>) -> Seq<Seq<u8>>
    decreases s.len() - i,
{
    let done = if cur.len() > 0 {
        seq![cur]
    } else {
        Seq::<Seq<u8>>::empty()
    };
    if i < 0 || i >= s.len() {
        done
    } else if is_ascii_ws(s[i]) {
        done + split_ws_from(s, i + 1, Seq::empty())
    } else {
        split_ws_from(s, i + 1, cur.push(s[i]))
    }
}

/// `t` lower-cased unless the search is case-sensitive.
pub open spec fn fold_case(t: Seq<u8>, case_sensitive: bool) -> Seq<u8> {
    if case_sensitive {
        t
    } else {
        lower_seq(t)
    }
}

/// The query's tokens, lower-cased unless the search is case-sensitive.
pub open spec fn spec_smart_tokens(query: Seq<u8>, case_sensitive: bool) -> Seq<Seq<u8>> {
    split_ws_from(query, 0, Seq::empty()).map_values(|t: Seq<u8>| fold_case(t, case_sensitive))
}

fn lower_bytes(t: &[u8]) -> (r: Vec<u8>)
    ensures
        r@ == lower_seq(t@),
{
    let mut out: Vec<u8> = Vec::new();
    let mut i: usize = 0;
    while i < t.len()
        invariant
            i <= t.len(),
            out@ =~= lower_seq(t@).take(i as int),
        decreases t.len() - i,
    {
        out.push(to_lower_byte(t[i]));
        i += 1;
    }
    out
}

fn is_ascii_ws_byte(b: u8) -> (r: bool)
    ensures
        r == is_ascii_ws(b),
{
    b == 32u8 || b == 9u8 || b == 10u8 || b == 12u8 || b == 13u8
}

/// The smart-search tokens of `query`: its runs of non-whitespace bytes,
/// lower-cased unless the search is case-sensitive.
pub fn smart_tokens(query: &str, case_sensitive: bool) -> (r: Vec<Vec<u8>>)
    ensures
        r@.map_values(|t: Vec<u8>| t@) == spec_smart_tokens(query.spec_bytes(), case_sensitive),
{
    let q = query.as_bytes();
    let ghost s = q@;
    let mut raw: Vec<Vec<u8>> = Vec::new();
    let mut cur: Vec<u8> = Vec::new();
    let mut i: usize = 0;
    while i < q.len()
        invariant
            s == q@,
            i <= q.len(),
            raw@.map_values(|t: Vec<u8>| t@) + split_ws_from(s, i as int, cur@) == split_ws_from(s, 0, Seq::empty()),
        decreases q.len() - i,
    {
        let b = q[i];
        let ghost before = raw@.map_values(|t: Vec<u8>| t@);
        let ghost c0 = cur@;
        if is_ascii_ws_byte(b) {
            if cur.len() == 0 {
                assert(c0 =~= Seq::<u8>::empty());
            }
            if cur.len() > 0 {
                raw.push(cur);
                cur = Vec::new();
                assert(raw@.map_values(|t: Vec<u8>| t@) =~= before + seq![c0]);
            }
        } else {
            cur.push(b);
        }
        assert(raw@.map_values(|t: Vec<u8>| t@) + split_ws_from(s, i + 1, cur@) =~= before + split_ws_from(s, i as int, c0));
        i += 1;
    }
    let ghost before = raw@.map_values(|t: Vec<u8>| t@);
    let ghost c0 = cur@;
    if cur.len() > 0 {
        raw.push(cur);
        assert(raw@.map_values(|t: Vec<u8>| t@) =~= before + seq![c0]);
    }
    assert(raw@.map_values(|t: Vec<u8>| t@) =~= split_ws_from(s, 0, Seq::empty()));
    let ghost rv = raw@.map_values(|t: Vec<u8>| t@);
    let mut out: Vec<Vec<u8>> = Vec::new();
    let mut k: usize = 0;
    while k < raw.len()
        invariant
            rv == raw@.map_values(|t: Vec<u8>| t@),
            k <= raw.len(),
            out@.map_values(|t: Vec<u8>| t@) =~= rv.take(k as int).map_values(|t: Seq<u8>| fold_case(t, case_sensitive)),
        decreases raw.len() - k,
    {
        let t = if case_sensitive {
            vstd::slice::slice_to_vec(raw[k].as_slice())
        } else {
            lower_bytes(raw[k].as_slice())
        };
        let ghost before = out@.map_values(|t: Vec<u8>| t@);
        out.push(t);
        assert(out@.map_values(|t: Vec<u8>| t@) =~= before.push(fold_case(rv[k as int], case_sensitive)));
        assert(rv.take(k + 1).map_values(|t: Seq<u8>| fold_case(t, case_sensitive)) =~= rv.take(k as int).map_values(|t: Seq<u8>| fold_case(t, case_sensitive)).push(fold_case(rv[k as int], case_sensitive)));
        k += 1;
    }
    assert(rv.take(raw.len() as int) =~= rv);
    out
}

/// Byte equality, ASCII case folded when `ci`.
pub open spec fn byte_eq(a: u8, b: u8, ci: bool) -> bool {
    if ci {
        lower(a) == lower(b)
    } else {
        a == b
    }
}

/// `needle` matches `hay` at `i`.
pub open spec fn matches_at(hay: Seq<u8>, needle: Seq<u8>, i: int, ci: bool) -> bool {
    forall|j: int| 0 <= j < needle.len() ==> byte_eq(#[trigger] hay[i + j], needle[j], ci)
}

/// Every occurrence of `needle` starting at `i` or later, overlapping ones
/// included, left to right.
pub open spec fn find_all_from(hay: Seq<u8>, needle: Seq<u8>, ci: bool, i: int) -> Seq<(int, int)>
    decreases hay.len() + 1 - i,
{
    if i < 0 || needle.len() == 0 || i + needle.len() > hay.len() {
        Seq::empty()
    } else if matches_at(hay, needle, i, ci) {
        seq![(i, i + needle.len())] + find_all_from(hay, needle, ci, i + 1)
    } else {
        find_all_from(hay, needle, ci, i + 1)
    }
}

/// Every occurrence lies inside `hay`, starts no later than it ends, and
/// starts at or after `i`.
pub proof fn lemma_find_all_spans(hay: Seq<u8>, needle: Seq<u8>, ci: bool, i: int)
    ensures
        forall|m: int|
            0 <= m < find_all_from(hay, needle, ci, i).len() ==> i <= (#[trigger] find_all_from(hay, needle, ci, i)[m]).0
                <= find_all_from(hay, needle, ci, i)[m].1 <= hay.len(),
    decreases hay.len() + 1 - i,
{
    if i < 0 || needle.len() == 0 || i + needle.len() > hay.len() {
    } else if matches_at(hay, needle, i, ci) {
        lemma_find_all_spans(hay, needle, ci, i + 1);
        let r = find_all_from(hay, needle, ci, i);
        let rest = find_all_from(hay, needle, ci, i + 1);
        assert(r == seq![(i, i + needle.len())] + rest);
        assert forall|m: int| 0 <= m < r.len() implies i <= (#[trigger] r[m]).0 <= r[m].1 <= hay.len() by {
            if m > 0 {
                assert(r[m] == rest[m - 1]);
            }
        }
    } else {
        lemma_find_all_spans(hay, needle, ci, i + 1);
        assert(find_all_from(hay, needle, ci, i) == find_all_from(hay, needle, ci, i + 1));
    }
}

pub open spec fn spans_view(v: Seq<(usize, usize)>) -> Seq<(int, int)> {
    v.map_values(|p: (usize, usize)| (p.0 as int, p.1 as int))
}

fn match_at(hay: &[u8], needle: &[u8], i: usize, ci: bool) -> (r: bool)
    requires
        i + needle.len() <= hay.len(),
    ensures
        r == matches_at(hay@, needle@, i as int, ci),
{
    let mut j: usize = 0;
    while j < needle.len()
        invariant
            i + needle.len() <= hay.len(),
            j <= needle.len(),
            forall|k: int| 0 <= k < j ==> byte_eq(#[trigger] hay@[i + k], needle@[k], ci),
        decreases needle.len() - j,
    {
        let a = hay[i + j];
        let b = needle[j];
        let eq = if ci {
            to_lower_byte(a) == to_lower_byte(b)
        } else {
            a == b
        };
        if !eq {
            assert(!byte_eq(hay@[i + j], needle@[j as int], ci));
            return false;
        }
        j += 1;
    }
    true
}

/// Every occurrence of `needle` in `haystack`, overlapping ones included,
/// left to right.
fn find_all(haystack: &[u8], needle: &[u8], case_insensitive: bool) -> (r: Vec<(usize, usize)>)
    ensures
        spans_view(r@) == find_all_from(haystack@, needle@, case_insensitive, 0),
        forall|m: int| 0 <= m < r@.len() ==> (#[trigger] r@[m]).0 <= r@[m].1,
{
    proof {
        lemma_find_all_spans(haystack@, needle@, case_insensitive, 0);
    }
    let mut out: Vec<(usize, usize)> = Vec::new();
    if needle.len() == 0 || haystack.len() < needle.len() {
        assert(spans_view(out@) =~= Seq::<(int, int)>::empty());
        return out;
    }
    let nl = needle.len();
    let limit = haystack.len() - nl + 1;
    let mut i: usize = 0;
    while i < limit
        invariant
            nl == needle.len(),
            nl > 0,
            limit == haystack.len() - nl + 1,
            i <= haystack.len(),
            spans_view(out@) + find_all_from(haystack@, needle@, case_insensitive, i as int)
                == find_all_from(haystack@, needle@, case_insensitive, 0),
        decreases haystack.len() + 1 - i,
    {
        let ghost before = spans_view(out@);
        if match_at(haystack, needle, i, case_insensitive) {
            out.push((i, i + nl));
            assert(spans_view(out@) =~= before + seq![(i as int, i + nl)]);
            assert(spans_view(out@) + find_all_from(haystack@, needle@, case_insensitive, i + 1)
                =~= before + find_all_from(haystack@, needle@, case_insensitive, i as int));
            i += 1;
        } else {
            i += 1;
        }
    }
    assert(find_all_from(haystack@, needle@, case_insensitive, i as int) =~= Seq::<(int, int)>::empty());
    assert(spans_view(out@) =~= spans_view(out@) + Seq::<(int, int)>::empty());
    assert forall|m: int| 0 <= m < out@.len() implies (#[trigger] out@[m]).0 <= out@[m].1 by {
        assert(spans_view(out@)[m] == (out@[m].0 as int, out@[m].1 as int));
    }
    out
}

/// The first span in `occ` from index `k` on that starts at or after `pos`.
pub open spec fn first_at_or_after(occ: Seq<(int, int)>, pos: int, k: int) -> Option<(int, int)>
    decreases occ.len() - k,
{
    if k < 0 || k >= occ.len() {
        None
    } else if occ[k].0 >= pos {
        Some(occ[k])
    } else {
        first_at_or_after(occ, pos, k + 1)
    }
}

/// The greedy chain over token `k` on: for each token, its earliest
/// occurrence at or after the previous token's end. Gaps add up, saturating.
pub open spec fn chain_from(
    occs: Seq<Seq<(int, int)>>,
    k: int,
    prev_end: int,
    gap: u32,
    chosen: Seq<(int, int)>,
) -> Option<(Seq<(int, int)>, u32)>
    decreases occs.len() - k,
{
    if k < 0 || k >= occs.len() {
        Some((chosen, gap))
    } else {
        match first_at_or_after(occs[k], prev_end, 0) {
            None => None,
            Some((s, e)) => chain_from(
                occs,
                k + 1,
                e,
                gap.saturating_add(sat_u32(s - prev_end)),
                chosen.push((s, e)),
            ),
        }
    }
}

/// The best chain over the first `j` occurrences of the first token: the
/// smallest gap sum, the earliest on a tie.
pub open spec fn best_over(occs: Seq<Seq<(int, int)>>, j: int) -> Option<(u32, Seq<(int, int)>)>
    decreases j,
{
    if j <= 0 || occs.len() == 0 {
        None
    } else {
        let prev = best_over(occs, j - 1);
        let s0 = occs[0][j - 1];
        match chain_from(occs, 1, s0.1, 0, seq![s0]) {
            None => prev,
            Some((ch, g)) => match prev {
                None => Some((g, ch)),
                Some((bg, _)) => if g < bg {
                    Some((g, ch))
                } else {
                    prev
                },
            },
        }
    }
}

pub open spec fn ranges_of(ch: Seq<(int, int)>) -> Seq<(u32, u32)> {
    ch.map_values(|p: (int, int)| (sat_u32(p.0), sat_u32(p.1)))
}

/// The smart-search result on `text`: the best chain's ranges and gap sum.
/// The occurrences of each token in `text`.
pub open spec fn token_occs(text: Seq<u8>, tokens: Seq<Seq<u8>>, case_sensitive: bool) -> Seq<Seq<(int, int)>> {
    Seq::new(tokens.len(), |k: int| find_all_from(text, tokens[k], !case_sensitive, 0))
}

pub open spec fn spec_smart_match(text: Seq<u8>, tokens: Seq<Seq<u8>>, case_sensitive: bool) -> Option<(Seq<(u32, u32)>, u32)> {
    let occs = token_occs(text, tokens, case_sensitive);
    if tokens.len() == 0 || exists|k: int| 0 <= k < occs.len() && (#[trigger] occs[k]).len() == 0 {
        None
    } else {
        match best_over(occs, occs[0].len() as int) {
            None => None,
            Some((g, ch)) => Some((ranges_of(ch), g)),
        }
    }
}

pub open spec fn occs_view(occs: Seq<Vec<(usize, usize)>>) -> Seq<Seq<(int, int)>> {
    occs.map_values(|v: Vec<(usize, usize)>| spans_view(v@))
}

fn first_at_or_after_exec(occ: &Vec<(usize, usize)>, pos: usize) -> (r: Option<(usize, usize)>)
    requires
        forall|m: int| 0 <= m < occ@.len() ==> (#[trigger] occ@[m]).0 <= occ@[m].1,
    ensures
        r matches Some(q) ==> pos <= q.0 <= q.1,
        match first_at_or_after(spans_view(occ@), pos as int, 0) {
            Some(p) => r matches Some(q) && p == (q.0 as int, q.1 as int),
            None => r is None,
        },
{
    let mut k: usize = 0;
    while k < occ.len()
        invariant
            forall|m: int| 0 <= m < occ@.len() ==> (#[trigger] occ@[m]).0 <= occ@[m].1,
            k <= occ.len(),
            first_at_or_after(spans_view(occ@), pos as int, k as int) == first_at_or_after(spans_view(occ@), pos as int, 0),
        decreases occ.len() - k,
    {
        if occ[k].0 >= pos {
            return Some(occ[k]);
        }
        k += 1;
    }
    None
}

fn u32_of(x: usize) -> (r: u32)
    ensures
        r == sat_u32(x as int),
{
    if x <= 0xFFFF_FFFF {
        x as u32
    } else {
        u32::MAX
    }
}

/// The greedy chain that starts with the occurrence `s0` of the first token.
fn greedy_chain(occs: &Vec<Vec<(usize, usize)>>, s0: (usize, usize)) -> (r: Option<(Vec<(usize, usize)>, u32)>)
    requires
        forall|k: int, m: int| 0 <= k < occs@.len() && 0 <= m < occs@[k]@.len() ==> (#[trigger] occs@[k]@[m]).0 <= occs@[k]@[m].1,
        s0.0 <= s0.1,
    ensures
        match chain_from(occs_view(occs@), 1, s0.1 as int, 0, seq![(s0.0 as int, s0.1 as int)]) {
            Some((ch, g)) => r matches Some((v, g2)) && spans_view(v@) == ch && g2 == g,
            None => r is None,
        },
{
    let ghost ov = occs_view(occs@);
    let mut chosen: Vec<(usize, usize)> = Vec::new();
    chosen.push(s0);
    let mut prev_end = s0.1;
    let mut gap_sum: u32 = 0;
    let mut k: usize = 1;
    assert(spans_view(chosen@) =~= seq![(s0.0 as int, s0.1 as int)]);
    while k < occs.len()
        invariant
            ov == occs_view(occs@),
            forall|k: int, m: int| 0 <= k < occs@.len() && 0 <= m < occs@[k]@.len() ==> (#[trigger] occs@[k]@[m]).0 <= occs@[k]@[m].1,
            1 <= k,
            chain_from(ov, k as int, prev_end as int, gap_sum, spans_view(chosen@))
                == chain_from(ov, 1, s0.1 as int, 0, seq![(s0.0 as int, s0.1 as int)]),
        decreases occs.len() - k,
    {
        assert(ov[k as int] == spans_view(occs@[k as int]@));
        match first_at_or_after_exec(&occs[k], prev_end) {
            None => return None,
            Some((s, e)) => {
                let ghost before = spans_view(chosen@);
                gap_sum = gap_sum.saturating_add(u32_of(s - prev_end));
                chosen.push((s, e));
                assert(spans_view(chosen@) =~= before.push((s as int, e as int)));
                prev_end = e;
            },
        }
        k += 1;
    }
    Some((chosen, gap_sum))
}

pub open spec fn tokens_seq(tokens: Seq<Vec<u8>>) -> Seq<Seq<u8>> {
    tokens.map_values(|t: Vec<u8>| t@)
}

/// Greedy proximity match of `tokens` in `text`: the ranges of the best
/// chain and its gap sum, or `None` when some token is missing.
pub fn smart_match(text: &[u8], tokens: &Vec<Vec<u8>>, case_sensitive: bool) -> (r: Option<(Vec<(u32, u32)>, u32)>)
    ensures
        match spec_smart_match(text@, tokens_seq(tokens@), case_sensitive) {
            Some((rs, g)) => r matches Some((v, g2)) && v@ == rs && g2 == g,
            None => r is None,
        },
{
    let ghost ts = tokens_seq(tokens@);
    let ghost spec_occs = token_occs(text@, ts, case_sensitive);
    if tokens.len() == 0 {
        return None;
    }
    let mut occs: Vec<Vec<(usize, usize)>> = Vec::new();
    let mut k: usize = 0;
    while k < tokens.len()
        invariant
            ts == tokens_seq(tokens@),
            spec_occs == token_occs(text@, ts, case_sensitive),
            k <= tokens.len(),
            occs_view(occs@) =~= spec_occs.take(k as int),
            forall|a: int, m: int| 0 <= a < occs@.len() && 0 <= m < occs@[a]@.len() ==> (#[trigger] occs@[a]@[m]).0 <= occs@[a]@[m].1,
        decreases tokens.len() - k,
    {
        let found = find_all(text, tokens[k].as_slice(), !case_sensitive);
        let ghost before = occs_view(occs@);
        occs.push(found);
        assert(ts[k as int] == tokens@[k as int]@);
        assert(occs_view(occs@) =~= before.push(spans_view(found@)));
        assert(spec_occs.take(k + 1) =~= spec_occs.take(k as int).push(spec_occs[k as int]));
        k += 1;
    }
    assert(spec_occs.take(tokens.len() as int) =~= spec_occs);
    let ghost ov = occs_view(occs@);
    let mut e: usize = 0;
    while e < occs.len()
        invariant
            ov == occs_view(occs@),
            ov == spec_occs,
            ts == tokens_seq(tokens@),
            ts.len() > 0,
            spec_occs == token_occs(text@, ts, case_sensitive),
            e <= occs.len(),
            forall|a: int| 0 <= a < e ==> ov[a].len() > 0,
        decreases occs.len() - e,
    {
        if occs[e].len() == 0 {
            assert(spec_occs[e as int].len() == 0);
            return None;
        }
        e += 1;
    }
    assert(!exists|a: int| 0 <= a < spec_occs.len() && (#[trigger] spec_occs[a]).len() == 0);
    let first_len = occs[0].len();
    let mut best: Option<(u32, Vec<(usize, usize)>)> = None;
    let mut j: usize = 0;
    while j < first_len
        invariant
            ov == occs_view(occs@),
            ov == spec_occs,
            ts == tokens_seq(tokens@),
            ts.len() > 0,
            spec_occs == token_occs(text@, ts, case_sensitive),
            !exists|a: int| 0 <= a < spec_occs.len() && (#[trigger] spec_occs[a]).len() == 0,
            occs@.len() > 0,
            first_len == occs@[0]@.len(),
            forall|a: int, m: int| 0 <= a < occs@.len() && 0 <= m < occs@[a]@.len() ==> (#[trigger] occs@[a]@[m]).0 <= occs@[a]@[m].1,
            j <= first_len,
            match best_over(ov, j as int) {
                None => best is None,
                Some((g, ch)) => best matches Some((bg, bv)) && bg == g && spans_view(bv@) == ch,
            },
        decreases first_len - j,
    {
        let s0 = occs[0][j];
        assert(ov[0][j as int] == (s0.0 as int, s0.1 as int));
        match greedy_chain(&occs, s0) {
            None => {},
            Some((chain, g)) => {
                let take = match &best {
                    None => true,
                    Some((bg, _)) => g < *bg,
                };
                if take {
                    best = Some((g, chain));
                }
            },
        }
        j += 1;
    }
    match best {
        None => None,
        Some((g, chain)) => {
            let mut ranges: Vec<(u32, u32)> = Vec::new();
            let mut m: usize = 0;
            while m < chain.len()
                invariant
                    m <= chain.len(),
                    ranges@ =~= ranges_of(spans_view(chain@)).take(m as int),
                decreases chain.len() - m,
            {
                ranges.push((u32_of(chain[m].0), u32_of(chain[m].1)));
                m += 1;
            }
            assert(ranges_of(spans_view(chain@)).take(chain.len() as int) =~= ranges_of(spans_view(chain@)));
            Some((ranges, g))
        },
    }
}

// ---------------------------------------------------------------------------
// Search over records.

/// The hits among the first `n` records, in record order.
pub open spec fn collect_hits(n: int, hit: spec_fn(int) -> Option<HitView>) -> Seq<HitView>
    decreases n,
{
    if n <= 0 {
        Seq::empty()
    } else {
        let prev = collect_hits(n - 1, hit);
        match hit(n - 1) {
            Some(h) => prev.push(h),
            None => prev,
        }
    }
}

/// The smart-search hit on record `i`, if any.
pub open spec fn smart_hit(
    records: Seq<RecordHeader>,
    bytes: Seq<u8>,
    toks: Seq<Seq<u8>>,
    opts: SearchOptions,
    i: int,
) -> Option<HitView> {
    let rec = records[i];
    if spec_record_passes(rec, bytes, opts) {
        match spec_smart_match(spec_record_text(rec, bytes), toks, opts.case_sensitive) {
            Some((rs, g)) => Some(
                HitView {
                    record_idx: i as u64,
                    record_first_line: rec.line_offset as u64,
                    record_line_count: rec.line_count,
                    level: rec.level,
                    ranges: rs,
                    score: g,
                },
            ),
            None => None,
        }
    } else {
        None
    }
}

/// The non-empty spans among `sp`, clamped to `u32`.
pub open spec fn nonempty_ranges(sp: Seq<(usize, usize)>) -> Seq<(u32, u32)>
    decreases sp.len(),
{
    if sp.len() == 0 {
        Seq::empty()
    } else {
        let prev = nonempty_ranges(sp.drop_last());
        let m = sp.last();
        if m.1 > m.0 {
            prev.push((sat_u32(m.0 as int), sat_u32(m.1 as int)))
        } else {
            prev
        }
    }
}

/// The regex the engine compiles for `query`.
pub open spec fn regex_pattern(query: Seq<char>, case_sensitive: bool) -> Seq<char> {
    if case_sensitive {
        query
    } else {
        "(?i)"@ + query
    }
}

/// The regex compiled for `query`: case-insensitive unless asked otherwise.
pub(crate) fn build_regex_pattern(query: &str, case_sensitive: bool) -> (r: String)
    ensures
        r@ == regex_pattern(query@, case_sensitive),
{
    if case_sensitive {
        query.to_owned()
    } else {
        let mut p = "(?i)".to_owned();
        p.append(query);
        p
    }
}

/// A regex search that ignores case hands the engine the query behind the
/// `(?i)` flag, and a case-sensitive one hands it the query as typed; so
/// searching for `q` ignoring case finds exactly what a case-sensitive
/// search for `(?i)q` finds.
pub proof fn law_regex_case_flag(query: Seq<char>, records: Seq<RecordHeader>, bytes: Seq<u8>, opts: SearchOptions)
    ensures
        regex_pattern(query, false) == seq!['(', '?', 'i', ')'] + query,
        regex_pattern(query, true) == query,
        regex_pattern(seq!['(', '?', 'i', ')'] + query, true) == regex_pattern(query, false),
        !opts.case_sensitive ==> (|i: int| regex_hit(records, bytes, regex_pattern(query, opts.case_sensitive), opts, i))
            == (|i: int|
            regex_hit(
                records,
                bytes,
                regex_pattern(seq!['(', '?', 'i', ')'] + query, true),
                opts,
                i,
            )),
{
    reveal_strlit("(?i)");
    assert("(?i)"@ =~= seq!['(', '?', 'i', ')']);
}

/// The regex hit on record `i`, if any: its non-empty matches.
pub open spec fn regex_hit(
    records: Seq<RecordHeader>,
    bytes: Seq<u8>,
    pattern: Seq<char>,
    opts: SearchOptions,
    i: int,
) -> Option<HitView> {
    let rec = records[i];
    if spec_record_passes(rec, bytes, opts) {
        let rs = nonempty_ranges(regex_find_all(pattern, spec_record_text(rec, bytes)));
        if rs.len() > 0 {
            Some(
                HitView {
                    record_idx: i as u64,
                    record_first_line: rec.line_offset as u64,
                    record_line_count: rec.line_count,
                    level: rec.level,
                    ranges: rs,
                    score: 0,
                },
            )
        } else {
            None
        }
    } else {
        None
    }
}

fn nonempty_ranges_exec(sp: &Vec<(usize, usize)>) -> (r: Vec<(u32, u32)>)
    ensures
        r@ == nonempty_ranges(sp@),
{
    let mut out: Vec<(u32, u32)> = Vec::new();
    let mut i: usize = 0;
    while i < sp.len()
        invariant
            i <= sp.len(),
            out@ == nonempty_ranges(sp@.take(i as int)),
        decreases sp.len() - i,
    {
        assert(sp@.take(i + 1).drop_last() =~= sp@.take(i as int));
        let (a, b) = sp[i];
        if b > a {
            out.push((u32_of(a), u32_of(b)));
        }
        i += 1;
    }
    assert(sp@.take(sp.len() as int) =~= sp@);
    out
}

/// Every range of every hit lies inside the text of the hit's record: no
/// match crosses a record boundary.
pub open spec fn hits_within(hits: Seq<HitView>, records: Seq<RecordHeader>, bytes: Seq<u8>) -> bool {
    forall|x: int, m: int|
        0 <= x < hits.len() && 0 <= m < hits[x].ranges.len() ==> hits[x].record_idx < records.len()
            && (#[trigger] hits[x].ranges[m]).0 <= hits[x].ranges[m].1 <= spec_record_text(
            records[hits[x].record_idx as int],
            bytes,
        ).len()
}

proof fn lemma_nonempty_ranges_within(sp: Seq<(usize, usize)>, len: int)
    requires
        forall|i: int| 0 <= i < sp.len() ==> (#[trigger] sp[i]).0 <= sp[i].1 <= len,
    ensures
        forall|m: int| 0 <= m < nonempty_ranges(sp).len() ==> (#[trigger] nonempty_ranges(sp)[m]).0
            <= nonempty_ranges(sp)[m].1 <= len,
    decreases sp.len(),
{
    if sp.len() > 0 {
        let prev = sp.drop_last();
        assert forall|i: int| 0 <= i < prev.len() implies (#[trigger] prev[i]).0 <= prev[i].1 <= len by {
            assert(prev[i] == sp[i]);
        }
        lemma_nonempty_ranges_within(prev, len);
        let r = nonempty_ranges(sp);
        let pr = nonempty_ranges(prev);
        let last = sp.last();
        assert(last == sp[sp.len() - 1]);
        if last.1 > last.0 {
            assert(r == pr.push((sat_u32(last.0 as int), sat_u32(last.1 as int))));
            assert forall|m: int| 0 <= m < r.len() implies (#[trigger] r[m]).0 <= r[m].1 <= len by {
                if m < pr.len() {
                    assert(r[m] == pr[m]);
                }
            }
        }
    }
}

/// Run a search across the file's records; hits come back in record order.
///
/// `bytes` is the full file content and every record must start inside it.
/// Fails with `EmptyQuery` when a smart query has no token, and with
/// `BadRegex` when the regex does not compile.
pub fn search_records(
    records: &[RecordHeader],
    bytes: &[u8],
    mode: SearchMode,
    query: &str,
    opts: SearchOptions,
) -> (r: Result<Vec<HitRef>, SearchError>)
    requires
        forall|i: int| 0 <= i < records@.len() ==> (#[trigger] records@[i]).byte_offset <= bytes@.len(),
    ensures
        match mode {
            SearchMode::Smart => {
                let toks = spec_smart_tokens(query.spec_bytes(), opts.case_sensitive);
                if toks.len() == 0 {
                    r matches Err(SearchError::EmptyQuery)
                } else {
                    r matches Ok(h) && hits_view(h@) == collect_hits(
                        records@.len() as int,
                        |i: int| smart_hit(records@, bytes@, toks, opts, i),
                    )
                }
            },
            SearchMode::Regex => {
                let pat = regex_pattern(query@, opts.case_sensitive);
                if !regex_compiles(pat) {
                    r matches Err(SearchError::BadRegex(_))
                } else {
                    r matches Ok(h) && hits_view(h@) == collect_hits(
                        records@.len() as int,
                        |i: int| regex_hit(records@, bytes@, pat, opts, i),
                    )
                }
            },
        },
        r matches Ok(h) ==> hits_within(hits_view(h@), records@, bytes@),
{
    match mode {
        SearchMode::Smart => {
            let tokens = smart_tokens(query, opts.case_sensitive);
            let ghost toks = spec_smart_tokens(query.spec_bytes(), opts.case_sensitive);
            if tokens.len() == 0 {
                return Err(SearchError::EmptyQuery);
            }
            let ghost f = |i: int| smart_hit(records@, bytes@, toks, opts, i);
            let mut hits: Vec<HitRef> = Vec::new();
            let mut i: usize = 0;
            while i < records.len()
                invariant
                    forall|k: int| 0 <= k < records@.len() ==> (#[trigger] records@[k]).byte_offset <= bytes@.len(),
                    tokens_seq(tokens@) == toks,
                    f == (|i: int| smart_hit(records@, bytes@, toks, opts, i)),
                    i <= records.len(),
                    hits_view(hits@) == collect_hits(i as int, f),
                    hits_within(hits_view(hits@), records@, bytes@),
                    forall|x: int| 0 <= x < hits@.len() ==> (#[trigger] hits@[x]).record_idx < i,
                decreases records.len() - i,
            {
                let rec = &records[i];
                let ghost before = hits_view(hits@);
                if record_passes(rec, bytes, opts) {
                    let text = record_text(rec, bytes);
                    proof {
                        lemma_smart_ranges_within(text@, toks, opts.case_sensitive);
                    }
                    match smart_match(text, &tokens, opts.case_sensitive) {
                        Some((ranges, score)) => {
                            hits.push(HitRef {
                                record_idx: i as u64,
                                record_first_line: rec.line_offset as u64,
                                record_line_count: rec.line_count,
                                level: rec.level,
                                ranges,
                                score,
                            });
                            assert(hits_view(hits@) =~= before.push(hits@.last().view()));
                        },
                        None => {},
                    }
                }
                i += 1;
            }
            Ok(hits)
        },
        SearchMode::Regex => {
            let pattern = build_regex_pattern(query, opts.case_sensitive);
            let ghost pat = regex_pattern(query@, opts.case_sensitive);
            assert(pattern@ == pat);
            let re = match CompiledRegex::new(pattern.as_str()) {
                Ok(re) => re,
                Err(e) => return Err(SearchError::BadRegex(regex_error_text(&e))),
            };
            let ghost f = |i: int| regex_hit(records@, bytes@, pat, opts, i);
            let mut hits: Vec<HitRef> = Vec::new();
            let mut i: usize = 0;
            while i < records.len()
                invariant
                    forall|k: int| 0 <= k < records@.len() ==> (#[trigger] records@[k]).byte_offset <= bytes@.len(),
                    re@ == pat,
                    f == (|i: int| regex_hit(records@, bytes@, pat, opts, i)),
                    i <= records.len(),
                    hits_view(hits@) == collect_hits(i as int, f),
                    hits_within(hits_view(hits@), records@, bytes@),
                    forall|x: int| 0 <= x < hits@.len() ==> (#[trigger] hits@[x]).record_idx < i,
                decreases records.len() - i,
            {
                let rec = &records[i];
                let ghost before = hits_view(hits@);
                if record_passes(rec, bytes, opts) {
                    let text = record_text(rec, bytes);
                    let spans = re.find_spans(text);
                    proof {
                        lemma_nonempty_ranges_within(spans@, text@.len() as int);
                    }
                    let ranges = nonempty_ranges_exec(&spans);
                    if ranges.len() > 0 {
                        hits.push(HitRef {
                            record_idx: i as u64,
                            record_first_line: rec.line_offset as u64,
                            record_line_count: rec.line_count,
                            level: rec.level,
                            ranges,
                            score: 0,
                        });
                        assert(hits_view(hits@) =~= before.push(hits@.last().view()));
                    }
                }
                i += 1;
            }
            Ok(hits)
        },
    }
}

} // verus!
