//! Why the greedy smart match is the best one.
//!
//! Smart search lists the occurrences of each token, then, from each
//! occurrence of the first token, takes for every following token its
//! earliest occurrence starting at or after the previous one's end, and
//! keeps the chain with the smallest gap sum. This module proves that the
//! chain it keeps has the smallest gap sum of all placements of the tokens
//! in the text, and that it finds one whenever a placement exists.

use vstd::prelude::*;
use crate::record::sat_u32;
use crate::search::{
    best_over, chain_from, find_all_from, first_at_or_after, lemma_find_all_spans, matches_at,
    ranges_of, spec_smart_match, token_occs,
};

verus! {

/// `al` picks, for each token in order, one of its listed occurrences, each
/// starting at or after the end of the previous pick.
pub open spec fn is_alignment(occs: Seq<Seq<(int, int)>>, al: Seq<(int, int)>) -> bool {
    &&& al.len() == occs.len()
    &&& forall|k: int| 0 <= k < al.len() ==> occs[k].contains(#[trigger] al[k])
    &&& forall|k: int| 1 <= k < al.len() ==> (#[trigger] al[k]).0 >= al[k - 1].1
}

/// The gaps between consecutive picks of `al`, summed.
pub open spec fn alignment_gap(al: Seq<(int, int)>) -> int
    decreases al.len(),
{
    if al.len() <= 1 {
        0
    } else {
        alignment_gap(al.drop_last()) + (al.last().0 - al[al.len() - 2].1)
    }
}

/// The occurrences of one token as they are listed: each starts no later
/// than it ends, all are equally long, and they come in increasing order of
/// start.
pub open spec fn occs_regular(occ: Seq<(int, int)>) -> bool {
    &&& forall|m: int| 0 <= m < occ.len() ==> (#[trigger] occ[m]).0 <= occ[m].1
    &&& forall|a: int, b: int|
        0 <= a < b < occ.len() ==> (#[trigger] occ[a]).0 < (#[trigger] occ[b]).0 && occ[a].1 - occ[a].0
            == occ[b].1 - occ[b].0
}

/// Every token's occurrences are regular and lie inside `[0, total]`.
pub open spec fn all_regular(occs: Seq<Seq<(int, int)>>, total: int) -> bool {
    forall|k: int|
        0 <= k < occs.len() ==> occs_regular(#[trigger] occs[k]) && forall|m: int|
            0 <= m < occs[k].len() ==> 0 <= (#[trigger] occs[k][m]).0 && occs[k][m].1 <= total
}

proof fn lemma_find_all_regular(hay: Seq<u8>, needle: Seq<u8>, ci: bool, i: int)
    ensures
        occs_regular(find_all_from(hay, needle, ci, i)),
    decreases hay.len() + 1 - i,
{
    let r = find_all_from(hay, needle, ci, i);
    lemma_find_all_spans(hay, needle, ci, i);
    if i < 0 || needle.len() == 0 || i + needle.len() > hay.len() {
    } else if matches_at(hay, needle, i, ci) {
        let rest = find_all_from(hay, needle, ci, i + 1);
        lemma_find_all_regular(hay, needle, ci, i + 1);
        lemma_find_all_spans(hay, needle, ci, i + 1);
        lemma_find_all_lengths(hay, needle, ci, i);
        assert(r == seq![(i, i + needle.len())] + rest);
        assert forall|a: int, b: int| 0 <= a < b < r.len() implies (#[trigger] r[a]).0 < (#[trigger] r[b]).0
            && r[a].1 - r[a].0 == r[b].1 - r[b].0 by {
            assert(r[b] == rest[b - 1]);
            if a > 0 {
                assert(r[a] == rest[a - 1]);
            }
        }
    } else {
        lemma_find_all_regular(hay, needle, ci, i + 1);
        assert(r == find_all_from(hay, needle, ci, i + 1));
    }
}

proof fn lemma_find_all_lengths(hay: Seq<u8>, needle: Seq<u8>, ci: bool, i: int)
    ensures
        forall|m: int|
            0 <= m < find_all_from(hay, needle, ci, i).len() ==> (#[trigger] find_all_from(hay, needle, ci, i)[m]).1
                == find_all_from(hay, needle, ci, i)[m].0 + needle.len(),
    decreases hay.len() + 1 - i,
{
    if i < 0 || needle.len() == 0 || i + needle.len() > hay.len() {
    } else if matches_at(hay, needle, i, ci) {
        lemma_find_all_lengths(hay, needle, ci, i + 1);
        let r = find_all_from(hay, needle, ci, i);
        let rest = find_all_from(hay, needle, ci, i + 1);
        assert(r == seq![(i, i + needle.len())] + rest);
        assert forall|m: int| 0 <= m < r.len() implies (#[trigger] r[m]).1 == r[m].0 + needle.len() by {
            if m > 0 {
                assert(r[m] == rest[m - 1]);
            }
        }
    } else {
        lemma_find_all_lengths(hay, needle, ci, i + 1);
        assert(find_all_from(hay, needle, ci, i) == find_all_from(hay, needle, ci, i + 1));
    }
}

proof fn lemma_token_occs_regular(text: Seq<u8>, tokens: Seq<Seq<u8>>, case_sensitive: bool)
    ensures
        all_regular(token_occs(text, tokens, case_sensitive), text.len() as int),
{
    let occs = token_occs(text, tokens, case_sensitive);
    assert forall|k: int| 0 <= k < occs.len() implies occs_regular(#[trigger] occs[k]) && forall|m: int|
        0 <= m < occs[k].len() ==> 0 <= (#[trigger] occs[k][m]).0 && occs[k][m].1 <= text.len() by {
        lemma_find_all_regular(text, tokens[k], !case_sensitive, 0);
        lemma_find_all_spans(text, tokens[k], !case_sensitive, 0);
    }
}

/// `first_at_or_after(occ, pos, k)` is the element at the returned index:
/// the first at or after `k` starting at or after `pos` (the length of
/// `occ` when there is none).
proof fn lemma_first(occ: Seq<(int, int)>, pos: int, k: int) -> (i: int)
    requires
        0 <= k <= occ.len(),
    ensures
        k <= i <= occ.len(),
        forall|m: int| k <= m < i ==> (#[trigger] occ[m]).0 < pos,
        i < occ.len() ==> occ[i].0 >= pos && first_at_or_after(occ, pos, k) == Some(occ[i]),
        i == occ.len() ==> first_at_or_after(occ, pos, k) is None,
    decreases occ.len() - k,
{
    if k >= occ.len() {
        k
    } else if occ[k].0 >= pos {
        k
    } else {
        lemma_first(occ, pos, k + 1)
    }
}

proof fn lemma_gap_take_step(al: Seq<(int, int)>, k: int)
    requires
        1 <= k < al.len(),
    ensures
        alignment_gap(al.take(k + 1)) == alignment_gap(al.take(k)) + (al[k].0 - al[k - 1].1),
{
    assert(al.take(k + 1).drop_last() =~= al.take(k));
}

proof fn lemma_gap_push(c: Seq<(int, int)>, x: (int, int))
    requires
        c.len() >= 1,
    ensures
        alignment_gap(c.push(x)) == alignment_gap(c) + (x.0 - c.last().1),
{
    assert(c.push(x).drop_last() =~= c);
}

/// From token `k` on, the greedy chain started at `p` exists whenever the
/// alignment `al` does (with `p` no later than `al`'s previous end), and
/// adds no more gap than the rest of `al` plus the head start `al` gives.
proof fn lemma_chain_le(
    occs: Seq<Seq<(int, int)>>,
    k: int,
    p: int,
    gap: u32,
    chosen: Seq<(int, int)>,
    al: Seq<(int, int)>,
    total: int,
)
    requires
        all_regular(occs, total),
        is_alignment(occs, al),
        1 <= k <= occs.len(),
        p <= al[k - 1].1,
    ensures
        chain_from(occs, k, p, gap, chosen) matches Some((ch, g)) && g <= gap + (al[k - 1].1 - p) + (
        alignment_gap(al) - alignment_gap(al.take(k))),
    decreases occs.len() - k,
{
    let n = occs.len() as int;
    if k >= n {
        assert(al.take(k) =~= al);
    } else {
        let occ = occs[k];
        let q = al[k - 1].1;
        assert(occs_regular(occ));
        assert(occ.contains(al[k]));
        let j = choose|j: int| 0 <= j < occ.len() && occ[j] == al[k];
        let i = lemma_first(occ, p, 0);
        if i == occ.len() || j < i {
            assert(occ[j].0 < p);
            assert(al[k].0 >= q);
            assert(false);
        }
        let (s, e) = occ[i];
        if i < j {
            assert(occ[i].0 < occ[j].0);
        }
        assert(occ[i].0 <= occ[i].1);
        let gap2 = gap.saturating_add(sat_u32(s - p));
        assert(gap2 <= gap + (s - p));
        assert(chain_from(occs, k, p, gap, chosen) == chain_from(occs, k + 1, e, gap2, chosen.push((s, e))));
        lemma_chain_le(occs, k + 1, e, gap2, chosen.push((s, e)), al, total);
        lemma_gap_take_step(al, k);
    }
}

/// The greedy chain extends a partial alignment `chosen` to a full one, and
/// (inside a text short enough that no gap sum saturates) its gap sum is
/// exactly that alignment's.
proof fn lemma_chain_sound(
    occs: Seq<Seq<(int, int)>>,
    k: int,
    gap: u32,
    chosen: Seq<(int, int)>,
    total: int,
)
    requires
        all_regular(occs, total),
        total <= u32::MAX,
        1 <= k <= occs.len(),
        chosen.len() == k,
        forall|t: int| 0 <= t < k ==> occs[t].contains(#[trigger] chosen[t]),
        forall|t: int| 1 <= t < k ==> (#[trigger] chosen[t]).0 >= chosen[t - 1].1,
        gap == alignment_gap(chosen),
        alignment_gap(chosen) <= chosen[k - 1].1 - chosen[0].1,
        0 <= chosen[0].1,
    ensures
        chain_from(occs, k, chosen[k - 1].1, gap, chosen) matches Some((ch, g)) ==> is_alignment(occs, ch)
            && g == alignment_gap(ch),
    decreases occs.len() - k,
{
    let n = occs.len() as int;
    let p = chosen[k - 1].1;
    if k < n {
        let occ = occs[k];
        assert(occs_regular(occ));
        let i = lemma_first(occ, p, 0);
        if i < occ.len() {
            let (s, e) = occ[i];
            assert(0 <= s && e <= total);
            assert(s <= e);
            let c2 = chosen.push((s, e));
            let gap2 = gap.saturating_add(sat_u32(s - p));
            assert(gap2 == gap + (s - p));
            lemma_gap_push(chosen, (s, e));
            assert(occs[k].contains(c2[k]));
            assert forall|t: int| 0 <= t < k + 1 implies occs[t].contains(#[trigger] c2[t]) by {
                if t < k {
                    assert(c2[t] == chosen[t]);
                }
            }
            assert forall|t: int| 1 <= t < k + 1 implies (#[trigger] c2[t]).0 >= c2[t - 1].1 by {
                if t < k {
                    assert(c2[t] == chosen[t]);
                }
                assert(c2[t - 1] == chosen[t - 1]);
            }
            assert(chain_from(occs, k, p, gap, chosen) == chain_from(occs, k + 1, e, gap2, c2));
            lemma_chain_sound(occs, k + 1, gap2, c2, total);
        }
    }
}

/// The chain the greedy match builds from the `t`-th occurrence of the
/// first token.
pub open spec fn chain_at(occs: Seq<Seq<(int, int)>>, t: int) -> Option<(Seq<(int, int)>, u32)> {
    chain_from(occs, 1, occs[0][t].1, 0, seq![occs[0][t]])
}

/// The best chain over the first `j` occurrences of the first token is one
/// of their chains (the returned index's), no worse than any of them, and
/// exists when any of them does.
proof fn lemma_best_over(occs: Seq<Seq<(int, int)>>, j: int) -> (t: int)
    requires
        occs.len() > 0,
        0 <= j <= occs[0].len(),
    ensures
        best_over(occs, j) matches Some((g, ch)) ==> 0 <= t < j && chain_at(occs, t) == Some((ch, g)),
        forall|u: int| 0 <= u < j ==> (#[trigger] chain_at(occs, u) matches Some((_, gu)) ==> (best_over(
            occs,
            j,
        ) matches Some((g, _)) && g <= gu)),
    decreases j,
{
    if j <= 0 {
        0
    } else {
        let t0 = lemma_best_over(occs, j - 1);
        assert(chain_at(occs, j - 1) == chain_from(occs, 1, occs[0][j - 1].1, 0, seq![occs[0][j - 1]]));
        match chain_at(occs, j - 1) {
            None => t0,
            Some((ch, g)) => match best_over(occs, j - 1) {
                None => j - 1,
                Some((bg, _)) => if g < bg {
                    j - 1
                } else {
                    t0
                },
            },
        }
    }
}

/// Smart search keeps the best alignment of the tokens' listed occurrences:
/// it finds one exactly when the query has a token and some alignment
/// exists, the ranges it returns are an alignment whose gap sum is the
/// score it returns (in a text of at most `u32::MAX` bytes, where no sum
/// saturates), and no alignment has a smaller gap sum.
proof fn lemma_best_alignment(text: Seq<u8>, tokens: Seq<Seq<u8>>, case_sensitive: bool)
    requires
        text.len() <= u32::MAX,
    ensures
        ({
            let occs = token_occs(text, tokens, case_sensitive);
            &&& spec_smart_match(text, tokens, case_sensitive) is Some <==> (tokens.len() > 0 && exists|al: Seq<(int, int)>|
                #[trigger] is_alignment(occs, al))
            &&& spec_smart_match(text, tokens, case_sensitive) matches Some((rs, g)) ==> {
                &&& exists|al: Seq<(int, int)>| #[trigger] is_alignment(occs, al) && ranges_of(al) == rs && alignment_gap(al) == g
                &&& forall|al: Seq<(int, int)>| #[trigger] is_alignment(occs, al) ==> g <= alignment_gap(al)
            }
        }),
{
    let occs = token_occs(text, tokens, case_sensitive);
    let total = text.len() as int;
    lemma_token_occs_regular(text, tokens, case_sensitive);
    let none_empty = !exists|k: int| 0 <= k < occs.len() && (#[trigger] occs[k]).len() == 0;
    assert forall|al: Seq<(int, int)>| tokens.len() > 0 && #[trigger] is_alignment(occs, al) implies spec_smart_match(
        text,
        tokens,
        case_sensitive,
    ) matches Some((rs, g)) && g <= alignment_gap(al) by {
        assert forall|k: int| 0 <= k < occs.len() implies (#[trigger] occs[k]).len() != 0 by {
            assert(occs[k].contains(al[k]));
        }
        assert(occs[0].contains(al[0]));
        let j0 = choose|j: int| 0 <= j < occs[0].len() && occs[0][j] == al[0];
        lemma_chain_le(occs, 1, al[0].1, 0, seq![occs[0][j0]], al, total);
        assert(al.take(1).len() == 1);
        assert(chain_at(occs, j0) == chain_from(occs, 1, occs[0][j0].1, 0, seq![occs[0][j0]]));
        let t = lemma_best_over(occs, occs[0].len() as int);
        assert(chain_at(occs, j0) matches Some((_, g0)) && g0 <= alignment_gap(al));
    }
    if spec_smart_match(text, tokens, case_sensitive) is Some {
        assert(tokens.len() > 0);
        assert(none_empty);
        let t = lemma_best_over(occs, occs[0].len() as int);
        let (g, ch) = best_over(occs, occs[0].len() as int)->0;
        let s0 = occs[0][t];
        assert(occs_regular(occs[0]));
        assert(0 <= s0.0 && s0.0 <= s0.1);
        let c1 = seq![s0];
        assert(occs[0].contains(c1[0]));
        assert(alignment_gap(c1) == 0);
        lemma_chain_sound(occs, 1, 0, c1, total);
        let found = spec_smart_match(text, tokens, case_sensitive)->0;
        assert(is_alignment(occs, ch) && ranges_of(ch) == found.0);
    }
}


/// The greedy chain keeps `chosen` and adds, for each token from `k` on,
/// one of its listed occurrences.
proof fn lemma_chain_members(occs: Seq<Seq<(int, int)>>, k: int, p: int, gap: u32, chosen: Seq<(int, int)>)
    requires
        1 <= k <= occs.len(),
        chosen.len() == k,
    ensures
        chain_from(occs, k, p, gap, chosen) matches Some((ch, g)) ==> {
            &&& ch.len() == occs.len()
            &&& forall|t: int| 0 <= t < k ==> ch[t] == chosen[t]
            &&& forall|t: int| k <= t < ch.len() ==> occs[t].contains(#[trigger] ch[t])
        },
    decreases occs.len() - k,
{
    if k < occs.len() {
        let i = lemma_first(occs[k], p, 0);
        if i < occs[k].len() {
            let (s, e) = occs[k][i];
            let c2 = chosen.push((s, e));
            lemma_chain_members(occs, k + 1, e, gap.saturating_add(sat_u32(s - p)), c2);
            assert(chain_from(occs, k, p, gap, chosen) == chain_from(
                occs,
                k + 1,
                e,
                gap.saturating_add(sat_u32(s - p)),
                c2,
            ));
            if let Some((ch, g)) = chain_from(occs, k, p, gap, chosen) {
                assert(c2[k] == occs[k][i]);
                assert(occs[k].contains(ch[k]));
                assert forall|t: int| 0 <= t < k implies ch[t] == chosen[t] by {
                    assert(c2[t] == chosen[t]);
                }
            }
        }
    }
}

/// Every range smart search reports lies inside the searched text.
pub proof fn lemma_smart_ranges_within(text: Seq<u8>, tokens: Seq<Seq<u8>>, case_sensitive: bool)
    ensures
        spec_smart_match(text, tokens, case_sensitive) matches Some((rs, g)) ==> forall|m: int|
            0 <= m < rs.len() ==> (#[trigger] rs[m]).0 <= rs[m].1 <= text.len(),
{
    let occs = token_occs(text, tokens, case_sensitive);
    let total = text.len() as int;
    lemma_token_occs_regular(text, tokens, case_sensitive);
    if spec_smart_match(text, tokens, case_sensitive) is Some {
        let t = lemma_best_over(occs, occs[0].len() as int);
        let (g, ch) = best_over(occs, occs[0].len() as int)->0;
        let s0 = occs[0][t];
        lemma_chain_members(occs, 1, s0.1, 0, seq![s0]);
        let rs = ranges_of(ch);
        assert forall|m: int| 0 <= m < rs.len() implies (#[trigger] rs[m]).0 <= rs[m].1 <= text.len() by {
            assert(occs[m].contains(ch[m]));
            let x = choose|x: int| 0 <= x < occs[m].len() && occs[m][x] == ch[m];
            assert(occs_regular(occs[m]));
            assert(0 <= occs[m][x].0 && occs[m][x].1 <= total);
        }
    }
}

/// The listed occurrences of `needle` from `i` on are exactly the places at
/// or after `i` where it occurs.
proof fn lemma_find_all_contains(hay: Seq<u8>, needle: Seq<u8>, ci: bool, i: int, p: int)
    requires
        0 <= i,
        needle.len() > 0,
    ensures
        find_all_from(hay, needle, ci, i).contains((p, p + needle.len())) <==> (i <= p && p + needle.len()
            <= hay.len() && matches_at(hay, needle, p, ci)),
    decreases hay.len() + 1 - i,
{
    let n = needle.len() as int;
    let r = find_all_from(hay, needle, ci, i);
    let x = (p, p + n);
    if i + n > hay.len() {
        assert(!r.contains(x));
    } else {
        let rest = find_all_from(hay, needle, ci, i + 1);
        lemma_find_all_contains(hay, needle, ci, i + 1, p);
        if matches_at(hay, needle, i, ci) {
            assert(r == seq![(i, i + n)] + rest);
            if p == i {
                assert(r[0] == x);
            } else {
                if rest.contains(x) {
                    let m = choose|m: int| 0 <= m < rest.len() && rest[m] == x;
                    assert(r[m + 1] == x);
                }
                if r.contains(x) {
                    let m = choose|m: int| 0 <= m < r.len() && r[m] == x;
                    assert(m > 0);
                    assert(rest[m - 1] == x);
                }
            }
        } else {
            assert(r == rest);
        }
    }
}

/// `ps` places each token of `tokens`, in order, at a position where it
/// occurs in `text` (ASCII case folded unless `case_sensitive`), each placed
/// token ending at or before the next one starts.
pub open spec fn is_placement(text: Seq<u8>, tokens: Seq<Seq<u8>>, case_sensitive: bool, ps: Seq<int>) -> bool {
    &&& ps.len() == tokens.len()
    &&& forall|k: int| 0 <= k < tokens.len() ==> (#[trigger] tokens[k]).len() > 0
    &&& forall|k: int|
        0 <= k < ps.len() ==> 0 <= #[trigger] ps[k] && ps[k] + tokens[k].len() <= text.len() && matches_at(
            text,
            tokens[k],
            ps[k],
            !case_sensitive,
        )
    &&& forall|k: int| 1 <= k < ps.len() ==> ps[k - 1] + tokens[k - 1].len() <= #[trigger] ps[k]
}

/// The byte ranges the tokens cover when placed at `ps`.
pub open spec fn placed_spans(tokens: Seq<Seq<u8>>, ps: Seq<int>) -> Seq<(int, int)> {
    Seq::new(ps.len(), |k: int| (ps[k], ps[k] + tokens[k].len()))
}

proof fn lemma_placement_is_alignment(text: Seq<u8>, tokens: Seq<Seq<u8>>, case_sensitive: bool, ps: Seq<int>)
    requires
        is_placement(text, tokens, case_sensitive, ps),
    ensures
        is_alignment(token_occs(text, tokens, case_sensitive), placed_spans(tokens, ps)),
{
    let occs = token_occs(text, tokens, case_sensitive);
    let al = placed_spans(tokens, ps);
    assert(al.len() == ps.len() && occs.len() == tokens.len());
    assert forall|k: int| 0 <= k < al.len() implies occs[k].contains(#[trigger] al[k]) by {
        assert(0 <= ps[k]);
        assert(tokens[k].len() > 0);
        lemma_find_all_contains(text, tokens[k], !case_sensitive, 0, ps[k]);
    }
    assert forall|k: int| 1 <= k < al.len() implies (#[trigger] al[k]).0 >= al[k - 1].1 by {
        assert(ps[k - 1] + tokens[k - 1].len() <= ps[k]);
    }
}

/// A listed occurrence of `needle` is a place where it occurs.
proof fn lemma_listed_occurrence(hay: Seq<u8>, needle: Seq<u8>, ci: bool, x: (int, int))
    requires
        find_all_from(hay, needle, ci, 0).contains(x),
    ensures
        needle.len() > 0,
        x.1 == x.0 + needle.len(),
        0 <= x.0,
        x.1 <= hay.len(),
        matches_at(hay, needle, x.0, ci),
{
    let r = find_all_from(hay, needle, ci, 0);
    let m = choose|m: int| 0 <= m < r.len() && r[m] == x;
    if needle.len() == 0 {
        assert(r =~= Seq::<(int, int)>::empty());
    }
    lemma_find_all_lengths(hay, needle, ci, 0);
    lemma_find_all_spans(hay, needle, ci, 0);
    lemma_find_all_contains(hay, needle, ci, 0, x.0);
}

proof fn lemma_alignment_is_placement(
    text: Seq<u8>,
    tokens: Seq<Seq<u8>>,
    case_sensitive: bool,
    al: Seq<(int, int)>,
) -> (ps: Seq<int>)
    requires
        is_alignment(token_occs(text, tokens, case_sensitive), al),
    ensures
        is_placement(text, tokens, case_sensitive, ps),
        placed_spans(tokens, ps) == al,
{
    let occs = token_occs(text, tokens, case_sensitive);
    let ps = Seq::new(al.len(), |k: int| al[k].0);
    assert(occs.len() == tokens.len() && ps.len() == al.len());
    assert forall|k: int| 0 <= k < al.len() implies tokens[k].len() > 0 && (#[trigger] al[k]).1 == al[k].0
        + tokens[k].len() && 0 <= al[k].0 && al[k].1 <= text.len() && matches_at(
        text,
        tokens[k],
        al[k].0,
        !case_sensitive,
    ) by {
        assert(occs[k] == find_all_from(text, tokens[k], !case_sensitive, 0));
        assert(occs[k].contains(al[k]));
        lemma_listed_occurrence(text, tokens[k], !case_sensitive, al[k]);
    }
    assert forall|k: int| 0 <= k < tokens.len() implies (#[trigger] tokens[k]).len() > 0 by {
        assert(al[k].1 == al[k].0 + tokens[k].len());
    }
    assert forall|k: int|
        0 <= k < ps.len() implies 0 <= #[trigger] ps[k] && ps[k] + tokens[k].len() <= text.len() && matches_at(
            text,
            tokens[k],
            ps[k],
            !case_sensitive,
        ) by {
        assert(ps[k] == al[k].0);
    }
    assert forall|k: int| 1 <= k < ps.len() implies ps[k - 1] + tokens[k - 1].len() <= #[trigger] ps[k] by {
        assert(ps[k] == al[k].0 && ps[k - 1] == al[k - 1].0);
        assert(al[k - 1].1 == al[k - 1].0 + tokens[k - 1].len());
        assert(al[k].0 >= al[k - 1].1);
    }
    assert(placed_spans(tokens, ps) =~= al) by {
        assert forall|k: int| 0 <= k < al.len() implies placed_spans(tokens, ps)[k] == al[k] by {
            assert(al[k].1 == al[k].0 + tokens[k].len());
        }
    }
    assert(is_placement(text, tokens, case_sensitive, ps));
    ps
}

/// Smart search keeps the best placement of the query's tokens in the text:
/// it finds one exactly when the query has a token and the tokens can be
/// placed in order without overlapping; the ranges it returns are such a
/// placement, whose gap sum (the bytes between consecutive placed tokens,
/// summed) is the score it returns (in a text of at most `u32::MAX` bytes,
/// where no sum saturates); and no placement has a smaller gap sum.
#[verifier::rlimit(50)]
pub proof fn law_smart_match_is_best(text: Seq<u8>, tokens: Seq<Seq<u8>>, case_sensitive: bool)
    requires
        text.len() <= u32::MAX,
    ensures
        spec_smart_match(text, tokens, case_sensitive) is Some <==> (tokens.len() > 0 && exists|ps: Seq<int>|
            #[trigger] is_placement(text, tokens, case_sensitive, ps)),
        spec_smart_match(text, tokens, case_sensitive) matches Some((rs, g)) ==> {
            &&& exists|ps: Seq<int>|
                #[trigger] is_placement(text, tokens, case_sensitive, ps) && ranges_of(placed_spans(tokens, ps)) == rs
                    && alignment_gap(placed_spans(tokens, ps)) == g
            &&& forall|ps: Seq<int>|
                #[trigger] is_placement(text, tokens, case_sensitive, ps) ==> g <= alignment_gap(placed_spans(tokens, ps))
        },
{
    let occs = token_occs(text, tokens, case_sensitive);
    lemma_best_alignment(text, tokens, case_sensitive);
    assert forall|ps: Seq<int>| #[trigger] is_placement(text, tokens, case_sensitive, ps) implies is_alignment(
        occs,
        placed_spans(tokens, ps),
    ) by {
        lemma_placement_is_alignment(text, tokens, case_sensitive, ps);
    }
    if spec_smart_match(text, tokens, case_sensitive) is Some {
        let (rs, g) = spec_smart_match(text, tokens, case_sensitive)->0;
        let al = choose|al: Seq<(int, int)>| #[trigger] is_alignment(occs, al) && ranges_of(al) == rs && alignment_gap(al) == g;
        let ps = lemma_alignment_is_placement(text, tokens, case_sensitive, al);
        assert(is_placement(text, tokens, case_sensitive, ps));
    }
    if tokens.len() > 0 && exists|ps: Seq<int>| #[trigger] is_placement(text, tokens, case_sensitive, ps) {
        let ps = choose|ps: Seq<int>| #[trigger] is_placement(text, tokens, case_sensitive, ps);
        assert(is_alignment(occs, placed_spans(tokens, ps)));
    }
}

} // verus!
