//! URL path normalisation for grouping slow requests.

use vstd::prelude::*;
use crate::text::{chars_of, string_from_chars};

verus! {

/// How paths are grouped.
#[derive(Debug, Clone, Copy, PartialEq, Eq, Structural)]
pub enum PathMode {
    /// Numeric / UUID / long-hex segments collapse to `{id}`, query strings
    /// are stripped, a trailing slash is kept.
    Normalised,
    /// Each raw observed path is its own group.
    Raw,
}

/// Index of the first `?` in `raw` at or after `i`, or its length.
pub open spec fn first_question(raw: Seq<char>, i: int) -> int
    decreases raw.len() - i,
{
    if i < 0 || i >= raw.len() {
        raw.len() as int
    } else if raw[i] == '?' {
        i
    } else {
        first_question(raw, i + 1)
    }
}

/// `raw` up to its first `?`.
pub open spec fn strip_query(raw: Seq<char>) -> Seq<char> {
    raw.take(first_question(raw, 0))
}

/// The non-empty `/`-separated segments of `path` from `i` on; `cur` is the
/// segment in progress.
pub open spec fn segments_from(path: Seq<char>, i: int, cur: Seq<char>) -> Seq<Seq<char>>
    decreases path.len() - i,
{
    let done = if cur.len() > 0 {
        seq![cur]
    } else {
        Seq::<Seq<char>>::empty()
    };
    if i < 0 || i >= path.len() {
        done
    } else if path[i] == '/' {
        done + segments_from(path, i + 1, Seq::empty())
    } else {
        segments_from(path, i + 1, cur.push(path[i]))
    }
}

pub open spec fn is_digit_char(c: char) -> bool {
    '0' <= c && c <= '9'
}

pub open spec fn is_hex_char(c: char) -> bool {
    is_digit_char(c) || ('a' <= c && c <= 'f') || ('A' <= c && c <= 'F')
}

/// `8-4-4-4-12` hex digits separated by dashes.
pub open spec fn spec_is_uuid(seg: Seq<char>) -> bool {
    seg.len() == 36 && forall|i: int|
        0 <= i < 36 ==> if i == 8 || i == 13 || i == 18 || i == 23 {
            #[trigger] seg[i] == '-'
        } else {
            is_hex_char(seg[i])
        }
}

/// Twelve or more hex digits.
pub open spec fn spec_is_long_hex(seg: Seq<char>) -> bool {
    seg.len() >= 12 && forall|i: int| 0 <= i < seg.len() ==> is_hex_char(#[trigger] seg[i])
}

pub open spec fn id_placeholder() -> Seq<char> {
    seq!['{', 'i', 'd', '}']
}

/// Numeric, UUID and long-hex segments become `{id}`.
pub open spec fn spec_normalise_segment(seg: Seq<char>) -> Seq<char> {
    if forall|i: int| 0 <= i < seg.len() ==> is_digit_char(#[trigger] seg[i]) {
        id_placeholder()
    } else if spec_is_uuid(seg) || spec_is_long_hex(seg) {
        id_placeholder()
    } else {
        seg
    }
}

/// `segs`, each normalised, joined with `/`.
pub open spec fn join_normalised(segs: Seq<Seq<char>>) -> Seq<char>
    decreases segs.len(),
{
    if segs.len() == 0 {
        Seq::empty()
    } else if segs.len() == 1 {
        spec_normalise_segment(segs[0])
    } else {
        join_normalised(segs.drop_last()) + seq!['/'] + spec_normalise_segment(segs.last())
    }
}

/// The normalised form of `raw`.
pub open spec fn spec_normalise_path(raw: Seq<char>) -> Seq<char> {
    let path = strip_query(raw);
    if path.len() == 0 {
        Seq::empty()
    } else {
        let lead = if path[0] == '/' {
            seq!['/']
        } else {
            Seq::empty()
        };
        let trail = if path.last() == '/' && path.len() > 1 {
            seq!['/']
        } else {
            Seq::empty()
        };
        lead + join_normalised(segments_from(path, 0, Seq::empty())) + trail
    }
}

fn is_digit_ch(c: char) -> (r: bool)
    ensures
        r == is_digit_char(c),
{
    '0' <= c && c <= '9'
}

fn is_hex_ch(c: char) -> (r: bool)
    ensures
        r == is_hex_char(c),
{
    ('0' <= c && c <= '9') || ('a' <= c && c <= 'f') || ('A' <= c && c <= 'F')
}

fn is_uuid(seg: &[char]) -> (r: bool)
    ensures
        r == spec_is_uuid(seg@),
{
    if seg.len() != 36 {
        return false;
    }
    let mut i: usize = 0;
    while i < 36
        invariant
            seg.len() == 36,
            i <= 36,
            forall|k: int|
                0 <= k < i ==> if k == 8 || k == 13 || k == 18 || k == 23 {
                    #[trigger] seg@[k] == '-'
                } else {
                    is_hex_char(seg@[k])
                },
        decreases 36 - i,
    {
        let c = seg[i];
        if i == 8 || i == 13 || i == 18 || i == 23 {
            if c != '-' {
                return false;
            }
        } else if !is_hex_ch(c) {
            return false;
        }
        i += 1;
    }
    true
}

fn is_long_hex(seg: &[char]) -> (r: bool)
    ensures
        r == spec_is_long_hex(seg@),
{
    if seg.len() < 12 {
        return false;
    }
    let mut i: usize = 0;
    while i < seg.len()
        invariant
            i <= seg.len(),
            forall|k: int| 0 <= k < i ==> is_hex_char(#[trigger] seg@[k]),
        decreases seg.len() - i,
    {
        if !is_hex_ch(seg[i]) {
            return false;
        }
        i += 1;
    }
    true
}

fn all_digit_chars(seg: &[char]) -> (r: bool)
    ensures
        r == forall|i: int| 0 <= i < seg@.len() ==> is_digit_char(#[trigger] seg@[i]),
{
    let mut i: usize = 0;
    while i < seg.len()
        invariant
            i <= seg.len(),
            forall|k: int| 0 <= k < i ==> is_digit_char(#[trigger] seg@[k]),
        decreases seg.len() - i,
    {
        if !is_digit_ch(seg[i]) {
            return false;
        }
        i += 1;
    }
    true
}

/// Append the normalised form of `seg` to `out`.
fn push_normalised_segment(out: &mut Vec<char>, seg: &[char])
    ensures
        final(out)@ == old(out)@ + spec_normalise_segment(seg@),
{
    if all_digit_chars(seg) || is_uuid(seg) || is_long_hex(seg) {
        out.push('{');
        out.push('i');
        out.push('d');
        out.push('}');
        assert(final(out)@ =~= old(out)@ + id_placeholder());
    } else {
        let mut i: usize = 0;
        while i < seg.len()
            invariant
                i <= seg.len(),
                out@ =~= old(out)@ + seg@.take(i as int),
            decreases seg.len() - i,
        {
            out.push(seg[i]);
            i += 1;
        }
        assert(seg@.take(seg.len() as int) =~= seg@);
    }
}

/// Normalise a raw URL path for aggregation: strip the query string,
/// collapse numeric / UUID / long-hex segments to `{id}`, drop empty
/// segments, and keep a leading and a trailing slash.
pub fn normalise_path(raw: &str) -> (r: String)
    ensures
        r@ == spec_normalise_path(raw@),
{
    let chars = chars_of(raw);
    let mut q: usize = 0;
    while q < chars.len() && chars[q] != '?'
        invariant
            chars@ == raw@,
            q <= chars.len(),
            first_question(chars@, q as int) == first_question(chars@, 0),
        decreases chars.len() - q,
    {
        q += 1;
    }
    let path = &chars.as_slice()[0..q];
    assert(path@ =~= strip_query(raw@));
    if q == 0 {
        return String::new();
    }
    let ghost p = path@;
    let mut out: Vec<char> = Vec::new();
    if path[0] == '/' {
        out.push('/');
    }
    let ghost lead = out@;
    let ghost done: Seq<Seq<char>> = Seq::empty();
    assert(p.subrange(0, 0) =~= Seq::<char>::empty());
    assert(done + segments_from(p, 0, Seq::empty()) =~= segments_from(p, 0, Seq::empty()));
    assert(out@ =~= lead + join_normalised(done));
    let mut seg_start: usize = 0;
    let mut first = true;
    let mut i: usize = 0;
    while i < path.len()
        invariant
            p == path@,
            seg_start <= i <= path.len(),
            done + segments_from(p, i as int, p.subrange(seg_start as int, i as int)) == segments_from(p, 0, Seq::empty()),
            out@ == lead + join_normalised(done),
            first == (done.len() == 0),
        decreases path.len() - i,
    {
        let ghost cur = p.subrange(seg_start as int, i as int);
        if path[i] == '/' {
            if i > seg_start {
                if !first {
                    out.push('/');
                }
                first = false;
                let seg = &path[seg_start..i];
                assert(seg@ == cur);
                let ghost before = out@;
                push_normalised_segment(&mut out, seg);
                proof {
                    let nd = done.push(cur);
                    assert(nd.drop_last() =~= done);
                    assert(out@ =~= lead + join_normalised(nd));
                    assert(nd + segments_from(p, i + 1, Seq::empty()) =~= done + segments_from(p, i as int, cur));
                    done = nd;
                }
            } else {
                assert(cur =~= Seq::<char>::empty());
                assert(done + segments_from(p, i + 1, Seq::empty()) =~= done + segments_from(p, i as int, cur));
            }
            seg_start = i + 1;
            i += 1;
            assert(p.subrange(seg_start as int, i as int) =~= Seq::<char>::empty());
        } else {
            assert(p.subrange(seg_start as int, i + 1) =~= cur.push(p[i as int]));
            i += 1;
        }
    }
    let ghost cur = p.subrange(seg_start as int, i as int);
    if i > seg_start {
        if !first {
            out.push('/');
        }
        let seg = &path[seg_start..i];
        push_normalised_segment(&mut out, seg);
        proof {
            let nd = done.push(cur);
            assert(nd.drop_last() =~= done);
            assert(out@ =~= lead + join_normalised(nd));
            assert(nd =~= done + segments_from(p, i as int, cur));
            done = nd;
        }
    } else {
        assert(cur =~= Seq::<char>::empty());
        assert(done =~= done + segments_from(p, i as int, cur));
    }
    if path[q - 1] == '/' && q > 1 {
        out.push('/');
    }
    assert(out@ =~= spec_normalise_path(raw@));
    string_from_chars(&out)
}

/// No character of `s` is `/` or `?`.
pub open spec fn plain_chars(s: Seq<char>) -> bool {
    forall|k: int| 0 <= k < s.len() ==> #[trigger] s[k] != '/' && s[k] != '?'
}

proof fn lemma_no_question(path: Seq<char>, i: int)
    requires
        0 <= i,
        forall|k: int| i <= k < path.len() ==> #[trigger] path[k] != '?',
    ensures
        first_question(path, i) == path.len(),
    decreases path.len() - i,
{
    if i < path.len() {
        lemma_no_question(path, i + 1);
    }
}

proof fn lemma_first_question_bound(raw: Seq<char>, i: int)
    requires
        0 <= i <= raw.len(),
    ensures
        i <= first_question(raw, i) <= raw.len(),
        forall|k: int| i <= k < first_question(raw, i) ==> #[trigger] raw[k] != '?',
    decreases raw.len() - i,
{
    if i < raw.len() && raw[i] != '?' {
        lemma_first_question_bound(raw, i + 1);
    }
}

/// The segments found from `i` on, with `cur` in progress, are non-empty
/// and plain when `cur` and the rest of the path hold no `?`.
proof fn lemma_segments_plain(path: Seq<char>, i: int, cur: Seq<char>)
    requires
        0 <= i,
        plain_chars(cur),
        forall|k: int| i <= k < path.len() ==> #[trigger] path[k] != '?',
    ensures
        forall|m: int|
            0 <= m < segments_from(path, i, cur).len() ==> (#[trigger] segments_from(path, i, cur)[m]).len() > 0
                && plain_chars(segments_from(path, i, cur)[m]),
    decreases path.len() - i,
{
    let done = if cur.len() > 0 {
        seq![cur]
    } else {
        Seq::<Seq<char>>::empty()
    };
    if i >= path.len() {
        assert(segments_from(path, i, cur) == done);
    } else {
        if path[i] == '/' {
            lemma_segments_plain(path, i + 1, Seq::empty());
            let rest = segments_from(path, i + 1, Seq::empty());
            assert(segments_from(path, i, cur) == done + rest);
            assert forall|m: int| 0 <= m < (done + rest).len() implies (#[trigger] (done + rest)[m]).len() > 0
                && plain_chars((done + rest)[m]) by {
                if m >= done.len() {
                    assert((done + rest)[m] == rest[m - done.len()]);
                }
            }
        } else {
            let c2 = cur.push(path[i]);
            assert(plain_chars(c2)) by {
                assert forall|k: int| 0 <= k < c2.len() implies #[trigger] c2[k] != '/' && c2[k] != '?' by {
                    if k < cur.len() {
                        assert(c2[k] == cur[k]);
                    }
                }
            }
            lemma_segments_plain(path, i + 1, c2);
            assert(segments_from(path, i, cur) == segments_from(path, i + 1, c2));
        }
    }
}

/// A run of `path` without `/` from `i` to `j` only grows the segment in
/// progress.
proof fn lemma_segments_skip(path: Seq<char>, i: int, cur: Seq<char>, j: int)
    requires
        0 <= i <= j <= path.len(),
        forall|k: int| i <= k < j ==> #[trigger] path[k] != '/',
    ensures
        segments_from(path, i, cur) == segments_from(path, j, cur + path.subrange(i, j)),
    decreases j - i,
{
    if i == j {
        assert(cur + path.subrange(i, j) =~= cur);
    } else {
        lemma_segments_skip(path, i + 1, cur.push(path[i]), j);
        assert(cur.push(path[i]) + path.subrange(i + 1, j) =~= cur + path.subrange(i, j));
    }
}

/// `segs` joined with `/`.
pub open spec fn join_segments(segs: Seq<Seq<char>>) -> Seq<char>
    decreases segs.len(),
{
    if segs.len() == 0 {
        Seq::empty()
    } else if segs.len() == 1 {
        segs[0]
    } else {
        join_segments(segs.drop_last()) + seq!['/'] + segs.last()
    }
}

proof fn lemma_join_normalised(segs: Seq<Seq<char>>)
    ensures
        join_normalised(segs) == join_segments(segs.map_values(|s: Seq<char>| spec_normalise_segment(s))),
    decreases segs.len(),
{
    let f = |s: Seq<char>| spec_normalise_segment(s);
    if segs.len() > 1 {
        lemma_join_normalised(segs.drop_last());
        assert(segs.map_values(f).drop_last() =~= segs.drop_last().map_values(f));
    }
}

proof fn lemma_join_front(segs: Seq<Seq<char>>)
    requires
        segs.len() >= 2,
    ensures
        join_segments(segs) == segs[0] + seq!['/'] + join_segments(segs.drop_first()),
    decreases segs.len(),
{
    if segs.len() == 2 {
        assert(join_segments(segs.drop_last()) == segs[0]);
        assert(join_segments(segs.drop_first()) == segs[1]);
        assert(join_segments(segs) =~= segs[0] + seq!['/'] + join_segments(segs.drop_first()));
    } else {
        let a = segs.drop_last();
        let b = segs.drop_first();
        lemma_join_front(a);
        assert(a.drop_first() =~= b.drop_last());
        assert(b.last() == segs.last());
        assert(a[0] == segs[0]);
        assert(join_segments(segs) == join_segments(a) + seq!['/'] + segs.last());
        assert(join_segments(b) == join_segments(b.drop_last()) + seq!['/'] + b.last());
        assert(join_segments(segs) =~= segs[0] + seq!['/'] + join_segments(segs.drop_first()));
    }
}

/// Reading back segments joined with `/` (and an optional trailing `/`)
/// gives the segments.
proof fn lemma_segments_of_join(path: Seq<char>, i: int, segs: Seq<Seq<char>>, trail: Seq<char>)
    requires
        0 <= i <= path.len(),
        segs.len() > 0,
        forall|m: int| 0 <= m < segs.len() ==> (#[trigger] segs[m]).len() > 0 && plain_chars(segs[m]),
        trail == Seq::<char>::empty() || trail == seq!['/'],
        path.subrange(i, path.len() as int) == join_segments(segs) + trail,
    ensures
        segments_from(path, i, Seq::empty()) == segs,
    decreases segs.len(),
{
    let s0 = segs[0];
    let j = i + s0.len();
    assert(segs[0].len() > 0 && plain_chars(segs[0]));
    let rest = segs.drop_first();
    let x = join_segments(rest) + trail;
    let after = if segs.len() == 1 {
        trail
    } else {
        seq!['/'] + x
    };
    if segs.len() == 1 {
        assert(join_segments(segs) == s0);
    } else {
        lemma_join_front(segs);
    }
    let tail = path.subrange(i, path.len() as int);
    assert(tail =~= s0 + after);
    assert(tail.len() == path.len() - i);
    assert(j <= path.len());
    assert forall|k: int| i <= k < j implies #[trigger] path[k] != '/' by {
        assert(tail[k - i] == path[k]);
        assert((s0 + after)[k - i] == s0[k - i]);
    }
    lemma_segments_skip(path, i, Seq::empty(), j);
    assert(path.subrange(i, j) =~= s0) by {
        assert forall|k: int| 0 <= k < s0.len() implies path.subrange(i, j)[k] == s0[k] by {
            assert(tail[k] == path[i + k]);
            assert((s0 + after)[k] == s0[k]);
        }
    }
    assert(Seq::<char>::empty() + s0 =~= s0);
    if segs.len() == 1 {
        if trail.len() == 0 {
            assert(j == path.len());
        } else {
            assert(j == path.len() - 1);
            assert(tail[j - i] == path[j]);
            assert((s0 + after)[j - i] == trail[0]);
            assert(segments_from(path, j + 1, Seq::empty()) == Seq::<Seq<char>>::empty());
        }
        assert(segments_from(path, j, s0) =~= segs);
    } else {
        assert(tail[j - i] == path[j]);
        assert((s0 + after)[j - i] == after[0]);
        assert(path[j] == '/');
        assert forall|m: int| 0 <= m < rest.len() implies (#[trigger] rest[m]).len() > 0 && plain_chars(rest[m]) by {
            assert(rest[m] == segs[m + 1]);
        }
        assert(path.subrange(j + 1, path.len() as int) =~= x) by {
            assert forall|k: int| 0 <= k < x.len() implies path.subrange(j + 1, path.len() as int)[k] == x[k] by {
                assert(tail[s0.len() + 1 + k] == path[j + 1 + k]);
                assert((s0 + after)[s0.len() + 1 + k] == after[1 + k]);
                assert(after[1 + k] == x[k]);
            }
        }
        lemma_segments_of_join(path, j + 1, rest, trail);
        assert(segments_from(path, j, s0) =~= seq![s0] + rest);
        assert(seq![s0] + rest =~= segs);
    }
}

proof fn lemma_normalise_segment(seg: Seq<char>)
    requires
        seg.len() > 0,
        plain_chars(seg),
    ensures
        spec_normalise_segment(seg).len() > 0,
        plain_chars(spec_normalise_segment(seg)),
        spec_normalise_segment(spec_normalise_segment(seg)) == spec_normalise_segment(seg),
{
    let id = id_placeholder();
    assert(!is_digit_char(id[0]));
    assert(!is_hex_char(id[0]));
    assert(!spec_is_uuid(id));
    assert(!spec_is_long_hex(id));
    assert(plain_chars(id));
}

proof fn lemma_join_shape(segs: Seq<Seq<char>>)
    requires
        segs.len() > 0,
        forall|m: int| 0 <= m < segs.len() ==> (#[trigger] segs[m]).len() > 0 && plain_chars(segs[m]),
    ensures
        join_segments(segs).len() > 0,
        join_segments(segs)[0] == segs[0][0],
        join_segments(segs).last() == segs.last().last(),
        forall|k: int| 0 <= k < join_segments(segs).len() ==> #[trigger] join_segments(segs)[k] != '?',
    decreases segs.len(),
{
    assert(segs[0].len() > 0 && plain_chars(segs[0]));
    assert(segs.last().len() > 0 && plain_chars(segs.last()));
    if segs.len() > 1 {
        let a = segs.drop_last();
        assert forall|m: int| 0 <= m < a.len() implies (#[trigger] a[m]).len() > 0 && plain_chars(a[m]) by {
            assert(a[m] == segs[m]);
        }
        lemma_join_shape(a);
        let j = join_segments(segs);
        let ja = join_segments(a);
        assert(j == ja + seq!['/'] + segs.last());
        assert forall|k: int| 0 <= k < j.len() implies #[trigger] j[k] != '?' by {
            if k < ja.len() {
                assert(j[k] == ja[k]);
            } else if k > ja.len() {
                assert(j[k] == segs.last()[k - ja.len() - 1]);
            }
        }
    }
}

/// The segments of a path: its non-empty `/`-separated parts.
pub open spec fn path_segments(path: Seq<char>) -> Seq<Seq<char>> {
    segments_from(path, 0, Seq::empty())
}

/// Normalising a path twice gives what normalising it once gives, and the
/// normalised path has the segments of the path (query string removed),
/// each normalised.
pub proof fn law_normalise_path_idempotent(raw: Seq<char>)
    ensures
        spec_normalise_path(spec_normalise_path(raw)) == spec_normalise_path(raw),
        path_segments(spec_normalise_path(raw)) == path_segments(strip_query(raw)).map_values(
            |s: Seq<char>| spec_normalise_segment(s),
        ),
{
    let f = |s: Seq<char>| spec_normalise_segment(s);
    lemma_first_question_bound(raw, 0);
    let path0 = strip_query(raw);
    assert forall|k: int| 0 <= k < path0.len() implies #[trigger] path0[k] != '?' by {
        assert(path0[k] == raw[k]);
    }
    let n1 = spec_normalise_path(raw);
    let segs = path_segments(path0);
    lemma_segments_plain(path0, 0, Seq::empty());
    let norm = segs.map_values(f);
    if path0.len() == 0 {
        assert(n1 == Seq::<char>::empty());
        assert(strip_query(n1) =~= n1);
        assert(path_segments(n1) == Seq::<Seq<char>>::empty());
        assert(segments_from(path0, 0, Seq::empty()) == Seq::<Seq<char>>::empty());
        assert(norm =~= Seq::<Seq<char>>::empty());
        return;
    }
    let lead = if path0[0] == '/' {
        seq!['/']
    } else {
        Seq::<char>::empty()
    };
    let trail = if path0.last() == '/' && path0.len() > 1 {
        seq!['/']
    } else {
        Seq::<char>::empty()
    };
    lemma_join_normalised(segs);
    assert forall|m: int| 0 <= m < norm.len() implies (#[trigger] norm[m]).len() > 0 && plain_chars(norm[m])
        && f(norm[m]) == norm[m] by {
        assert(segs[m].len() > 0 && plain_chars(segs[m]));
        lemma_normalise_segment(segs[m]);
    }
    assert(norm.map_values(f) =~= norm);
    lemma_join_normalised(norm);
    let j = join_segments(norm);
    assert(n1 == lead + j + trail);
    if norm.len() == 0 {
        assert(j == Seq::<char>::empty());
        assert(n1 =~= lead + trail);
        assert(lead.len() == 1) by {
            if path0[0] != '/' {
                lemma_segments_skip(path0, 0, Seq::empty(), 1);
                assert(Seq::<char>::empty() + path0.subrange(0, 1) =~= seq![path0[0]]);
                assert(segments_from(path0, 1, seq![path0[0]]).len() > 0) by {
                    lemma_segments_nonempty(path0, 1, seq![path0[0]]);
                }
            }
        }
        reveal_with_fuel(segments_from, 4);
        reveal_with_fuel(first_question, 4);
        if trail.len() == 0 {
            assert(n1 =~= seq!['/']);
            assert(strip_query(n1) =~= n1);
            assert(path_segments(n1) =~= Seq::<Seq<char>>::empty());
        } else {
            assert(n1 =~= seq!['/', '/']);
            assert(strip_query(n1) =~= n1);
            assert(path_segments(n1) =~= Seq::<Seq<char>>::empty());
        }
    } else {
        lemma_join_shape(norm);
        assert forall|k: int| 0 <= k < n1.len() implies #[trigger] n1[k] != '?' by {
            if k >= lead.len() && k < lead.len() + j.len() {
                assert(n1[k] == j[k - lead.len()]);
            }
        }
        lemma_no_question(n1, 0);
        assert(strip_query(n1) =~= n1);
        assert(norm[0].len() > 0 && plain_chars(norm[0]));
        assert(norm.last().len() > 0 && plain_chars(norm.last()));
        assert(j[0] != '/');
        assert(j.last() != '/');
        if lead.len() == 1 {
            assert(n1[0] == '/');
            assert(n1.subrange(1, n1.len() as int) =~= j + trail);
            lemma_segments_of_join(n1, 1, norm, trail);
            assert(segments_from(n1, 0, Seq::empty()) == Seq::<Seq<char>>::empty() + segments_from(n1, 1, Seq::empty()));
            assert(path_segments(n1) =~= norm);
        } else {
            assert(n1[0] == j[0]);
            assert(n1.subrange(0, n1.len() as int) =~= j + trail);
            lemma_segments_of_join(n1, 0, norm, trail);
        }
        if trail.len() == 1 {
            assert(n1.last() == '/' && n1.len() > 1);
        } else {
            assert(n1.last() == j.last());
        }
        assert(spec_normalise_path(n1) == lead + join_normalised(norm) + trail);
    }
}

/// A segment made only of ASCII digits, of any length, becomes `{id}`.
pub proof fn law_numeric_segment_is_id(seg: Seq<char>)
    requires
        seg.len() > 0,
        forall|i: int| 0 <= i < seg.len() ==> '0' <= #[trigger] seg[i] <= '9',
    ensures
        spec_normalise_segment(seg) == seq!['{', 'i', 'd', '}'],
{
    assert forall|i: int| 0 <= i < seg.len() implies is_digit_char(#[trigger] seg[i]) by {}
}

/// In a normalised path, the segment in the place of an all-digit segment
/// of the path (query string removed) reads `{id}`: `/order/7/edit` and
/// `/order/8/edit` normalise alike.
pub proof fn law_numeric_path_segments_become_id(raw: Seq<char>, k: int)
    requires
        0 <= k < path_segments(strip_query(raw)).len(),
        path_segments(strip_query(raw))[k].len() > 0,
        forall|i: int|
            0 <= i < path_segments(strip_query(raw))[k].len() ==> '0' <= #[trigger] path_segments(
                strip_query(raw),
            )[k][i] <= '9',
    ensures
        k < path_segments(spec_normalise_path(raw)).len(),
        path_segments(spec_normalise_path(raw))[k] == seq!['{', 'i', 'd', '}'],
{
    law_normalise_path_idempotent(raw);
    law_numeric_segment_is_id(path_segments(strip_query(raw))[k]);
}

/// A segment of twelve or more hex digits (either case) becomes `{id}`.
pub proof fn law_long_hex_segment_is_id(seg: Seq<char>)
    requires
        seg.len() >= 12,
        forall|i: int|
            0 <= i < seg.len() ==> ('0' <= #[trigger] seg[i] <= '9' || 'a' <= seg[i] <= 'f' || 'A' <= seg[i] <= 'F'),
    ensures
        spec_normalise_segment(seg) == seq!['{', 'i', 'd', '}'],
{
    assert forall|i: int| 0 <= i < seg.len() implies is_hex_char(#[trigger] seg[i]) by {}
}

/// A UUID segment (`8-4-4-4-12` hex digits) becomes `{id}`.
pub proof fn law_uuid_segment_is_id(seg: Seq<char>)
    requires
        seg.len() == 36,
        seg[8] == '-' && seg[13] == '-' && seg[18] == '-' && seg[23] == '-',
        forall|i: int|
            0 <= i < 36 && i != 8 && i != 13 && i != 18 && i != 23 ==> ('0' <= #[trigger] seg[i] <= '9' || 'a'
                <= seg[i] <= 'f' || 'A' <= seg[i] <= 'F'),
    ensures
        spec_normalise_segment(seg) == seq!['{', 'i', 'd', '}'],
{
    assert(spec_is_uuid(seg));
}

/// A segment holding a character that is neither a hex digit nor `-` is
/// kept as it is, and so is a short one (under twelve characters) holding
/// anything but digits: `/order/7/edit` keeps `order` and `edit`.
pub proof fn law_word_segment_kept(seg: Seq<char>, i: int)
    requires
        0 <= i < seg.len(),
        !('0' <= seg[i] <= '9'),
        seg.len() < 12 || !('a' <= seg[i] <= 'f' || 'A' <= seg[i] <= 'F' || seg[i] == '-'),
    ensures
        spec_normalise_segment(seg) == seg,
{
    assert(!is_digit_char(seg[i]));
    if spec_is_uuid(seg) {
        if i == 8 || i == 13 || i == 18 || i == 23 {
            assert(seg[i] == '-');
        } else {
            assert(is_hex_char(seg[i]));
        }
    }
    if spec_is_long_hex(seg) {
        assert(is_hex_char(seg[i]));
    }
}

proof fn lemma_segments_nonempty(path: Seq<char>, i: int, cur: Seq<char>)
    requires
        cur.len() > 0,
    ensures
        segments_from(path, i, cur).len() > 0,
    decreases path.len() - i,
{
    if 0 <= i < path.len() && path[i] != '/' {
        lemma_segments_nonempty(path, i + 1, cur.push(path[i]));
    }
}

} // verus!
