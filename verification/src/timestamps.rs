//! Record timestamps: the `YYYY-MM-DD HH:MM:SS.sss` text a header's
//! timestamp field covers, read as milliseconds on a simplified calendar
//! (372-day years of 31-day months) that orders timestamps correctly.

use vstd::prelude::*;
use vstd::string::StringSliceAdditionalSpecFns;
use vstd::utf8::{is_char_boundary, valid_utf8, decode_utf8, encode_utf8};
use crate::bytes::{all_digits, is_digit};
use crate::pattern::digits_value;
use crate::record::RecordHeader;
use crate::text::str_from_utf8;

verus! {

/// `i64::from_str` on a field of at most four bytes: an optional `+` or
/// `-`, then at least one ASCII digit.
pub open spec fn spec_parse_short_i64(b: Seq<u8>) -> Option<int> {
    let signed = b.len() > 0 && (b[0] == 43 || b[0] == 45);
    let d = if signed {
        b.skip(1)
    } else {
        b
    };
    if d.len() > 0 && all_digits(d) {
        Some(
            if signed && b[0] == 45 {
                -(digits_value(d) as int)
            } else {
                digits_value(d) as int
            },
        )
    } else {
        None
    }
}

fn parse_short_i64(b: &[u8]) -> (r: Option<i64>)
    requires
        b.len() <= 4,
    ensures
        r matches Some(v) ==> spec_parse_short_i64(b@) == Some(v as int),
        r is None ==> spec_parse_short_i64(b@) is None,
{
    let signed = b.len() > 0 && (b[0] == 43u8 || b[0] == 45u8);
    let neg = signed && b[0] == 45u8;
    let start: usize = if signed {
        1
    } else {
        0
    };
    let d = &b[start..b.len()];
    assert(d@ =~= if signed {
        b@.skip(1)
    } else {
        b@
    });
    if d.len() == 0 {
        return None;
    }
    let mut v: i64 = 0;
    let mut i: usize = 0;
    while i < d.len()
        invariant
            d.len() <= 4,
            signed == (b@.len() > 0 && (b@[0] == 43 || b@[0] == 45)),
            d@ == if signed {
                b@.skip(1)
            } else {
                b@
            },
            i <= d.len(),
            all_digits(d@.take(i as int)),
            v == digits_value(d@.take(i as int)),
            v <= 9999,
            i < 4 ==> v <= 999,
            i < 3 ==> v <= 99,
            i < 2 ==> v <= 9,
            i < 1 ==> v == 0,
        decreases d.len() - i,
    {
        let c = d[i];
        if !(48u8 <= c && c <= 57u8) {
            assert(!all_digits(d@)) by {
                assert(!is_digit(d@[i as int]));
            }
            assert(spec_parse_short_i64(b@) is None);
            return None;
        }
        proof {
            assert(d@.take(i + 1).drop_last() =~= d@.take(i as int));
            assert(d@.take(i + 1).last() == c);
        }
        v = v * 10 + (c - 48u8) as i64;
        i += 1;
    }
    assert(d@.take(d.len() as int) =~= d@);
    if neg {
        Some(-v)
    } else {
        Some(v)
    }
}

/// Start and end of the `k`-th field of `YYYY-MM-DD HH:MM:SS.sss`.
pub open spec fn ts_field(k: int) -> (int, int) {
    if k == 0 {
        (0, 4)
    } else if k == 1 {
        (5, 7)
    } else if k == 2 {
        (8, 10)
    } else if k == 3 {
        (11, 13)
    } else if k == 4 {
        (14, 16)
    } else if k == 5 {
        (17, 19)
    } else {
        (20, 23)
    }
}

/// The value of the `k`-th field of `b`.
pub open spec fn ts_field_value(b: Seq<u8>, k: int) -> Option<int> {
    spec_parse_short_i64(b.subrange(ts_field(k).0, ts_field(k).1))
}

/// Reading the fields from the `k`-th on, in order, reaches a field that
/// is not cut on character boundaries before a field that fails to parse:
/// slicing the text there would split a character.
pub open spec fn ts_splits_char_from(b: Seq<u8>, k: nat) -> bool
    decreases 7 - k,
{
    if k >= 7 {
        false
    } else if !is_char_boundary(b, ts_field(k as int).0) || !is_char_boundary(b, ts_field(k as int).1) {
        true
    } else if ts_field_value(b, k as int) is None {
        false
    } else {
        ts_splits_char_from(b, k + 1)
    }
}

/// Parsing the 23 bytes `b` would slice through a character.
pub open spec fn ts_splits_char(b: Seq<u8>) -> bool {
    b.len() == 23 && ts_splits_char_from(b, 0)
}

/// Milliseconds of `YYYY-MM-DD HH:MM:SS.sss` on the simplified calendar.
pub open spec fn ts_millis(y: int, mo: int, d: int, h: int, mi: int, s: int, ms: int) -> int {
    ((y * 372 + (mo - 1) * 31 + (d - 1)) * 86_400 + h * 3600 + mi * 60 + s) * 1000 + ms
}

/// What parsing `b` as `YYYY-MM-DD HH:MM:SS.sss` gives: `None` unless it is
/// 23 bytes whose seven number fields all parse (the separators may be
/// anything).
pub open spec fn spec_parse_ts(b: Seq<u8>) -> Option<int> {
    if b.len() != 23 {
        None
    } else {
        match (
            ts_field_value(b, 0),
            ts_field_value(b, 1),
            ts_field_value(b, 2),
            ts_field_value(b, 3),
            ts_field_value(b, 4),
            ts_field_value(b, 5),
            ts_field_value(b, 6),
        ) {
            (Some(y), Some(mo), Some(d), Some(h), Some(mi), Some(s), Some(ms)) => Some(
                ts_millis(y, mo, d, h, mi, s, ms),
            ),
            _ => None,
        }
    }
}

/// Whether `parse_yyyy_mm_dd_hh_mm_ss_sss` would slice `s` through a
/// character (callers test this before parsing text of unknown shape).
pub fn ts_would_split_char(s: &str) -> (r: bool)
    ensures
        r == ts_splits_char(s.spec_bytes()),
{
    let b = s.as_bytes();
    if b.len() != 23 {
        return false;
    }
    let mut k: usize = 0;
    while k < 7
        invariant
            b@ == s.spec_bytes(),
            b@.len() == 23,
            k <= 7,
            ts_splits_char(s.spec_bytes()) == ts_splits_char_from(b@, k as nat),
        decreases 7 - k,
    {
        let (a, e): (usize, usize) = if k == 0 {
            (0, 4)
        } else if k == 1 {
            (5, 7)
        } else if k == 2 {
            (8, 10)
        } else if k == 3 {
            (11, 13)
        } else if k == 4 {
            (14, 16)
        } else if k == 5 {
            (17, 19)
        } else {
            (20, 23)
        };
        if !s.is_char_boundary(a) || !s.is_char_boundary(e) {
            return true;
        }
        match parse_short_i64(&b[a..e]) {
            None => {
                return false;
            },
            Some(_) => {},
        }
        k += 1;
    }
    false
}

fn field_at(b: &[u8], a: usize, e: usize, k: Ghost<int>) -> (r: Option<i64>)
    requires
        b@.len() == 23,
        ts_field(k@) == (a as int, e as int),
        0 <= k@ < 7,
    ensures
        r matches Some(v) ==> ts_field_value(b@, k@) == Some(v as int) && -9999 <= v <= 9999,
        r is None ==> ts_field_value(b@, k@) is None,
{
    let t = &b[a..e];
    let r = parse_short_i64(t);
    proof {
        assert(t@ == b@.subrange(a as int, e as int));
        if let Some(v) = r {
            lemma_short_field_bound(b@.subrange(a as int, e as int));
        }
    }
    r
}

proof fn lemma_short_field_bound(t: Seq<u8>)
    requires
        t.len() <= 4,
        spec_parse_short_i64(t) is Some,
    ensures
        -9999 <= spec_parse_short_i64(t).unwrap() <= 9999,
{
    let signed = t.len() > 0 && (t[0] == 43 || t[0] == 45);
    let d = if signed {
        t.skip(1)
    } else {
        t
    };
    lemma_digits_value_bound(d);
}

proof fn lemma_digits_value_bound(d: Seq<u8>)
    requires
        d.len() <= 4,
        all_digits(d),
    ensures
        digits_value(d) <= 9999,
        d.len() <= 3 ==> digits_value(d) <= 999,
        d.len() <= 2 ==> digits_value(d) <= 99,
        d.len() <= 1 ==> digits_value(d) <= 9,
        d.len() == 0 ==> digits_value(d) == 0,
    decreases d.len(),
{
    if d.len() > 0 {
        lemma_digits_value_bound(d.drop_last());
        assert(is_digit(d[d.len() - 1]));
    }
}

/// Read `s`, exactly 23 bytes shaped `YYYY-MM-DD HH:MM:SS.sss`, as
/// milliseconds on the simplified calendar: each number field is read as
/// `i64::from_str` reads it; any other text gives `None`.
pub fn parse_yyyy_mm_dd_hh_mm_ss_sss(s: &str) -> (r: Option<i64>)
    requires
        !ts_splits_char(s.spec_bytes()),
    ensures
        r matches Some(v) ==> spec_parse_ts(s.spec_bytes()) == Some(v as int),
        r is None ==> spec_parse_ts(s.spec_bytes()) is None,
{
    let b = s.as_bytes();
    if b.len() != 23 {
        return None;
    }
    let year = match field_at(b, 0, 4, Ghost(0)) {
        Some(v) => v,
        None => return None,
    };
    let month = match field_at(b, 5, 7, Ghost(1)) {
        Some(v) => v,
        None => return None,
    };
    let day = match field_at(b, 8, 10, Ghost(2)) {
        Some(v) => v,
        None => return None,
    };
    let hour = match field_at(b, 11, 13, Ghost(3)) {
        Some(v) => v,
        None => return None,
    };
    let min = match field_at(b, 14, 16, Ghost(4)) {
        Some(v) => v,
        None => return None,
    };
    let sec = match field_at(b, 17, 19, Ghost(5)) {
        Some(v) => v,
        None => return None,
    };
    let ms = match field_at(b, 20, 23, Ghost(6)) {
        Some(v) => v,
        None => return None,
    };
    assert(-9999 * 372 <= year * 372 <= 9999 * 372) by (nonlinear_arith)
        requires
            -9999 <= year <= 9999,
    ;
    let days = year * 372 + (month - 1) * 31 + (day - 1);
    assert(-5_000_000 * 86_400 <= days * 86_400 <= 5_000_000 * 86_400) by (nonlinear_arith)
        requires
            -5_000_000 <= days <= 5_000_000,
    ;
    let secs = days * 86_400 + hour * 3600 + min * 60 + sec;
    assert(-500_000_000_000 * 1000 <= secs * 1000 <= 500_000_000_000 * 1000) by (nonlinear_arith)
        requires
            -500_000_000_000 <= secs <= 500_000_000_000,
    ;
    Some(secs * 1000 + ms)
}

/// What `extract_record_timestamp_ms` reads: the bytes the record's
/// timestamp field covers, when it has one that lies inside `bytes`.
pub open spec fn timestamp_slice(rec: RecordHeader, bytes: Seq<u8>) -> Option<Seq<u8>> {
    match rec.fields.timestamp {
        None => None,
        Some((s, e)) => if rec.byte_offset > usize::MAX {
            None
        } else {
            let start = if rec.byte_offset + s <= usize::MAX {
                rec.byte_offset + s
            } else {
                usize::MAX as int
            };
            let end = if rec.byte_offset + e <= usize::MAX {
                rec.byte_offset + e
            } else {
                usize::MAX as int
            };
            if start <= end && end <= bytes.len() {
                Some(bytes.subrange(start, end))
            } else {
                None
            }
        },
    }
}

/// The record's timestamp in milliseconds: its timestamp field's bytes,
/// when they are UTF-8, parsed as `YYYY-MM-DD HH:MM:SS.sss`.
pub fn extract_record_timestamp_ms(rec: &RecordHeader, bytes: &[u8]) -> (r: Option<i64>)
    requires
        timestamp_slice(*rec, bytes@) matches Some(t) ==> !(valid_utf8(t) && ts_splits_char(t)),
    ensures
        r matches Some(v) ==> timestamp_slice(*rec, bytes@) matches Some(t) && valid_utf8(t)
            && spec_parse_ts(t) == Some(v as int),
        r is None ==> match timestamp_slice(*rec, bytes@) {
            Some(t) => !valid_utf8(t) || spec_parse_ts(t) is None,
            None => true,
        },
{
    let (s, e) = match rec.fields.timestamp {
        Some(span) => span,
        None => return None,
    };
    if rec.byte_offset > usize::MAX as u64 {
        return None;
    }
    let base = rec.byte_offset as usize;
    let start = base.saturating_add(s as usize);
    let end = base.saturating_add(e as usize);
    if start > end || end > bytes.len() {
        return None;
    }
    let slice = &bytes[start..end];
    let text = match str_from_utf8(slice) {
        Some(t) => t,
        None => return None,
    };
    proof {
        vstd::utf8::decode_utf8_encode_utf8(slice@);
        assert(text.spec_bytes() == slice@);
    }
    parse_yyyy_mm_dd_hh_mm_ss_sss(text)
}

} // verus!
