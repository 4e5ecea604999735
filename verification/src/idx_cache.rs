//! Framing of the on-disk index cache. A cache file is a fixed header that
//! fingerprints the indexed file and the pattern it was indexed with,
//! followed by the encoded body:
//!
//! ```text
//! magic        6 bytes  "CLOGIX"
//! schema       u16 LE   1
//! pad          2 bytes
//! file_size    u64 LE
//! mtime_ns     i128 LE  (two's complement)
//! pattern_hash 32 bytes (BLAKE3 of the pattern source)
//! body         the rest
//! ```
//!
//! A cache hits only when every fingerprint field matches; anything else is
//! a miss and the caller re-indexes.

use vstd::prelude::*;
use vstd::string::StringSliceAdditionalSpecFns;
use crate::index::LineIndex;
use crate::text::string_from_chars;
use crate::record::RecordHeader;

verus! {

/// Version of the cache format.
pub const SCHEMA_VERSION: u16 = 1;

/// Length of the header in bytes.
pub const HEADER_LEN: usize = 66;

/// The bytes of `CLOGIX`.
pub open spec fn lit_magic() -> Seq<u8> {
    seq![67u8, 76u8, 79u8, 71u8, 73u8, 88u8]
}

pub const LIT_MAGIC: [u8; 6] = [67u8, 76u8, 79u8, 71u8, 73u8, 88u8];

/// The BLAKE3 digest of `data`.
pub uninterp spec fn blake3_digest(data: Seq<u8>) -> Seq<u8>;

/// `blake3::hash(data)` as its 32 bytes. Claimed: the bytes are what
/// `blake3_digest` names for `data`.
#[verifier::external_body]
fn blake3_hash(data: &[u8]) -> (r: [u8; 32])
    ensures
        r@ == blake3_digest(data@),
{
    blake3::hash(data).into()
}

/// What a cache header records about the indexed file and its pattern.
#[derive(Debug, Clone, Copy)]
pub struct CacheFingerprint {
    pub file_size: u64,
    /// Last modification, nanoseconds from the Unix epoch (negative before it).
    pub mtime_ns: i128,
    /// BLAKE3 of the pattern source the file was indexed with.
    pub pattern_hash: [u8; 32],
}

impl CacheFingerprint {
    /// The fingerprint of a file of `file_size` bytes last modified at
    /// `mtime_ns`, indexed with `pattern_source`.
    pub fn new(file_size: u64, mtime_ns: i128, pattern_source: &str) -> (r: CacheFingerprint)
        ensures
            r.file_size == file_size,
            r.mtime_ns == mtime_ns,
            r.pattern_hash@ == blake3_digest(pattern_source.spec_bytes()),
    {
        CacheFingerprint { file_size, mtime_ns, pattern_hash: blake3_hash(pattern_source.as_bytes()) }
    }
}

/// The first eight bytes of the pattern source's BLAKE3, little-endian: a
/// cheap tag of the pattern a derived cache was built with.
pub fn pattern_hash(pattern_source: &str) -> (r: u64)
    ensures
        r == le_value(blake3_digest(pattern_source.spec_bytes()).take(8)),
{
    let h = blake3_hash(pattern_source.as_bytes());
    let first = &h.as_slice()[0..8];
    proof {
        assert(first@ =~= h@.take(8));
        lemma_le_value_bound(first@);
        lemma_pow256_values();
    }
    decode_le(first) as u64
}

/// Result of a cache lookup.
#[derive(Debug)]
pub enum LoadOutcome {
    /// The cache matched; its index and records can be used as is.
    Hit { line_index: LineIndex, records: Vec<RecordHeader> },
    /// Absent, unreadable, of another schema or stale: re-index.
    Miss,
}

/// `256^n`.
pub open spec fn pow256(n: nat) -> nat
    decreases n,
{
    if n == 0 {
        1
    } else {
        256 * pow256((n - 1) as nat)
    }
}

/// The number the little-endian bytes `b` encode.
pub open spec fn le_value(b: Seq<u8>) -> nat
    decreases b.len(),
{
    if b.len() == 0 {
        0
    } else {
        b[0] as nat + 256 * le_value(b.drop_first())
    }
}

/// The `n` little-endian bytes of `x` (its low `n` bytes).
pub open spec fn le_bytes(x: nat, n: nat) -> Seq<u8>
    decreases n,
{
    if n == 0 {
        Seq::empty()
    } else {
        seq![(x % 256) as u8] + le_bytes(x / 256, (n - 1) as nat)
    }
}

/// `x` as the unsigned number its 128-bit two's complement encodes.
pub open spec fn twos128(x: i128) -> nat {
    if x >= 0 {
        x as nat
    } else {
        (x + pow256(16)) as nat
    }
}

/// The signed 128-bit number whose two's complement is `v`.
pub open spec fn from_twos128(v: nat) -> int {
    if v >= pow256(16) / 2 {
        v - pow256(16)
    } else {
        v as int
    }
}

proof fn lemma_pow256_values()
    ensures
        pow256(2) == 0x1_0000,
        pow256(8) == 0x1_0000_0000_0000_0000,
        pow256(16) == 0x1_0000_0000_0000_0000_0000_0000_0000_0000,
{
    reveal_with_fuel(pow256, 17);
}

proof fn lemma_le_value_bound(b: Seq<u8>)
    ensures
        le_value(b) < pow256(b.len()),
    decreases b.len(),
{
    if b.len() > 0 {
        lemma_le_value_bound(b.drop_first());
    }
}

/// Reading back the low `n` bytes of a number that fits them gives it back.
pub proof fn lemma_le_roundtrip(x: nat, n: nat)
    requires
        x < pow256(n),
    ensures
        le_bytes(x, n).len() == n,
        le_value(le_bytes(x, n)) == x,
    decreases n,
{
    if n > 0 {
        assert(x / 256 < pow256((n - 1) as nat));
        lemma_le_roundtrip(x / 256, (n - 1) as nat);
        let b = le_bytes(x, n);
        assert(b.drop_first() =~= le_bytes(x / 256, (n - 1) as nat));
    }
}

fn encode_le(x: u128, n: usize) -> (r: Vec<u8>)
    requires
        n <= 16,
    ensures
        r@ == le_bytes(x as nat, n as nat),
{
    let mut out: Vec<u8> = Vec::new();
    let mut v = x;
    let mut i: usize = 0;
    while i < n
        invariant
            i <= n,
            out@ + le_bytes(v as nat, (n - i) as nat) == le_bytes(x as nat, n as nat),
        decreases n - i,
    {
        proof {
            assert(le_bytes(v as nat, (n - i) as nat) == seq![(v % 256) as u8] + le_bytes(
                (v / 256) as nat,
                (n - i - 1) as nat,
            ));
            assert(out@.push((v % 256) as u8) + le_bytes((v / 256) as nat, (n - i - 1) as nat)
                =~= out@ + le_bytes(v as nat, (n - i) as nat));
        }
        out.push((v % 256) as u8);
        v = v / 256;
        i += 1;
    }
    assert(out@ + le_bytes(v as nat, 0) =~= out@);
    out
}

fn decode_le(b: &[u8]) -> (r: u128)
    requires
        b.len() <= 16,
    ensures
        r == le_value(b@),
{
    proof {
        lemma_pow256_values();
        lemma_le_value_bound(b@);
    }
    let mut v: u128 = 0;
    let mut i: usize = b.len();
    while i > 0
        invariant
            i <= b.len() <= 16,
            v == le_value(b@.skip(i as int)),
            pow256(16) == 0x1_0000_0000_0000_0000_0000_0000_0000_0000,
        decreases i,
    {
        proof {
            lemma_le_value_bound(b@.skip(i as int));
            lemma_pow256_monotone((b.len() - i) as nat, 15);
            assert(b@.skip(i - 1).drop_first() =~= b@.skip(i as int));
        }
        v = v * 256 + b[i - 1] as u128;
        i -= 1;
    }
    assert(b@.skip(0) =~= b@);
    v
}

proof fn lemma_pow256_monotone(m: nat, n: nat)
    requires
        m <= n,
    ensures
        pow256(m) <= pow256(n),
    decreases n,
{
    if m < n {
        lemma_pow256_monotone(m, (n - 1) as nat);
    }
}

/// The header of a cache for `fp`.
pub open spec fn header_bytes(fp: CacheFingerprint) -> Seq<u8> {
    lit_magic() + le_bytes(SCHEMA_VERSION as nat, 2) + seq![0u8, 0u8] + le_bytes(fp.file_size as nat, 8)
        + le_bytes(twos128(fp.mtime_ns), 16) + fp.pattern_hash@
}

/// `h` starts with a header of this schema whose fingerprint is `expect`
/// (the pad bytes are not looked at).
pub open spec fn header_matches(h: Seq<u8>, expect: CacheFingerprint) -> bool {
    &&& h.len() >= HEADER_LEN
    &&& h.take(6) == lit_magic()
    &&& le_value(h.subrange(6, 8)) == SCHEMA_VERSION
    &&& le_value(h.subrange(10, 18)) == expect.file_size
    &&& from_twos128(le_value(h.subrange(18, 34))) == expect.mtime_ns
    &&& h.subrange(34, 66) == expect.pattern_hash@
}

fn twos_of(x: i128) -> (r: u128)
    ensures
        r == twos128(x),
{
    proof {
        lemma_pow256_values();
    }
    if x >= 0 {
        x as u128
    } else {
        let y: i128 = (x + i128::MAX) + 1;
        (y as u128) + 0x8000_0000_0000_0000_0000_0000_0000_0000u128
    }
}

fn from_twos(v: u128) -> (r: i128)
    ensures
        r == from_twos128(v as nat),
{
    proof {
        lemma_pow256_values();
    }
    if v >= 0x8000_0000_0000_0000_0000_0000_0000_0000u128 {
        let w = v - 0x8000_0000_0000_0000_0000_0000_0000_0000u128;
        (w as i128) - i128::MAX - 1
    } else {
        v as i128
    }
}

/// The cache file for `fp` holding `body`: the header, then the body.
pub fn encode_cache_file(fp: &CacheFingerprint, body: &[u8]) -> (r: Vec<u8>)
    ensures
        r@ == header_bytes(*fp) + body@,
{
    let mut out: Vec<u8> = Vec::new();
    let magic = LIT_MAGIC;
    out.extend_from_slice(&magic);
    let schema = encode_le(SCHEMA_VERSION as u128, 2);
    out.extend_from_slice(schema.as_slice());
    out.push(0u8);
    out.push(0u8);
    let size = encode_le(fp.file_size as u128, 8);
    out.extend_from_slice(size.as_slice());
    let mtime = encode_le(twos_of(fp.mtime_ns), 16);
    out.extend_from_slice(mtime.as_slice());
    out.extend_from_slice(&fp.pattern_hash);
    out.extend_from_slice(body);
    assert(magic@ =~= lit_magic());
    assert(out@ =~= header_bytes(*fp) + body@);
    out
}

/// Whether `h` begins with a header of this schema fingerprinting `expect`.
pub fn check_header(h: &[u8], expect: &CacheFingerprint) -> (r: bool)
    ensures
        r == header_matches(h@, *expect),
{
    if h.len() < HEADER_LEN {
        return false;
    }
    let magic = LIT_MAGIC;
    let mut i: usize = 0;
    while i < 6
        invariant
            i <= 6 <= h@.len(),
            magic@ == lit_magic(),
            forall|k: int| 0 <= k < i ==> h@[k] == magic@[k],
        decreases 6 - i,
    {
        if h[i] != magic[i] {
            assert(h@.take(6)[i as int] != lit_magic()[i as int]);
            return false;
        }
        i += 1;
    }
    assert(h@.take(6) =~= lit_magic());
    let schema = decode_le(&h[6..8]);
    if schema != SCHEMA_VERSION as u128 {
        return false;
    }
    let size = decode_le(&h[10..18]);
    if size != expect.file_size as u128 {
        return false;
    }
    let mtime = from_twos(decode_le(&h[18..34]));
    if mtime != expect.mtime_ns {
        return false;
    }
    let mut j: usize = 0;
    while j < 32
        invariant
            j <= 32,
            h@.len() >= HEADER_LEN,
            forall|k: int| 0 <= k < j ==> h@[34 + k] == expect.pattern_hash@[k],
        decreases 32 - j,
    {
        if h[34 + j] != expect.pattern_hash[j] {
            assert(h@.subrange(34, 66)[j as int] != expect.pattern_hash@[j as int]);
            return false;
        }
        j += 1;
    }
    assert(h@.subrange(34, 66) =~= expect.pattern_hash@);
    true
}

/// The body of the cache file `file` when its header fingerprints
/// `expect`; `None` for any other file.
pub fn split_cache_file<'a>(file: &'a [u8], expect: &CacheFingerprint) -> (r: Option<&'a [u8]>)
    ensures
        header_matches(file@, *expect) ==> (r matches Some(b) && b@ == file@.skip(HEADER_LEN as int)),
        !header_matches(file@, *expect) ==> r is None,
{
    if check_header(file, expect) {
        Some(&file[HEADER_LEN..file.len()])
    } else {
        None
    }
}

/// A cache written for a fingerprint is read back, body intact, under the
/// same fingerprint, and refused under any fingerprint that differs in
/// size, modification time or pattern hash.
pub proof fn law_cache_roundtrip(fp: CacheFingerprint, expect: CacheFingerprint, body: Seq<u8>)
    ensures
        header_matches(header_bytes(fp) + body, expect) <==> (fp.file_size == expect.file_size
            && fp.mtime_ns == expect.mtime_ns && fp.pattern_hash@ == expect.pattern_hash@),
        (header_bytes(fp) + body).skip(HEADER_LEN as int) == body,
{
    lemma_pow256_values();
    let h = header_bytes(fp) + body;
    let sch = le_bytes(SCHEMA_VERSION as nat, 2);
    let sz = le_bytes(fp.file_size as nat, 8);
    let mt = le_bytes(twos128(fp.mtime_ns), 16);
    lemma_le_roundtrip(SCHEMA_VERSION as nat, 2);
    lemma_le_roundtrip(fp.file_size as nat, 8);
    lemma_le_roundtrip(twos128(fp.mtime_ns), 16);
    assert(h.take(6) =~= lit_magic());
    assert(h.subrange(6, 8) =~= sch);
    assert(h.subrange(10, 18) =~= sz);
    assert(h.subrange(18, 34) =~= mt);
    assert(h.subrange(34, 66) =~= fp.pattern_hash@);
    assert(h.skip(HEADER_LEN as int) =~= body);
}


/// Lower-case hexadecimal digit of `n < 16`.
pub open spec fn hex_digit(n: u8) -> char {
    if n < 10 {
        (48 + n) as char
    } else {
        (87 + n) as char
    }
}

/// Two lower-case hexadecimal digits per byte of `b`.
pub open spec fn hex_of(b: Seq<u8>) -> Seq<char>
    decreases b.len(),
{
    if b.len() == 0 {
        Seq::empty()
    } else {
        hex_of(b.drop_last()).push(hex_digit(b.last() / 16)).push(hex_digit(b.last() % 16))
    }
}

fn hex_digit_exec(n: u8) -> (r: char)
    requires
        n < 16,
    ensures
        r == hex_digit(n),
{
    if n < 10 {
        (48u8 + n) as char
    } else {
        (87u8 + n) as char
    }
}

/// The cache-file stem of a file: the first 16 bytes of the BLAKE3 of its
/// normalised path, in lower-case hexadecimal.
pub fn path_hash_of(normalised_path: &str) -> (r: String)
    ensures
        r@ == hex_of(blake3_digest(normalised_path.spec_bytes()).take(16)),
{
    let h = blake3_hash(normalised_path.as_bytes());
    let mut cs: Vec<char> = Vec::new();
    let mut i: usize = 0;
    while i < 16
        invariant
            i <= 16,
            h@ == blake3_digest(normalised_path.spec_bytes()),
            cs@ == hex_of(h@.take(i as int)),
        decreases 16 - i,
    {
        proof {
            assert(h@.take(i + 1).drop_last() =~= h@.take(i as int));
        }
        let b = h[i];
        cs.push(hex_digit_exec(b / 16));
        cs.push(hex_digit_exec(b % 16));
        i += 1;
    }
    string_from_chars(&cs)
}

} // verus!
