//! In-memory line offset index: the byte offset of every physical line start.

use vstd::prelude::*;

verus! {

/// `i` is the first byte of a physical line of `bytes`: position 0, or any
/// position right after a `\n`, as long as it lies inside the file.
pub open spec fn is_line_start(bytes: Seq<u8>, i: int) -> bool {
    0 <= i < bytes.len() && (i == 0 || bytes[i - 1] == 10)
}

/// The line starts of `bytes` among its first `n` positions, ascending.
pub open spec fn line_starts_upto(bytes: Seq<u8>, n: nat) -> Seq<u64>
    decreases n,
{
    if n == 0 {
        Seq::empty()
    } else {
        let prev = line_starts_upto(bytes, (n - 1) as nat);
        if is_line_start(bytes, n - 1) {
            prev.push((n - 1) as u64)
        } else {
            prev
        }
    }
}

/// Every line start of `bytes`, ascending. Empty input has none; a trailing
/// `\n` does not start a phantom line past the end.
pub open spec fn line_starts(bytes: Seq<u8>) -> Seq<u64> {
    line_starts_upto(bytes, bytes.len())
}

/// The starts are strictly increasing, each is a line start, and every line
/// start below `n` is listed.
pub proof fn lemma_line_starts_upto(bytes: Seq<u8>, n: nat)
    requires
        n <= bytes.len(),
        bytes.len() <= u64::MAX,
    ensures
        forall|i: int, j: int|
            0 <= i < j < line_starts_upto(bytes, n).len() ==> line_starts_upto(bytes, n)[i]
                < line_starts_upto(bytes, n)[j],
        forall|i: int|
            0 <= i < line_starts_upto(bytes, n).len() ==> is_line_start(
                bytes,
                #[trigger] line_starts_upto(bytes, n)[i] as int,
            ) && line_starts_upto(bytes, n)[i] < n,
        forall|p: int| 0 <= p < n && is_line_start(bytes, p) ==> line_starts_upto(bytes, n).contains(p as u64),
        line_starts_upto(bytes, n).len() <= n,
    decreases n,
{
    if n > 0 {
        lemma_line_starts_upto(bytes, (n - 1) as nat);
        let prev = line_starts_upto(bytes, (n - 1) as nat);
        if is_line_start(bytes, n - 1) {
            assert(line_starts_upto(bytes, n) == prev.push((n - 1) as u64));
            assert forall|p: int| 0 <= p < n && is_line_start(bytes, p) implies line_starts_upto(bytes, n).contains(p as u64) by {
                if p < n - 1 {
                    let k = choose|k: int| 0 <= k < prev.len() && prev[k] == p as u64;
                    assert(line_starts_upto(bytes, n)[k] == p as u64);
                } else {
                    assert(line_starts_upto(bytes, n)[prev.len() as int] == p as u64);
                }
            }
        }
    }
}

/// The starts of `bytes` are strictly increasing, each is a line start, and
/// none is missing. The first one is 0 whenever `bytes` is non-empty.
pub proof fn lemma_line_starts(bytes: Seq<u8>)
    requires
        bytes.len() <= u64::MAX,
    ensures
        forall|i: int, j: int|
            0 <= i < j < line_starts(bytes).len() ==> line_starts(bytes)[i] < line_starts(bytes)[j],
        forall|i: int|
            0 <= i < line_starts(bytes).len() ==> is_line_start(bytes, #[trigger] line_starts(bytes)[i] as int),
        forall|p: int| is_line_start(bytes, p) ==> line_starts(bytes).contains(p as u64),
        line_starts(bytes).len() <= bytes.len(),
        bytes.len() > 0 ==> line_starts(bytes).len() > 0 && line_starts(bytes)[0] == 0,
{
    lemma_line_starts_upto(bytes, bytes.len());
    if bytes.len() > 0 {
        assert(is_line_start(bytes, 0));
        assert(line_starts(bytes).contains(0u64));
        let k = choose|k: int| 0 <= k < line_starts(bytes).len() && line_starts(bytes)[k] == 0u64;
        if k > 0 {
            assert(line_starts(bytes)[0] < line_starts(bytes)[k]);
        }
    }
}

/// Growing the scanned range only appends starts: the starts below `m` are a
/// prefix of those below `n`, and the rest lie at or above `m`.
pub proof fn lemma_line_starts_upto_prefix(bytes: Seq<u8>, m: nat, n: nat)
    requires
        m <= n <= u64::MAX,
    ensures
        line_starts_upto(bytes, m).len() <= line_starts_upto(bytes, n).len(),
        line_starts_upto(bytes, n).take(line_starts_upto(bytes, m).len() as int)
            == line_starts_upto(bytes, m),
        forall|k: int|
            line_starts_upto(bytes, m).len() <= k < line_starts_upto(bytes, n).len() ==> m
                <= #[trigger] line_starts_upto(bytes, n)[k],
    decreases n,
{
    if n > m {
        lemma_line_starts_upto_prefix(bytes, m, (n - 1) as nat);
        let prev = line_starts_upto(bytes, (n - 1) as nat);
        let cur = line_starts_upto(bytes, n);
        let base = line_starts_upto(bytes, m);
        assert(cur.take(prev.len() as int) == prev);
        assert(cur.take(base.len() as int) =~= prev.take(base.len() as int));
        assert forall|k: int| base.len() <= k < cur.len() implies m <= #[trigger] cur[k] by {
            if k < prev.len() {
                assert(cur[k] == prev[k]);
            } else {
                assert(is_line_start(bytes, n - 1));
                assert(cur == prev.push((n - 1) as u64));
            }
        }
    } else {
        assert(line_starts_upto(bytes, n).take(line_starts_upto(bytes, n).len() as int)
            =~= line_starts_upto(bytes, n));
    }
}

/// Line starts below `n` only depend on the first `n` bytes, so a longer
/// file that begins with `bytes` agrees with it there.
pub proof fn lemma_line_starts_upto_extend(bytes: Seq<u8>, longer: Seq<u8>, n: nat)
    requires
        n <= bytes.len() <= longer.len(),
        longer.take(bytes.len() as int) == bytes,
    ensures
        line_starts_upto(longer, n) == line_starts_upto(bytes, n),
    decreases n,
{
    if n > 0 {
        lemma_line_starts_upto_extend(bytes, longer, (n - 1) as nat);
        let i = n - 1;
        if i > 0 {
            assert(longer[i - 1] == longer.take(bytes.len() as int)[i - 1]);
        }
        assert(is_line_start(longer, i) == is_line_start(bytes, i));
    }
}

#[derive(Debug, Clone)]
pub struct LineIndex {
    /// Byte offset of every physical line start. `line_offsets[i]` points at
    /// the first byte of the i-th line.
    pub line_offsets: Vec<u64>,
    /// Total file size in bytes; the last line runs to here.
    pub file_size: u64,
}

impl LineIndex {
    /// The index describes exactly `bytes`.
    pub open spec fn indexes(&self, bytes: Seq<u8>) -> bool {
        &&& self.line_offsets@ == line_starts(bytes)
        &&& self.file_size == bytes.len()
    }

    /// Build the index of `bytes`, the whole file content.
    ///
    /// Empty files produce no lines. A file ending without a trailing newline
    /// still records its last line. A trailing `\n` does not invent a phantom
    /// empty line past the end.
    pub fn build(bytes: &[u8]) -> (r: LineIndex)
        ensures
            r.indexes(bytes@),
    {
        let mut line_offsets: Vec<u64> = Vec::new();
        let mut start_of_line = true;
        let mut i: usize = 0;
        while i < bytes.len()
            invariant
                i <= bytes.len(),
                line_offsets@ == line_starts_upto(bytes@, i as nat),
                start_of_line == (i == 0 || bytes@[i - 1] == 10),
            decreases bytes.len() - i,
        {
            if start_of_line {
                line_offsets.push(i as u64);
                start_of_line = false;
            }
            if bytes[i] == 10u8 {
                start_of_line = true;
            }
            i += 1;
        }
        LineIndex { line_offsets, file_size: bytes.len() as u64 }
    }

    pub fn line_count(&self) -> (r: usize)
        ensures
            r == self.line_offsets@.len(),
    {
        self.line_offsets.len()
    }
}

} // verus!
