//! Tailing a log file by polling: each tick compares the file's size and the
//! hash of its first bytes with what was seen before. A shrink or a changed
//! head means the file was rotated; growth means bytes were appended.
//!
//! The decisions are a state machine: `TailState::poll_start` looks at the
//! size, and each step either settles the tick or asks the caller to hash
//! the head or read the appended bytes and hand the result back.

use vstd::prelude::*;

verus! {

/// Number of leading bytes hashed for rotation detection.
pub const HEAD_HASH_BYTES: usize = 256;

/// Polling interval of the tail task, in milliseconds.
pub const DEFAULT_POLL_INTERVAL_MS: u64 = 250;

/// How many leading bytes of a file of `size` bytes the head hash covers.
pub open spec fn spec_head_prefix_for(size: u64) -> usize {
    if size <= usize::MAX && (size as usize) < HEAD_HASH_BYTES {
        size as usize
    } else {
        HEAD_HASH_BYTES
    }
}

/// The head hash covers `min(HEAD_HASH_BYTES, size)` bytes.
pub fn head_prefix_for(size: u64) -> (r: usize)
    ensures
        r == spec_head_prefix_for(size),
{
    let s: usize = if size <= usize::MAX as u64 {
        size as usize
    } else {
        HEAD_HASH_BYTES
    };
    if HEAD_HASH_BYTES < s {
        HEAD_HASH_BYTES
    } else {
        s
    }
}

/// FNV-1a, 64-bit, of `bytes`.
pub open spec fn spec_fnv1a_64(bytes: Seq<u8>) -> u64
    decreases bytes.len(),
{
    if bytes.len() == 0 {
        0xcbf2_9ce4_8422_2325
    } else {
        let h = spec_fnv1a_64(bytes.drop_last()) ^ (bytes.last() as u64);
        ((h as int * 0x0000_0100_0000_01B3) % 0x1_0000_0000_0000_0000) as u64
    }
}

/// FNV-1a, 64-bit: xor each byte in, then multiply by the FNV prime,
/// wrapping.
pub fn fnv1a_64(bytes: &[u8]) -> (r: u64)
    ensures
        r == spec_fnv1a_64(bytes@),
{
    let mut h: u64 = 0xcbf2_9ce4_8422_2325;
    let mut i: usize = 0;
    while i < bytes.len()
        invariant
            i <= bytes.len(),
            h == spec_fnv1a_64(bytes@.take(i as int)),
        decreases bytes.len() - i,
    {
        proof {
            assert(bytes@.take(i + 1).drop_last() =~= bytes@.take(i as int));
            assert(bytes@.take(i + 1).last() == bytes@[i as int]);
        }
        h = h ^ (bytes[i] as u64);
        h = h.wrapping_mul(0x0000_0100_0000_01B3);
        i += 1;
    }
    assert(bytes@.take(bytes.len() as int) =~= bytes@);
    h
}

/// Mixed into the hash of a head read that came back short, so it never
/// matches the hash taken before.
pub const SHORT_READ_MARK: u64 = 0xDEAD_BEEF_DEAD_BEEF;

/// The head hash of a file whose first bytes read as `buf` when
/// `prefix_len` were asked for: none for an empty prefix, the marked hash
/// when the file turned out shorter, else the plain hash.
pub open spec fn spec_head_hash_of(buf: Seq<u8>, prefix_len: usize) -> Option<u64> {
    if prefix_len == 0 {
        None
    } else if buf.len() < prefix_len {
        Some(spec_fnv1a_64(buf) ^ SHORT_READ_MARK)
    } else {
        Some(spec_fnv1a_64(buf))
    }
}

pub fn head_hash_of(buf: &[u8], prefix_len: usize) -> (r: Option<u64>)
    ensures
        r == spec_head_hash_of(buf@, prefix_len),
{
    if prefix_len == 0 {
        return None;
    }
    let h = fnv1a_64(buf);
    if buf.len() < prefix_len {
        Some(h ^ SHORT_READ_MARK)
    } else {
        Some(h)
    }
}

/// Outcome of one tick.
#[derive(Debug)]
pub enum TailEvent {
    /// The file has not changed.
    NoChange,
    /// The file grew: `bytes` were appended at `from_offset`. They may end
    /// with a partial line.
    Appended { from_offset: u64, bytes: Vec<u8> },
    /// The file was rotated; the caller re-indexes from offset 0.
    Rotated,
}

/// What the caller does next within a tick.
#[derive(Debug, Clone, Copy, PartialEq, Eq, Structural)]
pub enum PollStep {
    /// The tick is over and nothing changed.
    NoChange,
    /// Hash the first `prefix_len` bytes and give the hash to
    /// `after_head_check` with `size`.
    CheckHead { size: u64, prefix_len: usize },
    /// Hash the first `prefix_len` bytes and give the hash to `adopt_head`;
    /// `rotation` says whether the tick is a rotation.
    Rehash { size: u64, prefix_len: usize, rotation: bool },
    /// Read `len` bytes at `from` and give them to `accept_append`.
    ReadAppended { size: u64, from: u64, len: u64 },
    /// The tick is over: the file was rotated.
    Rotated,
}

/// Per-file tail tracker.
#[derive(Debug, Clone)]
pub struct TailState {
    path: String,
    /// Bytes already delivered.
    consumed: u64,
    /// Hash of the first `head_prefix_len` bytes; `None` while the file is
    /// empty.
    head_hash: Option<u64>,
    /// Number of leading bytes the hash covers.
    head_prefix_len: usize,
}

impl TailState {
    pub closed spec fn spec_path(&self) -> Seq<char> {
        self.path@
    }

    pub closed spec fn spec_consumed(&self) -> u64 {
        self.consumed
    }

    pub closed spec fn spec_head_hash(&self) -> Option<u64> {
        self.head_hash
    }

    pub closed spec fn spec_head_prefix_len(&self) -> usize {
        self.head_prefix_len
    }

    /// A tracker for `path`, already at `initial_size`, whose first
    /// `head_prefix_for(initial_size)` bytes hash to `head_hash`.
    pub fn new(path: String, initial_size: u64, head_hash: Option<u64>) -> (r: TailState)
        ensures
            r.spec_path() == path@,
            r.spec_consumed() == initial_size,
            r.spec_head_hash() == head_hash,
            r.spec_head_prefix_len() == spec_head_prefix_for(initial_size),
    {
        TailState { path, consumed: initial_size, head_hash, head_prefix_len: head_prefix_for(initial_size) }
    }

    pub fn path(&self) -> (r: &str)
        ensures
            r@ == self.spec_path(),
    {
        self.path.as_str()
    }

    pub fn consumed(&self) -> (r: u64)
        ensures
            r == self.spec_consumed(),
    {
        self.consumed
    }

    pub fn head_prefix_len(&self) -> (r: usize)
        ensures
            r == self.spec_head_prefix_len(),
    {
        self.head_prefix_len
    }

    /// After the head is settled: nothing new, or the gap to read.
    pub open spec fn spec_growth(&self, size: u64) -> PollStep {
        if size == self.spec_consumed() {
            PollStep::NoChange
        } else {
            PollStep::ReadAppended {
                size,
                from: self.spec_consumed(),
                len: (size - self.spec_consumed()) as u64,
            }
        }
    }

    /// First decision of a tick, given the file's size (`None`: the file is
    /// missing for now, which waits for the next tick).
    pub open spec fn spec_poll_start(&self, size: Option<u64>) -> PollStep {
        match size {
            None => PollStep::NoChange,
            Some(size) => if size < self.spec_consumed() {
                PollStep::Rehash { size, prefix_len: spec_head_prefix_for(size), rotation: true }
            } else if self.spec_head_prefix_len() > 0 {
                PollStep::CheckHead { size, prefix_len: self.spec_head_prefix_len() }
            } else if size > 0 {
                PollStep::Rehash { size, prefix_len: spec_head_prefix_for(size), rotation: false }
            } else {
                self.spec_growth(size)
            },
        }
    }

    /// A shrink is a rotation; an anchored head is re-hashed; a first
    /// non-empty size adopts a head; otherwise the size decides.
    pub fn poll_start(&self, size: Option<u64>) -> (r: PollStep)
        ensures
            r == self.spec_poll_start(size),
    {
        match size {
            None => PollStep::NoChange,
            Some(size) => if size < self.consumed {
                PollStep::Rehash { size, prefix_len: head_prefix_for(size), rotation: true }
            } else if self.head_prefix_len > 0 {
                PollStep::CheckHead { size, prefix_len: self.head_prefix_len }
            } else if size > 0 {
                PollStep::Rehash { size, prefix_len: head_prefix_for(size), rotation: false }
            } else {
                self.growth(size)
            },
        }
    }

    fn growth(&self, size: u64) -> (r: PollStep)
        requires
            size >= self.spec_consumed(),
        ensures
            r == self.spec_growth(size),
    {
        if size == self.consumed {
            PollStep::NoChange
        } else {
            PollStep::ReadAppended { size, from: self.consumed, len: size - self.consumed }
        }
    }

    /// The anchored head now hashes to `new_head`.
    pub open spec fn spec_after_head_check(&self, size: u64, new_head: Option<u64>) -> PollStep {
        if new_head != self.spec_head_hash() {
            PollStep::Rehash { size, prefix_len: spec_head_prefix_for(size), rotation: true }
        } else {
            self.spec_growth(size)
        }
    }

    /// A head that changed under the same prefix length is a rotation;
    /// otherwise the size decides.
    pub fn after_head_check(&self, size: u64, new_head: Option<u64>) -> (r: PollStep)
        requires
            size >= self.spec_consumed(),
        ensures
            r == self.spec_after_head_check(size, new_head),
    {
        if new_head != self.head_hash {
            PollStep::Rehash { size, prefix_len: head_prefix_for(size), rotation: true }
        } else {
            self.growth(size)
        }
    }

    /// Take `hash` of the first `prefix_len` bytes as the new anchor. On a
    /// rotation the cursor goes back to 0 and the tick ends; otherwise the
    /// size decides.
    pub fn adopt_head(&mut self, size: u64, prefix_len: usize, hash: Option<u64>, rotation: bool) -> (r:
        PollStep)
        requires
            rotation || size >= old(self).spec_consumed(),
        ensures
            final(self).spec_head_hash() == hash,
            final(self).spec_head_prefix_len() == prefix_len,
            final(self).spec_path() == old(self).spec_path(),
            rotation ==> final(self).spec_consumed() == 0 && r == PollStep::Rotated,
            !rotation ==> final(self).spec_consumed() == old(self).spec_consumed() && r
                == final(self).spec_growth(size),
    {
        self.head_hash = hash;
        self.head_prefix_len = prefix_len;
        if rotation {
            self.consumed = 0;
            PollStep::Rotated
        } else {
            self.growth(size)
        }
    }

    /// The gap was read: deliver it and move the cursor to `size`.
    pub fn accept_append(&mut self, size: u64, bytes: Vec<u8>) -> (r: TailEvent)
        ensures
            final(self).spec_consumed() == size,
            final(self).spec_head_hash() == old(self).spec_head_hash(),
            final(self).spec_head_prefix_len() == old(self).spec_head_prefix_len(),
            final(self).spec_path() == old(self).spec_path(),
            r matches TailEvent::Appended { from_offset, bytes: b } && from_offset == old(
                self,
            ).spec_consumed() && b@ == bytes@,
    {
        let from = self.consumed;
        self.consumed = size;
        TailEvent::Appended { from_offset: from, bytes }
    }

    /// Re-anchor after the caller re-indexed a rotated file of `size`
    /// bytes whose first `head_prefix_for(size)` bytes hash to `head_hash`.
    pub fn reset_to(&mut self, size: u64, head_hash: Option<u64>)
        ensures
            final(self).spec_consumed() == size,
            final(self).spec_head_hash() == head_hash,
            final(self).spec_head_prefix_len() == spec_head_prefix_for(size),
            final(self).spec_path() == old(self).spec_path(),
    {
        self.consumed = size;
        self.head_hash = head_hash;
        self.head_prefix_len = head_prefix_for(size);
    }
}

/// A file whose size has not moved and whose head hashes as before is
/// reported unchanged: polling an idle file is quiet, and bytes that were
/// just delivered are not delivered again.
pub proof fn law_idle_file_is_quiet(st: TailState)
    ensures
        ({
            let size = st.spec_consumed();
            match st.spec_poll_start(Some(size)) {
                PollStep::CheckHead { size: s, prefix_len } => s == size && prefix_len
                    == st.spec_head_prefix_len() && st.spec_after_head_check(s, st.spec_head_hash())
                    == PollStep::NoChange,
                PollStep::Rehash { size: s, prefix_len, rotation } => !rotation && s == size
                    && st.spec_growth(s) == PollStep::NoChange,
                other => other == PollStep::NoChange,
            }
        }),
{
}

/// A file that grew without its head changing is read from the cursor up
/// to its new size, and once those bytes are accepted the cursor sits at
/// the new size.
pub proof fn law_growth_reads_the_gap(st: TailState, size: u64)
    requires
        size > st.spec_consumed(),
        st.spec_head_prefix_len() > 0,
    ensures
        st.spec_poll_start(Some(size)) == (PollStep::CheckHead {
            size,
            prefix_len: st.spec_head_prefix_len(),
        }),
        st.spec_after_head_check(size, st.spec_head_hash()) == (PollStep::ReadAppended {
            size,
            from: st.spec_consumed(),
            len: (size - st.spec_consumed()) as u64,
        }),
{
}

/// A file that shrank, or whose anchored head hashes differently, is a
/// rotation; adopting the new head then ends the tick as `Rotated` with the
/// cursor back at 0.
pub proof fn law_shrink_or_new_head_is_rotation(st: TailState, size: u64, new_head: Option<u64>)
    ensures
        size < st.spec_consumed() ==> st.spec_poll_start(Some(size)) == (PollStep::Rehash {
            size,
            prefix_len: spec_head_prefix_for(size),
            rotation: true,
        }),
        new_head != st.spec_head_hash() ==> st.spec_after_head_check(size, new_head) == (
        PollStep::Rehash { size, prefix_len: spec_head_prefix_for(size), rotation: true }),
{
}

/// While the anchor covers no bytes (the file was empty), the first content
/// seen is adopted as the new anchor, not taken for a rotation.
pub proof fn law_first_content_is_adopted(st: TailState, size: u64)
    requires
        st.spec_head_prefix_len() == 0,
        size > 0,
        size >= st.spec_consumed(),
    ensures
        st.spec_poll_start(Some(size)) == (PollStep::Rehash {
            size,
            prefix_len: spec_head_prefix_for(size),
            rotation: false,
        }),
{
}

} // verus!
