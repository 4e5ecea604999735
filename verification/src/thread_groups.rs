//! Thread-name classification into five named groups plus `Other`.
//!
//! Rules are tried in order and the first match wins. Every rule is a
//! plain byte matcher; `spec_classify` states the whole rule table.

use vstd::prelude::*;
use crate::bytes::{
    all_digits, bytes_all_digits, bytes_start_with, contains, digits_only, is_digit,
    is_digit_byte, lower, lower_seq, occurs_at, starts_with, to_lower_byte,
};

verus! {

/// The bytes of `play-thread-`.
pub open spec fn lit_play_thread() -> Seq<u8> {
    seq![112u8, 108u8, 97u8, 121u8, 45u8, 116u8, 104u8, 114u8, 101u8, 97u8, 100u8, 45u8]
}

pub const LIT_PLAY_THREAD: [u8; 12] = [112u8, 108u8, 97u8, 121u8, 45u8, 116u8, 104u8, 114u8, 101u8, 97u8, 100u8, 45u8];

/// The bytes of `jobs-thread-`.
pub open spec fn lit_jobs_thread() -> Seq<u8> {
    seq![106u8, 111u8, 98u8, 115u8, 45u8, 116u8, 104u8, 114u8, 101u8, 97u8, 100u8, 45u8]
}

pub const LIT_JOBS_THREAD: [u8; 12] = [106u8, 111u8, 98u8, 115u8, 45u8, 116u8, 104u8, 114u8, 101u8, 97u8, 100u8, 45u8];

/// The bytes of `quartz`.
pub open spec fn lit_quartz() -> Seq<u8> {
    seq![113u8, 117u8, 97u8, 114u8, 116u8, 122u8]
}

pub const LIT_QUARTZ: [u8; 6] = [113u8, 117u8, 97u8, 114u8, 116u8, 122u8];

/// The bytes of `main`.
pub open spec fn lit_main() -> Seq<u8> {
    seq![109u8, 97u8, 105u8, 110u8]
}

pub const LIT_MAIN: [u8; 4] = [109u8, 97u8, 105u8, 110u8];

/// The bytes of `Thread-`.
pub open spec fn lit_thread_dash() -> Seq<u8> {
    seq![84u8, 104u8, 114u8, 101u8, 97u8, 100u8, 45u8]
}

pub const LIT_THREAD_DASH: [u8; 7] = [84u8, 104u8, 114u8, 101u8, 97u8, 100u8, 45u8];

/// The bytes of `pool-`.
pub open spec fn lit_pool() -> Seq<u8> {
    seq![112u8, 111u8, 111u8, 108u8, 45u8]
}

pub const LIT_POOL: [u8; 5] = [112u8, 111u8, 111u8, 108u8, 45u8];

/// The bytes of `thread-`.
pub open spec fn lit_thread_lower() -> Seq<u8> {
    seq![116u8, 104u8, 114u8, 101u8, 97u8, 100u8, 45u8]
}

pub const LIT_THREAD_LOWER: [u8; 7] = [116u8, 104u8, 114u8, 101u8, 97u8, 100u8, 45u8];

/// The bytes of `New I/O worker #`.
pub open spec fn lit_io_worker() -> Seq<u8> {
    seq![78u8, 101u8, 119u8, 32u8, 73u8, 47u8, 79u8, 32u8, 119u8, 111u8, 114u8, 107u8, 101u8, 114u8, 32u8, 35u8]
}

pub const LIT_IO_WORKER: [u8; 16] = [78u8, 101u8, 119u8, 32u8, 73u8, 47u8, 79u8, 32u8, 119u8, 111u8, 114u8, 107u8, 101u8, 114u8, 32u8, 35u8];

/// The bytes of `New I/O boss #`.
pub open spec fn lit_io_boss() -> Seq<u8> {
    seq![78u8, 101u8, 119u8, 32u8, 73u8, 47u8, 79u8, 32u8, 98u8, 111u8, 115u8, 115u8, 32u8, 35u8]
}

pub const LIT_IO_BOSS: [u8; 14] = [78u8, 101u8, 119u8, 32u8, 73u8, 47u8, 79u8, 32u8, 98u8, 111u8, 115u8, 115u8, 32u8, 35u8];

/// The bytes of `I/O dispatcher `.
pub open spec fn lit_io_dispatcher() -> Seq<u8> {
    seq![73u8, 47u8, 79u8, 32u8, 100u8, 105u8, 115u8, 112u8, 97u8, 116u8, 99u8, 104u8, 101u8, 114u8, 32u8]
}

pub const LIT_IO_DISPATCHER: [u8; 15] = [73u8, 47u8, 79u8, 32u8, 100u8, 105u8, 115u8, 112u8, 97u8, 116u8, 99u8, 104u8, 101u8, 114u8, 32u8];

/// The bytes of `jgroups-`.
pub open spec fn lit_jgroups() -> Seq<u8> {
    seq![106u8, 103u8, 114u8, 111u8, 117u8, 112u8, 115u8, 45u8]
}

pub const LIT_JGROUPS: [u8; 8] = [106u8, 103u8, 114u8, 111u8, 117u8, 112u8, 115u8, 45u8];

/// The bytes of `Memcached IO `.
pub open spec fn lit_memcached() -> Seq<u8> {
    seq![77u8, 101u8, 109u8, 99u8, 97u8, 99u8, 104u8, 101u8, 100u8, 32u8, 73u8, 79u8, 32u8]
}

pub const LIT_MEMCACHED: [u8; 13] = [77u8, 101u8, 109u8, 99u8, 97u8, 99u8, 104u8, 101u8, 100u8, 32u8, 73u8, 79u8, 32u8];

#[derive(Debug, Clone, Copy, PartialEq, Eq, Structural)]
pub enum ThreadGroup {
    Requests,
    Jobs,
    Scheduler,
    System,
    Infra,
    Other,
}

/// The mask bit of each group: one distinct bit per group, low six bits.
pub open spec fn spec_group_bit(group: ThreadGroup) -> u8 {
    match group {
        ThreadGroup::Requests => 1,
        ThreadGroup::Jobs => 2,
        ThreadGroup::Scheduler => 4,
        ThreadGroup::System => 8,
        ThreadGroup::Infra => 16,
        ThreadGroup::Other => 32,
    }
}

pub fn group_bit(group: ThreadGroup) -> (r: u8)
    ensures
        r == spec_group_bit(group),
{
    match group {
        ThreadGroup::Requests => 1u8,
        ThreadGroup::Jobs => 2u8,
        ThreadGroup::Scheduler => 4u8,
        ThreadGroup::System => 8u8,
        ThreadGroup::Infra => 16u8,
        ThreadGroup::Other => 32u8,
    }
}

/// Bitmask of thread groups a filter lets through. A set bit includes the
/// group whose `group_bit` it is. `ALL` is `0x3F`.
#[derive(Debug, Clone, Copy, PartialEq, Eq, Structural)]
pub struct ThreadGroupMask(pub u8);

impl ThreadGroupMask {
    /// The mask that lets every group through (`0x3F`).
    pub open spec fn spec_all() -> ThreadGroupMask {
        ThreadGroupMask(63u8)
    }

    pub fn all() -> (r: ThreadGroupMask)
        ensures
            r == Self::spec_all(),
    {
        ThreadGroupMask(63u8)
    }

    pub open spec fn spec_allows(self, group: ThreadGroup) -> bool {
        self.0 & spec_group_bit(group) != 0
    }

    pub fn allows(self, group: ThreadGroup) -> (r: bool)
        ensures
            r == self.spec_allows(group),
    {
        self.0 & group_bit(group) != 0
    }

    pub open spec fn spec_with(self, group: ThreadGroup, allow: bool) -> ThreadGroupMask {
        if allow {
            ThreadGroupMask(self.0 | spec_group_bit(group))
        } else {
            ThreadGroupMask(self.0 & !spec_group_bit(group))
        }
    }

    pub fn with(self, group: ThreadGroup, allow: bool) -> (r: ThreadGroupMask)
        ensures
            r == self.spec_with(group, allow),
    {
        if allow {
            ThreadGroupMask(self.0 | group_bit(group))
        } else {
            ThreadGroupMask(self.0 & !group_bit(group))
        }
    }
}

impl Default for ThreadGroupMask {
    fn default() -> (r: ThreadGroupMask)
        ensures
            r == ThreadGroupMask::spec_all(),
    {
        ThreadGroupMask::all()
    }
}

/// Setting or clearing a group's bit decides exactly that group and leaves
/// every other group as it was.
pub proof fn law_mask_with(mask: ThreadGroupMask, group: ThreadGroup, other: ThreadGroup, allow: bool)
    ensures
        mask.spec_with(group, allow).spec_allows(group) == allow,
        other != group ==> mask.spec_with(group, allow).spec_allows(other) == mask.spec_allows(other),
{
    let m = mask.0;
    let b = spec_group_bit(group);
    let o = spec_group_bit(other);
    assert(b == 1 || b == 2 || b == 4 || b == 8 || b == 16 || b == 32);
    assert(o == 1 || o == 2 || o == 4 || o == 8 || o == 16 || o == 32);
    assert((m | b) & b != 0) by (bit_vector)
        requires b == 1 || b == 2 || b == 4 || b == 8 || b == 16 || b == 32;
    assert((m & !b) & b == 0) by (bit_vector);
    if other != group {
        assert(o != b);
        assert(((m | b) & o != 0) == (m & o != 0) && ((m & !b) & o != 0) == (m & o != 0))
            by (bit_vector)
            requires
                b == 1 || b == 2 || b == 4 || b == 8 || b == 16 || b == 32,
                o == 1 || o == 2 || o == 4 || o == 8 || o == 16 || o == 32,
                o != b;
    }
}

/// `play-thread-<digits>` is a request thread, whatever the number's length.
pub proof fn law_play_threads_are_requests(n: Seq<u8>)
    requires
        n.len() > 0,
        forall|i: int| 0 <= i < n.len() ==> 48 <= #[trigger] n[i] <= 57,
    ensures
        spec_classify(seq![112u8, 108u8, 97u8, 121u8, 45u8, 116u8, 104u8, 114u8, 101u8, 97u8, 100u8, 45u8] + n)
            == ThreadGroup::Requests,
{
    let s = seq![112u8, 108u8, 97u8, 121u8, 45u8, 116u8, 104u8, 114u8, 101u8, 97u8, 100u8, 45u8] + n;
    assert(s.take(12) =~= lit_play_thread());
    assert(s.skip(12) =~= n);
}

/// `jobs-thread-<digits>` is a job thread, whatever the number's length.
pub proof fn law_jobs_threads_are_jobs(n: Seq<u8>)
    requires
        n.len() > 0,
        forall|i: int| 0 <= i < n.len() ==> 48 <= #[trigger] n[i] <= 57,
    ensures
        spec_classify(seq![106u8, 111u8, 98u8, 115u8, 45u8, 116u8, 104u8, 114u8, 101u8, 97u8, 100u8, 45u8] + n)
            == ThreadGroup::Jobs,
{
    let s = seq![106u8, 111u8, 98u8, 115u8, 45u8, 116u8, 104u8, 114u8, 101u8, 97u8, 100u8, 45u8] + n;
    if starts_with(s, lit_play_thread()) {
        assert(s.take(12)[0] == s[0]);
    }
    assert(s.take(12) =~= lit_jobs_thread());
    assert(s.skip(12) =~= n);
}

/// `main` and `Thread-<digits>` (any number) are system threads.
pub proof fn law_system_threads(n: Seq<u8>)
    requires
        n.len() > 0,
        forall|i: int| 0 <= i < n.len() ==> 48 <= #[trigger] n[i] <= 57,
    ensures
        spec_classify(seq![109u8, 97u8, 105u8, 110u8]) == ThreadGroup::System,
        spec_classify(seq![84u8, 104u8, 114u8, 101u8, 97u8, 100u8, 45u8] + n) == ThreadGroup::System,
{
    let m = seq![109u8, 97u8, 105u8, 110u8];
    if contains_ci(m, lit_quartz()) {
        let i = choose|i: int| occurs_at(lower_seq(m), lower_seq(lit_quartz()), i);
    }
    assert(m =~= lit_main());
    let head = seq![84u8, 104u8, 114u8, 101u8, 97u8, 100u8, 45u8];
    let s = head + n;
    assert(s[0] == 84u8);
    if starts_with(s, lit_play_thread()) {
        assert(s.take(12)[0] == s[0]);
    }
    if starts_with(s, lit_jobs_thread()) {
        assert(s.take(12)[0] == s[0]);
    }
    assert forall|k: int| 0 <= k < s.len() implies lower(#[trigger] s[k]) != 113u8 by {
        if k < 7 {
            assert(s[k] == head[k]);
        } else {
            assert(s[k] == n[k - 7]);
        }
    }
    if contains_ci(s, lit_quartz()) {
        let i = choose|i: int| occurs_at(lower_seq(s), lower_seq(lit_quartz()), i);
        assert(lower_seq(lit_quartz())[0] == 113u8);
        assert(lower_seq(s).subrange(i, i + 6)[0] == lower_seq(s)[i]);
        assert(lower_seq(s)[i] == lower(s[i]));
    }
    if s == lit_main() {
        assert(s[0] == lit_main()[0]);
    }
    assert(s.take(7) =~= lit_thread_dash());
    assert(s.skip(7) =~= n);
}

/// A name that mentions `quartz` in any mix of case, and does not end in a
/// digit, is a scheduler thread.
pub proof fn law_quartz_threads_are_scheduler(before: Seq<u8>, word: Seq<u8>, after: Seq<u8>)
    requires
        word.len() == 6,
        forall|j: int| 0 <= j < 6 ==> lower(#[trigger] word[j]) == seq![113u8, 117u8, 97u8, 114u8, 116u8, 122u8][j],
        !(48 <= (before + word + after).last() <= 57),
    ensures
        spec_classify(before + word + after) == ThreadGroup::Scheduler,
{
    let s = before + word + after;
    if prefix_then_digits(s, lit_play_thread()) {
        assert(s.skip(12).last() == s.last());
        assert(is_digit(s.skip(12)[s.skip(12).len() - 1]));
    }
    if prefix_then_digits(s, lit_jobs_thread()) {
        assert(s.skip(12).last() == s.last());
        assert(is_digit(s.skip(12)[s.skip(12).len() - 1]));
    }
    let i = before.len() as int;
    assert(lower_seq(s).subrange(i, i + 6) =~= lower_seq(lit_quartz())) by {
        assert forall|j: int| 0 <= j < 6 implies lower_seq(s).subrange(i, i + 6)[j] == lower_seq(lit_quartz())[j] by {
            assert(s[i + j] == word[j]);
        }
    }
    assert(occurs_at(lower_seq(s), lower_seq(lit_quartz()), i));
}

/// Every `pool-<digits>-thread-<digits>` name is infrastructure, whatever
/// the length of either number: no earlier rule claims it, and the pool
/// rule accepts it.
pub proof fn law_pool_threads_are_infra(pool_id: Seq<u8>, worker: Seq<u8>)
    requires
        pool_id.len() > 0,
        worker.len() > 0,
        forall|i: int| 0 <= i < pool_id.len() ==> 48 <= #[trigger] pool_id[i] <= 57,
        forall|i: int| 0 <= i < worker.len() ==> 48 <= #[trigger] worker[i] <= 57,
    ensures
        spec_classify(
            seq![112u8, 111u8, 111u8, 108u8, 45u8] + pool_id + seq![45u8, 116u8, 104u8, 114u8, 101u8, 97u8, 100u8, 45u8]
                + worker,
        ) == ThreadGroup::Infra,
{
    let head = seq![112u8, 111u8, 111u8, 108u8, 45u8];
    let mid = seq![45u8, 116u8, 104u8, 114u8, 101u8, 97u8, 100u8, 45u8];
    let s = head + pool_id + mid + worker;
    let n = pool_id.len() as int;
    assert(s[0] == 112u8);
    // The name holds no byte that lower-cases to `q`.
    assert forall|k: int| 0 <= k < s.len() implies lower(#[trigger] s[k]) != 113u8 by {
        if k < 5 {
            assert(s[k] == head[k]);
        } else if k < 5 + n {
            assert(s[k] == pool_id[k - 5]);
        } else if k < 5 + n + 8 {
            assert(s[k] == mid[k - 5 - n]);
        } else {
            assert(s[k] == worker[k - 5 - n - 8]);
        }
    }
    if starts_with(s, lit_play_thread()) {
        assert(s.take(12)[1] == s[1]);
        assert(s[1] == 111u8);
    }
    if starts_with(s, lit_jobs_thread()) {
        assert(s.take(12)[0] == s[0]);
    }
    if contains_ci(s, lit_quartz()) {
        let i = choose|i: int| occurs_at(lower_seq(s), lower_seq(lit_quartz()), i);
        assert(lower_seq(lit_quartz())[0] == 113u8);
        assert(lower_seq(s).subrange(i, i + 6)[0] == lower_seq(s)[i]);
        assert(lower_seq(s)[i] == lower(s[i]));
    }
    if s == lit_main() {
        assert(s[0] == lit_main()[0]);
    }
    if starts_with(s, lit_thread_dash()) {
        assert(s.take(7)[0] == s[0]);
    }
    assert(s.take(5) =~= lit_pool());
    let rest = s.skip(5);
    assert(rest =~= pool_id + mid + worker);
    assert(rest.take(n) =~= pool_id);
    assert(rest[n] == 45u8);
    assert(rest.skip(n + 1) =~= mid.skip(1) + worker);
    assert(rest.skip(n + 1).take(7) =~= lit_thread_lower());
    assert(rest.skip(n + 1).skip(7) =~= worker);
    assert(pool_split(rest, n));
    assert(pool_rule(s));
}

/// Clearing a group from the full mask and setting it again gives back the
/// full mask.
pub proof fn law_mask_round_trip(group: ThreadGroup)
    ensures
        ThreadGroupMask::spec_all().spec_with(group, false).spec_with(group, true) == ThreadGroupMask::spec_all(),
{
    let b = spec_group_bit(group);
    assert(((63u8 & !b) | b) == 63u8) by (bit_vector)
        requires b == 1 || b == 2 || b == 4 || b == 8 || b == 16 || b == 32;
}

/// `s` is `prefix` followed by a non-empty run of ASCII digits.
pub open spec fn prefix_then_digits(s: Seq<u8>, prefix: Seq<u8>) -> bool {
    starts_with(s, prefix) && digits_only(s.skip(prefix.len() as int))
}

/// Case-insensitive (ASCII) substring test.
pub open spec fn contains_ci(hay: Seq<u8>, needle: Seq<u8>) -> bool {
    contains(lower_seq(hay), lower_seq(needle))
}

/// `rest` is `<digits>-thread-<digits>` with the first dash at `d`.
pub open spec fn pool_split(rest: Seq<u8>, d: int) -> bool {
    &&& 0 < d < rest.len()
    &&& all_digits(rest.take(d))
    &&& rest[d] == 45
    &&& starts_with(rest.skip(d + 1), lit_thread_lower())
    &&& digits_only(rest.skip(d + 1).skip(7))
}

/// `pool-<digits>-thread-<digits>`.
pub open spec fn pool_rule(s: Seq<u8>) -> bool {
    starts_with(s, lit_pool()) && exists|d: int| pool_split(s.skip(5), d)
}

/// Well-known framework plumbing thread names.
pub open spec fn spec_matches_infra(s: Seq<u8>) -> bool {
    if pool_rule(s) {
        true
    } else if starts_with(s, lit_io_worker()) {
        digits_only(s.skip(16))
    } else if starts_with(s, lit_io_boss()) {
        digits_only(s.skip(14))
    } else if starts_with(s, lit_io_dispatcher()) {
        digits_only(s.skip(15))
    } else if starts_with(s, lit_jgroups()) {
        true
    } else {
        starts_with(s, lit_memcached())
    }
}

/// The rule table, first match wins.
pub open spec fn spec_classify(thread: Seq<u8>) -> ThreadGroup {
    if prefix_then_digits(thread, lit_play_thread()) {
        ThreadGroup::Requests
    } else if prefix_then_digits(thread, lit_jobs_thread()) {
        ThreadGroup::Jobs
    } else if contains_ci(thread, lit_quartz()) {
        ThreadGroup::Scheduler
    } else if thread == lit_main() {
        ThreadGroup::System
    } else if prefix_then_digits(thread, lit_thread_dash()) {
        ThreadGroup::System
    } else if spec_matches_infra(thread) {
        ThreadGroup::Infra
    } else {
        ThreadGroup::Other
    }
}

/// Classify a thread name into one of the five named groups, or `Other`.
pub fn classify(thread: &[u8]) -> (r: ThreadGroup)
    ensures
        r == spec_classify(thread@),
{
    let play = LIT_PLAY_THREAD;
    let jobs = LIT_JOBS_THREAD;
    let quartz = LIT_QUARTZ;
    let main = LIT_MAIN;
    let tdash = LIT_THREAD_DASH;
    proof {
        assert(play@ =~= lit_play_thread());
        assert(jobs@ =~= lit_jobs_thread());
        assert(quartz@ =~= lit_quartz());
        assert(main@ =~= lit_main());
        assert(tdash@ =~= lit_thread_dash());
    }
    if has_prefix_then_digits(thread, &play) {
        return ThreadGroup::Requests;
    }
    if has_prefix_then_digits(thread, &jobs) {
        return ThreadGroup::Jobs;
    }
    if contains_ascii_ci(thread, &quartz) {
        return ThreadGroup::Scheduler;
    }
    let is_main = thread.len() == 4 && bytes_start_with(thread, &main);
    proof {
        if thread@ == lit_main() {
            assert(thread@.take(4) =~= lit_main());
        }
        if is_main {
            assert(thread@ =~= thread@.take(4));
        }
    }
    if is_main {
        return ThreadGroup::System;
    }
    if has_prefix_then_digits(thread, &tdash) {
        return ThreadGroup::System;
    }
    if matches_infra(thread) {
        return ThreadGroup::Infra;
    }
    ThreadGroup::Other
}

/// True iff `s` starts with `prefix` and the remainder is a non-empty
/// ASCII-digit-only tail.
fn has_prefix_then_digits(s: &[u8], prefix: &[u8]) -> (r: bool)
    ensures
        r == prefix_then_digits(s@, prefix@),
{
    if !bytes_start_with(s, prefix) {
        return false;
    }
    let tail = &s[prefix.len()..s.len()];
    assert(tail@ =~= s@.skip(prefix@.len() as int));
    has_digits_only(tail)
}

/// Case-insensitive ASCII substring search. Non-ASCII bytes compare exactly.
fn contains_ascii_ci(haystack: &[u8], needle: &[u8]) -> (r: bool)
    ensures
        r == contains_ci(haystack@, needle@),
{
    let ghost lh = lower_seq(haystack@);
    let ghost ln = lower_seq(needle@);
    if needle.len() == 0 {
        assert(occurs_at(lh, ln, 0)) by {
            assert(lh.subrange(0, 0) =~= ln);
        }
        return true;
    }
    if haystack.len() < needle.len() {
        return false;
    }
    let nl = needle.len();
    let limit = haystack.len() - nl + 1;
    let mut i: usize = 0;
    while i < limit
        invariant
            nl == needle.len(),
            lh == lower_seq(haystack@),
            ln == lower_seq(needle@),
            limit == haystack.len() - nl + 1,
            i <= limit,
            forall|k: int| 0 <= k < i ==> !occurs_at(lh, ln, k),
        decreases limit - i,
    {
        if ci_match_at(haystack, needle, i) {
            return true;
        }
        i += 1;
    }
    assert forall|k: int| !occurs_at(lh, ln, k) by {
        if 0 <= k && k + ln.len() <= lh.len() {
            assert(k < i);
        }
    }
    false
}

/// Case-insensitive comparison of `needle` against `hay` at offset `i`.
fn ci_match_at(hay: &[u8], needle: &[u8], i: usize) -> (r: bool)
    requires
        i + needle.len() <= hay.len(),
    ensures
        r == occurs_at(lower_seq(hay@), lower_seq(needle@), i as int),
{
    let ghost lh = lower_seq(hay@);
    let ghost ln = lower_seq(needle@);
    let mut j: usize = 0;
    while j < needle.len()
        invariant
            i + needle.len() <= hay.len(),
            lh == lower_seq(hay@),
            ln == lower_seq(needle@),
            j <= needle.len(),
            forall|k: int| 0 <= k < j ==> lh[i + k] == ln[k],
        decreases needle.len() - j,
    {
        if to_lower_byte(hay[i + j]) != to_lower_byte(needle[j]) {
            assert(lh.subrange(i as int, i + needle.len())[j as int] != ln[j as int]);
            return false;
        }
        j += 1;
    }
    assert(lh.subrange(i as int, i + needle.len()) =~= ln);
    true
}

/// Index of the first `-` in `s`, if any.
fn first_dash(s: &[u8]) -> (r: Option<usize>)
    ensures
        match r {
            Some(d) => d < s.len() && s@[d as int] == 45 && forall|k: int| 0 <= k < d ==> s@[k] != 45,
            None => forall|k: int| 0 <= k < s.len() ==> s@[k] != 45,
        },
{
    let mut i: usize = 0;
    while i < s.len()
        invariant
            i <= s.len(),
            forall|k: int| 0 <= k < i ==> s@[k] != 45,
        decreases s.len() - i,
    {
        if s[i] == 45u8 {
            return Some(i);
        }
        i += 1;
    }
    None
}

fn matches_pool(s: &[u8]) -> (r: bool)
    ensures
        r == pool_rule(s@),
{
    let pool = LIT_POOL;
    let thread = LIT_THREAD_LOWER;
    proof {
        assert(pool@ =~= lit_pool());
        assert(thread@ =~= lit_thread_lower());
    }
    if !bytes_start_with(s, &pool) {
        return false;
    }
    let rest = &s[5..s.len()];
    assert(rest@ =~= s@.skip(5));
    match first_dash(rest) {
        None => {
            assert forall|d: int| !pool_split(rest@, d) by {}
            false
        },
        Some(dash) => {
            let pool_id = &rest[0..dash];
            let after = &rest[dash + 1..rest.len()];
            assert(pool_id@ =~= rest@.take(dash as int));
            assert(after@ =~= rest@.skip(dash + 1));
            let ok = dash > 0 && bytes_all_digits(pool_id) && bytes_start_with(after, &thread)
                && has_digits_only(&after[7..after.len()]);
            if ok {
                assert(after@.skip(7) =~= rest@.skip(dash + 1).skip(7));
                assert(pool_split(rest@, dash as int));
                true
            } else {
                assert forall|d: int| !pool_split(rest@, d) by {
                    if pool_split(rest@, d) {
                        if (dash as int) < d {
                            assert(rest@.take(d)[dash as int] == rest@[dash as int]);
                            assert(is_digit(rest@.take(d)[dash as int]));
                        }
                        assert(d == dash);
                        assert(after@.skip(7) =~= rest@.skip(dash + 1).skip(7));
                    }
                }
                false
            }
        },
    }
}

fn matches_infra(s: &[u8]) -> (r: bool)
    ensures
        r == spec_matches_infra(s@),
{
    let worker = LIT_IO_WORKER;
    let boss = LIT_IO_BOSS;
    let dispatcher = LIT_IO_DISPATCHER;
    let jgroups = LIT_JGROUPS;
    let memcached = LIT_MEMCACHED;
    proof {
        assert(worker@ =~= lit_io_worker());
        assert(boss@ =~= lit_io_boss());
        assert(dispatcher@ =~= lit_io_dispatcher());
        assert(jgroups@ =~= lit_jgroups());
        assert(memcached@ =~= lit_memcached());
    }
    if matches_pool(s) {
        return true;
    }
    if let Some(rest) = strip_prefix(s, &worker) {
        return has_digits_only(rest);
    }
    if let Some(rest) = strip_prefix(s, &boss) {
        return has_digits_only(rest);
    }
    if let Some(rest) = strip_prefix(s, &dispatcher) {
        return has_digits_only(rest);
    }
    if bytes_start_with(s, &jgroups) {
        return true;
    }
    bytes_start_with(s, &memcached)
}

fn strip_prefix<'a>(s: &'a [u8], prefix: &[u8]) -> (r: Option<&'a [u8]>)
    ensures
        match r {
            Some(rest) => starts_with(s@, prefix@) && rest@ == s@.skip(prefix@.len() as int),
            None => !starts_with(s@, prefix@),
        },
{
    if bytes_start_with(s, prefix) {
        Some(&s[prefix.len()..s.len()])
    } else {
        None
    }
}

fn has_digits_only(s: &[u8]) -> (r: bool)
    ensures
        r == digits_only(s@),
{
    s.len() > 0 && bytes_all_digits(s)
}

} // verus!
