//! Persistent user state: settings with the recent-files list, the tab list
//! a session restores, and the update checker's cadence and snooze.
//! Reading and writing the JSON files is the caller's business; these are
//! the rules applied to the values.

use vstd::prelude::*;
use crate::pattern::str_eq;
use crate::text::{chars_of, string_from_chars};

verus! {

/// Format version written into every state file.
pub const SCHEMA_VERSION: u32 = 1;

/// Most recent files remembered.
pub const RECENT_FILES_CAP: usize = 20;

/// User settings.
#[derive(Debug, Clone)]
pub struct Settings {
    pub schema: u32,
    /// `system`, `light` or `dark`.
    pub theme: String,
    /// Base font size in CSS pixels.
    pub font_size: u32,
    /// Recently opened paths, most recent first.
    pub recent_files: Vec<String>,
    /// Whether newly opened files follow their tail.
    pub follow_tail_default: bool,
}

/// The default theme name.
pub fn default_theme() -> (r: String)
    ensures
        r@ == "system"@,
{
    "system".to_owned()
}

/// The default base font size.
pub fn default_font_size() -> (r: u32)
    ensures
        r == 13,
{
    13
}

impl Default for Settings {
    fn default() -> (r: Settings)
        ensures
            r.schema == SCHEMA_VERSION,
            r.theme@ == "system"@,
            r.font_size == 13,
            r.recent_files@.len() == 0,
            r.follow_tail_default,
    {
        Settings {
            schema: SCHEMA_VERSION,
            theme: default_theme(),
            font_size: default_font_size(),
            recent_files: Vec::new(),
            follow_tail_default: true,
        }
    }
}

/// The text of each path.
pub open spec fn path_views(s: Seq<String>) -> Seq<Seq<char>> {
    s.map_values(|p: String| p@)
}

/// Differs from `path`.
pub open spec fn not_path(path: Seq<char>) -> spec_fn(Seq<char>) -> bool {
    |p: Seq<char>| p != path
}

/// `paths` without every entry equal to `path`.
pub open spec fn without_path(paths: Seq<Seq<char>>, path: Seq<char>) -> Seq<Seq<char>> {
    paths.filter(not_path(path))
}

/// The recent list after touching `path`: `path` first, then the others in
/// their order without it, at most `RECENT_FILES_CAP` entries.
pub open spec fn touched(paths: Seq<Seq<char>>, path: Seq<char>) -> Seq<Seq<char>> {
    let all = seq![path] + without_path(paths, path);
    if all.len() > RECENT_FILES_CAP {
        all.take(RECENT_FILES_CAP as int)
    } else {
        all
    }
}

/// Keep the entries of `v` not equal to `path`.
fn retain_other(v: &Vec<String>, path: &str) -> (r: Vec<String>)
    ensures
        path_views(r@) == without_path(path_views(v@), path@),
{
    let mut out: Vec<String> = Vec::new();
    let mut i: usize = 0;
    while i < v.len()
        invariant
            i <= v@.len(),
            path_views(out@) == without_path(path_views(v@.take(i as int)), path@),
        decreases v@.len() - i,
    {
        proof {
            assert(path_views(v@.take(i + 1)).drop_last() =~= path_views(v@.take(i as int)));
            assert(path_views(v@.take(i + 1)).last() == v@[i as int]@);
            reveal(Seq::filter);
        }
        if !str_eq(v[i].as_str(), path) {
            out.push(v[i].clone());
            assert(path_views(out@) =~= path_views(out@.drop_last()).push(v@[i as int]@));
        }
        i += 1;
    }
    assert(v@.take(v@.len() as int) =~= v@);
    out
}

impl Settings {
    /// Put `path` at the front of the recent list, dropping any other copy
    /// of it and keeping at most `RECENT_FILES_CAP` entries. An empty path
    /// changes nothing.
    pub fn touch_recent(&mut self, path: &str)
        ensures
            path@.len() == 0 ==> path_views(final(self).recent_files@) == path_views(
                old(self).recent_files@,
            ),
            path@.len() > 0 ==> path_views(final(self).recent_files@) == touched(
                path_views(old(self).recent_files@),
                path@,
            ),
            final(self).schema == old(self).schema,
            final(self).theme == old(self).theme,
            final(self).font_size == old(self).font_size,
            final(self).follow_tail_default == old(self).follow_tail_default,
    {
        if path.as_bytes().len() == 0 {
            proof {
                assert(path@.len() == 0) by {
                    if path@.len() > 0 {
                        assert(vstd::utf8::encode_utf8(path@).len() > 0) by {
                            reveal_with_fuel(vstd::utf8::encode_utf8, 2);
                        }
                    }
                }
            }
            return;
        }
        assert(path@.len() > 0);
        let mut kept = retain_other(&self.recent_files, path);
        let ghost before = path_views(kept@);
        kept.insert(0, path.to_owned());
        assert(path_views(kept@) =~= seq![path@] + before);
        if kept.len() > RECENT_FILES_CAP {
            kept.truncate(RECENT_FILES_CAP);
            assert(path_views(kept@) =~= (seq![path@] + before).take(RECENT_FILES_CAP as int));
        }
        self.recent_files = kept;
    }

    /// Drop every copy of `path` from the recent list.
    pub fn forget_recent(&mut self, path: &str)
        ensures
            path_views(final(self).recent_files@) == without_path(
                path_views(old(self).recent_files@),
                path@,
            ),
            final(self).schema == old(self).schema,
            final(self).theme == old(self).theme,
            final(self).font_size == old(self).font_size,
            final(self).follow_tail_default == old(self).follow_tail_default,
    {
        self.recent_files = retain_other(&self.recent_files, path);
    }
}

/// Smallest base font size a patch can set.
pub const FONT_SIZE_MIN: u32 = 9;

/// Largest base font size a patch can set.
pub const FONT_SIZE_MAX: u32 = 24;

/// A change to the settings: each field given replaces the stored one.
#[derive(Debug, Clone, Default)]
pub struct SettingsPatch {
    pub theme: Option<String>,
    /// Clamped to `FONT_SIZE_MIN..=FONT_SIZE_MAX`.
    pub font_size: Option<u32>,
    pub follow_tail_default: Option<bool>,
}

/// `f` clamped to the font sizes a patch can set.
pub open spec fn clamp_font_size(f: u32) -> u32 {
    if f < FONT_SIZE_MIN {
        FONT_SIZE_MIN
    } else if f > FONT_SIZE_MAX {
        FONT_SIZE_MAX
    } else {
        f
    }
}

impl Settings {
    /// Apply `patch`: every field it gives replaces the stored one, the font
    /// size clamped into range; the rest is left as it was.
    pub fn apply_patch(&mut self, patch: SettingsPatch)
        ensures
            final(self).theme@ == (match patch.theme {
                Some(t) => t@,
                None => old(self).theme@,
            }),
            final(self).font_size == (match patch.font_size {
                Some(f) => clamp_font_size(f),
                None => old(self).font_size,
            }),
            final(self).follow_tail_default == (match patch.follow_tail_default {
                Some(b) => b,
                None => old(self).follow_tail_default,
            }),
            final(self).schema == old(self).schema,
            final(self).recent_files@ == old(self).recent_files@,
    {
        if let Some(t) = patch.theme {
            self.theme = t;
        }
        if let Some(f) = patch.font_size {
            self.font_size = if f < FONT_SIZE_MIN {
                FONT_SIZE_MIN
            } else if f > FONT_SIZE_MAX {
                FONT_SIZE_MAX
            } else {
                f
            };
        }
        if let Some(b) = patch.follow_tail_default {
            self.follow_tail_default = b;
        }
    }
}

/// Touching a path puts it first, leaves no second copy of it, keeps the
/// list within its cap and loses no other entry that fits.
pub proof fn law_touch_recent(paths: Seq<Seq<char>>, path: Seq<char>)
    ensures
        touched(paths, path).len() > 0,
        touched(paths, path)[0] == path,
        touched(paths, path).len() <= RECENT_FILES_CAP,
        forall|i: int| 1 <= i < touched(paths, path).len() ==> touched(paths, path)[i] != path,
        forall|i: int|
            0 <= i < without_path(paths, path).len() && i + 1 < RECENT_FILES_CAP ==> touched(
                paths,
                path,
            )[i + 1] == without_path(paths, path)[i],
{
    let rest = without_path(paths, path);
    let all = seq![path] + rest;
    assert forall|i: int| 0 <= i < rest.len() implies rest[i] != path by {
        paths.lemma_filter_pred(not_path(path), i);
    }
    assert forall|i: int| 1 <= i < touched(paths, path).len() implies touched(paths, path)[i] != path by {
        assert(touched(paths, path)[i] == all[i]);
        assert(all[i] == rest[i - 1]);
    }
}

/// A path touched again after others is first once more, without a copy
/// of it further down: re-opening a file moves it, never duplicates it.
pub proof fn law_touch_recent_twice(paths: Seq<Seq<char>>, a: Seq<char>, b: Seq<char>)
    requires
        a != b,
    ensures
        touched(touched(touched(paths, a), b), a)[0] == a,
        forall|i: int|
            1 <= i < touched(touched(touched(paths, a), b), a).len() ==> touched(
                touched(touched(paths, a), b),
                a,
            )[i] != a,
{
    law_touch_recent(touched(touched(paths, a), b), a);
}

/// Fold a legacy single `last_file` into an empty tab list, then pull the
/// active tab index back inside the tabs.
pub fn normalise_tabs<T>(tabs: Vec<T>, last_file: Option<T>, active_tab: usize) -> (r: (
    Vec<T>,
    Option<T>,
    usize,
))
    ensures
        old_tabs_empty_and_last(tabs@, last_file) ==> r.0@ == seq![last_file.unwrap()] && r.1 is None
            && r.2 == 0,
        !old_tabs_empty_and_last(tabs@, last_file) ==> r.0@ == tabs@ && r.1 == last_file && r.2 == (
        if tabs@.len() > 0 && active_tab >= tabs@.len() {
            (tabs@.len() - 1) as usize
        } else {
            active_tab
        }),
{
    let mut tabs = tabs;
    let mut last_file = last_file;
    let mut active_tab = active_tab;
    if tabs.len() == 0 {
        match last_file {
            Some(f) => {
                tabs.push(f);
                last_file = None;
                active_tab = 0;
            },
            None => {
                last_file = None;
            },
        }
    }
    if tabs.len() > 0 && active_tab >= tabs.len() {
        active_tab = tabs.len() - 1;
    }
    (tabs, last_file, active_tab)
}

/// The tab list is empty and a legacy last file is there to fold in.
pub open spec fn old_tabs_empty_and_last<T>(tabs: Seq<T>, last_file: Option<T>) -> bool {
    tabs.len() == 0 && last_file is Some
}

/// Seconds between silent update checks.
pub const SILENT_CHECK_INTERVAL_SECS: u64 = 86400;

/// Seconds a dismissed version stays snoozed.
pub const SNOOZE_DURATION_SECS: u64 = 604800;

/// Nanoseconds per second.
pub const NANOS_PER_SEC: i128 = 1_000_000_000;

/// Whole seconds since the Unix epoch of a clock reading `now_ns`
/// nanoseconds from it; `None` before the epoch.
pub open spec fn unix_secs(now_ns: int) -> Option<u64> {
    if now_ns < 0 || now_ns / (NANOS_PER_SEC as int) > u64::MAX {
        None
    } else {
        Some((now_ns / (NANOS_PER_SEC as int)) as u64)
    }
}

fn unix_secs_exec(now_ns: i128) -> (r: Option<u64>)
    ensures
        r == unix_secs(now_ns as int),
{
    if now_ns < 0 {
        return None;
    }
    let s = now_ns / NANOS_PER_SEC;
    if s > u64::MAX as i128 {
        None
    } else {
        Some(s as u64)
    }
}

/// The update checker's persisted state. Times are seconds since the Unix
/// epoch; clock readings are passed in as nanoseconds since it.
#[derive(Debug, Clone)]
pub struct UpdateState {
    pub schema: u32,
    /// When the last silent check ran; `None`: never.
    pub last_check_unix: Option<u64>,
    /// The version the user snoozed.
    pub snoozed_version: Option<String>,
    /// When the snooze ends.
    pub snoozed_until_unix: Option<u64>,
}

impl Default for UpdateState {
    fn default() -> (r: UpdateState)
        ensures
            r.schema == 0,
            r.last_check_unix is None,
            r.snoozed_version is None,
            r.snoozed_until_unix is None,
    {
        UpdateState { schema: 0, last_check_unix: None, snoozed_version: None, snoozed_until_unix: None }
    }
}

impl UpdateState {
    /// A silent check is due when none ran yet, the clock reads before the
    /// epoch, or at least a day passed since the last one.
    pub open spec fn spec_should_silent_check(&self, now_ns: i128) -> bool {
        match self.last_check_unix {
            None => true,
            Some(last) => match unix_secs(now_ns as int) {
                None => true,
                Some(now) => (if now >= last {
                    now - last
                } else {
                    0
                }) >= SILENT_CHECK_INTERVAL_SECS,
            },
        }
    }

    pub fn should_silent_check(&self, now_ns: i128) -> (r: bool)
        ensures
            r == self.spec_should_silent_check(now_ns),
    {
        let last = match self.last_check_unix {
            Some(l) => l,
            None => return true,
        };
        let now = match unix_secs_exec(now_ns) {
            Some(n) => n,
            None => return true,
        };
        now.saturating_sub(last) >= SILENT_CHECK_INTERVAL_SECS
    }

    /// `version` is snoozed: it is the snoozed version exactly and the
    /// snooze has not ended (a clock before the epoch snoozes nothing).
    pub open spec fn spec_is_snoozed(&self, version: Seq<char>, now_ns: i128) -> bool {
        match (self.snoozed_version, self.snoozed_until_unix, unix_secs(now_ns as int)) {
            (Some(v), Some(until), Some(now)) => v@ == version && now < until,
            _ => false,
        }
    }

    pub fn is_snoozed(&self, version: &str, now_ns: i128) -> (r: bool)
        ensures
            r == self.spec_is_snoozed(version@, now_ns),
    {
        let snoozed = match &self.snoozed_version {
            Some(v) => v,
            None => return false,
        };
        if !str_eq(snoozed.as_str(), version) {
            return false;
        }
        let until = match self.snoozed_until_unix {
            Some(u) => u,
            None => return false,
        };
        match unix_secs_exec(now_ns) {
            Some(now) => now < until,
            None => false,
        }
    }

    /// Record that a silent check ran now (a clock before the epoch records
    /// nothing).
    pub fn mark_checked(&mut self, now_ns: i128)
        ensures
            final(self).last_check_unix == match unix_secs(now_ns as int) {
                Some(s) => Some(s),
                None => old(self).last_check_unix,
            },
            final(self).snoozed_version == old(self).snoozed_version,
            final(self).snoozed_until_unix == old(self).snoozed_until_unix,
            final(self).schema == old(self).schema,
    {
        if let Some(s) = unix_secs_exec(now_ns) {
            self.last_check_unix = Some(s);
        }
    }

    /// Snooze `version` for a week from now. When the end of the week
    /// would still be before the epoch nothing changes.
    pub fn snooze(&mut self, version: &str, now_ns: i128)
        requires
            now_ns <= i128::MAX - SNOOZE_DURATION_SECS * NANOS_PER_SEC,
        ensures
            ({
                let until = unix_secs(now_ns + SNOOZE_DURATION_SECS * NANOS_PER_SEC);
                &&& until is Some ==> (final(self).snoozed_version matches Some(v) && v@ == version@
                    && final(self).snoozed_until_unix == until)
                &&& until is None ==> final(self).snoozed_version == old(self).snoozed_version
                    && final(self).snoozed_until_unix == old(self).snoozed_until_unix
            }),
            final(self).last_check_unix == old(self).last_check_unix,
            final(self).schema == old(self).schema,
    {
        let until_ns = now_ns + (SNOOZE_DURATION_SECS as i128) * NANOS_PER_SEC;
        if let Some(secs) = unix_secs_exec(until_ns) {
            self.snoozed_version = Some(version.to_owned());
            self.snoozed_until_unix = Some(secs);
        }
    }
}

/// A version snoozed at some moment stays snoozed for a week, and no other
/// version is snoozed by it.
pub proof fn law_snooze_window(st: UpdateState, now_ns: i128, later_ns: i128, other: Seq<char>)
    requires
        st.snoozed_version is Some,
        st.snoozed_until_unix == unix_secs(now_ns + SNOOZE_DURATION_SECS * NANOS_PER_SEC),
        0 <= now_ns <= later_ns,
        now_ns + SNOOZE_DURATION_SECS * NANOS_PER_SEC <= u64::MAX as int * NANOS_PER_SEC,
        other != st.snoozed_version.unwrap()@,
    ensures
        later_ns < now_ns + SNOOZE_DURATION_SECS * NANOS_PER_SEC - NANOS_PER_SEC ==> st.spec_is_snoozed(
            st.snoozed_version.unwrap()@,
            later_ns,
        ),
        later_ns >= now_ns + SNOOZE_DURATION_SECS * NANOS_PER_SEC ==> !st.spec_is_snoozed(
            st.snoozed_version.unwrap()@,
            later_ns,
        ),
        !st.spec_is_snoozed(other, later_ns),
{
}

/// Unicode `White_Space` characters, as `str::trim` strips them.
pub open spec fn is_white_space(c: char) -> bool {
    ('\u{9}' <= c && c <= '\u{d}') || c == ' ' || c == '\u{85}' || c == '\u{a0}' || c == '\u{1680}' || (
    '\u{2000}' <= c && c <= '\u{200a}') || c == '\u{2028}' || c == '\u{2029}' || c == '\u{202f}' || c
        == '\u{205f}' || c == '\u{3000}'
}

/// `s` without white space at either end.
pub open spec fn trim_white(s: Seq<char>) -> Seq<char>
    decreases s.len(),
{
    if s.len() > 0 && is_white_space(s[0]) {
        trim_white(s.drop_first())
    } else if s.len() > 0 && is_white_space(s.last()) {
        trim_white(s.drop_last())
    } else {
        s
    }
}

/// Index of the first `\n` in `s` at or after `i`, or its length.
pub open spec fn first_newline(s: Seq<char>, i: int) -> int
    decreases s.len() - i,
{
    if i < 0 || i >= s.len() {
        s.len() as int
    } else if s[i] == '\n' {
        i
    } else {
        first_newline(s, i + 1)
    }
}

/// The first line of `s`, as `str::lines` gives it: up to the first `\n`,
/// without a `\r` just before it.
pub open spec fn first_line(s: Seq<char>) -> Seq<char> {
    let i = first_newline(s, 0);
    let l = s.take(i);
    if i < s.len() && l.len() > 0 && l.last() == '\r' {
        l.drop_last()
    } else {
        l
    }
}

/// The one-line release notes of an update's body: the first line of the
/// trimmed body, or nothing when the body is missing or blank.
pub open spec fn release_notes(body: Option<Seq<char>>) -> Option<Seq<char>> {
    match body {
        None => None,
        Some(b) => if trim_white(b).len() == 0 {
            None
        } else {
            Some(first_line(trim_white(b)))
        },
    }
}

fn is_white_space_exec(c: char) -> (r: bool)
    ensures
        r == is_white_space(c),
{
    ('\u{9}' <= c && c <= '\u{d}') || c == ' ' || c == '\u{85}' || c == '\u{a0}' || c == '\u{1680}' || (
    '\u{2000}' <= c && c <= '\u{200a}') || c == '\u{2028}' || c == '\u{2029}' || c == '\u{202f}' || c
        == '\u{205f}' || c == '\u{3000}'
}

proof fn lemma_trim_bounds(s: Seq<char>, a: int, b: int)
    requires
        0 <= a <= b <= s.len(),
        forall|k: int| 0 <= k < a ==> is_white_space(#[trigger] s[k]),
        forall|k: int| b <= k < s.len() ==> is_white_space(#[trigger] s[k]),
        a < b ==> !is_white_space(s[a]) && !is_white_space(s[b - 1]),
        a == b ==> b == s.len(),
    ensures
        trim_white(s) == s.subrange(a, b),
    decreases s.len(),
{
    if a > 0 {
        let t = s.drop_first();
        assert forall|k: int| 0 <= k < a - 1 implies is_white_space(#[trigger] t[k]) by {
            assert(t[k] == s[k + 1]);
        }
        assert forall|k: int| b - 1 <= k < t.len() implies is_white_space(#[trigger] t[k]) by {
            assert(t[k] == s[k + 1]);
        }
        if a < b {
            assert(t[a - 1] == s[a] && t[b - 2] == s[b - 1]);
        }
        lemma_trim_bounds(t, a - 1, b - 1);
        assert(t.subrange(a - 1, b - 1) =~= s.subrange(a, b));
    } else if b < s.len() {
        let t = s.drop_last();
        assert forall|k: int| b <= k < t.len() implies is_white_space(#[trigger] t[k]) by {
            assert(t[k] == s[k]);
        }
        if s.len() > 0 && is_white_space(s[0]) {
            assert(a == b);
            assert(false);
        }
        assert(s.last() == s[s.len() - 1]);
        if a < b {
            assert(t[a] == s[a] && t[b - 1] == s[b - 1]);
        }
        lemma_trim_bounds(t, a, b);
        assert(t.subrange(a, b) =~= s.subrange(a, b));
    } else {
        if a < b {
            assert(s.last() == s[b - 1]);
        }
        assert(s.subrange(a, b) =~= s);
    }
}

/// The one-line release notes of an update's `body`.
pub fn release_notes_of(body: Option<&str>) -> (r: Option<String>)
    ensures
        match body {
            None => r is None,
            Some(b) => match r {
                None => release_notes(Some(b@)) is None,
                Some(n) => release_notes(Some(b@)) == Some(n@),
            },
        },
{
    let b = match body {
        None => return None,
        Some(b) => b,
    };
    let cs = chars_of(b);
    let ghost s = cs@;
    let mut a: usize = 0;
    while a < cs.len() && is_white_space_exec(cs[a])
        invariant
            s == cs@,
            a <= cs.len(),
            forall|k: int| 0 <= k < a ==> is_white_space(#[trigger] s[k]),
        decreases cs.len() - a,
    {
        a += 1;
    }
    let mut e: usize = cs.len();
    while e > a && is_white_space_exec(cs[e - 1])
        invariant
            s == cs@,
            a <= e <= cs.len(),
            forall|k: int| e <= k < s.len() ==> is_white_space(#[trigger] s[k]),
        decreases e,
    {
        e -= 1;
    }
    proof {
        lemma_trim_bounds(s, a as int, e as int);
    }
    if a == e {
        return None;
    }
    let ghost t = s.subrange(a as int, e as int);
    let mut i: usize = a;
    while i < e && cs[i] != '\n'
        invariant
            s == cs@,
            t == s.subrange(a as int, e as int),
            a <= i <= e <= cs.len(),
            first_newline(t, 0) == first_newline(t, i - a),
        decreases e - i,
    {
        i += 1;
    }
    let mut end = i;
    if i < e && end > a && cs[end - 1] == '\r' {
        end -= 1;
    }
    let mut out: Vec<char> = Vec::new();
    let mut k: usize = a;
    while k < end
        invariant
            s == cs@,
            a <= k <= end <= cs.len(),
            out@ =~= s.subrange(a as int, k as int),
        decreases end - k,
    {
        out.push(cs[k]);
        k += 1;
    }
    proof {
        assert(first_newline(t, (i - a) as int) == i - a);
        assert(out@ =~= first_line(t));
    }
    Some(string_from_chars(&out))
}

/// What an update check reports.
#[derive(Debug, Clone)]
pub struct UpdateStatus {
    /// A newer version is out and not snoozed.
    pub available: bool,
    pub current_version: String,
    /// The advertised version, when one was found.
    pub available_version: Option<String>,
    /// One line of release notes.
    pub notes: Option<String>,
    /// `installer` or `portable`.
    pub mode: &'static str,
    /// The cadence kept the check from running.
    pub skipped_by_cadence: bool,
    /// The advertised version is snoozed.
    pub snoozed: bool,
}

/// What looking for an update found: a newer version with its release
/// body, or nothing.
#[derive(Debug, Clone)]
pub struct FoundUpdate {
    pub version: String,
    pub body: Option<String>,
}

/// Whether an update check runs now: always when forced, else when the
/// silent cadence is due.
pub fn update_check_due(state: &UpdateState, force: bool, now_ns: i128) -> (r: bool)
    ensures
        r == (force || state.spec_should_silent_check(now_ns)),
{
    force || state.should_silent_check(now_ns)
}

/// The status an update check reports: skipped when not forced and the
/// cadence is not due; otherwise what the lookup `found` (made only when
/// the check ran) turned up, marked snoozed (and so not available) when the
/// check was not forced and the version is snoozed.
pub fn update_status(
    state: &UpdateState,
    force: bool,
    now_ns: i128,
    current_version: String,
    portable: bool,
    found: Option<FoundUpdate>,
) -> (r: UpdateStatus)
    ensures
        r.current_version == current_version,
        r.mode@ == (if portable {
            "portable"@
        } else {
            "installer"@
        }),
        !(force || state.spec_should_silent_check(now_ns)) ==> {
            &&& !r.available && r.skipped_by_cadence && !r.snoozed
            &&& r.available_version is None && r.notes is None
        },
        (force || state.spec_should_silent_check(now_ns)) ==> {
            &&& !r.skipped_by_cadence
            &&& match found {
                None => !r.available && !r.snoozed && r.available_version is None && r.notes is None,
                Some(u) => {
                    &&& r.snoozed == (!force && state.spec_is_snoozed(u.version@, now_ns))
                    &&& r.available == !r.snoozed
                    &&& r.available_version == Some(u.version)
                    &&& match r.notes {
                        None => release_notes(
                            match u.body {
                                Some(b) => Some(b@),
                                None => None,
                            },
                        ) is None,
                        Some(n) => release_notes(
                            match u.body {
                                Some(b) => Some(b@),
                                None => None,
                            },
                        ) == Some(n@),
                    }
                },
            }
        },
{
    let mode = if portable {
        "portable"
    } else {
        "installer"
    };
    proof {
        reveal_strlit("portable");
        reveal_strlit("installer");
    }
    if !update_check_due(state, force, now_ns) {
        return UpdateStatus {
            available: false,
            current_version,
            available_version: None,
            notes: None,
            mode,
            skipped_by_cadence: true,
            snoozed: false,
        };
    }
    match found {
        None => UpdateStatus {
            available: false,
            current_version,
            available_version: None,
            notes: None,
            mode,
            skipped_by_cadence: false,
            snoozed: false,
        },
        Some(u) => {
            let notes = match &u.body {
                Some(b) => release_notes_of(Some(b.as_str())),
                None => release_notes_of(None),
            };
            let snoozed = !force && state.is_snoozed(u.version.as_str(), now_ns);
            UpdateStatus {
                available: !snoozed,
                current_version,
                available_version: Some(u.version),
                notes,
                mode,
                skipped_by_cadence: false,
                snoozed,
            }
        },
    }
}

/// One user highlight rule.
#[derive(Debug, Clone)]
pub struct UserHighlightRule {
    pub name: String,
    pub pattern: String,
    pub flags: String,
    pub priority: i32,
    /// Palette key, or empty for the class only.
    pub colour: String,
    /// Background palette key, or empty for none.
    pub background: String,
    pub bold: bool,
    pub italic: bool,
    pub underline: bool,
    pub enabled: bool,
}

/// The global highlight rules.
#[derive(Debug, Clone, Default)]
pub struct HighlightRulesFile {
    pub schema: u32,
    pub rules: Vec<UserHighlightRule>,
}

/// Highlight rules saved for one source file, which records that file's
/// path.
#[derive(Debug, Clone)]
pub struct PerFileRulesFile {
    pub schema: u32,
    /// The source path the rules apply to; empty when not recorded.
    pub path: String,
    pub rules: Vec<UserHighlightRule>,
}

impl PerFileRulesFile {
    /// No rules, for no recorded file.
    pub fn empty() -> (r: PerFileRulesFile)
        ensures
            r.schema == 0,
            r.path@.len() == 0,
            r.rules@.len() == 0,
    {
        PerFileRulesFile { schema: 0, path: String::new(), rules: Vec::new() }
    }

    /// The rules as read for the source file `key`: kept when they record
    /// no path or that very path, else none at all, so rules saved for
    /// another file are never handed over.
    pub fn for_source(self, key: &str) -> (r: PerFileRulesFile)
        ensures
            (self.path@.len() == 0 || self.path@ == key@) ==> r == self,
            !(self.path@.len() == 0 || self.path@ == key@) ==> r.schema == 0 && r.path@.len() == 0
                && r.rules@.len() == 0,
    {
        let keep = self.path.as_str().as_bytes().len() == 0 || str_eq(self.path.as_str(), key);
        proof {
            if self.path@.len() > 0 {
                assert(vstd::utf8::encode_utf8(self.path@).len() > 0) by {
                    reveal_with_fuel(vstd::utf8::encode_utf8, 2);
                }
            }
        }
        if keep {
            self
        } else {
            PerFileRulesFile::empty()
        }
    }
}

} // verus!
