//! Requests the UI makes of an opened file: starting a search, listing the
//! records that pass the level and thread filters, and the launch paths.

use vstd::prelude::*;
use vstd::string::StringSliceAdditionalSpecFns;
use vstd::utf8::encode_utf8;
use crate::record::{Level, RecordHeader};
use crate::regex_scanner::{regex_compiles, regex_error_text, CompiledRegex};
use crate::search::{
    build_regex_pattern, record_passes, regex_pattern, smart_tokens, spec_record_passes,
    spec_smart_tokens, HitRef, LevelMask, SearchMode, SearchOptions,
};
use crate::thread_groups::ThreadGroupMask;
use crate::pattern::str_eq;
use crate::viewer::{lossy_string, utf8_lossy, OpenedFile, ViewError};
use crate::markers::{
    builtin_marker_rules, marker_line_start, markers_upto, rules_view, scan_markers,
    spec_builtin_marker_rules, MarkerRef,
};
use crate::index::{is_line_start, lemma_line_starts};

verus! {

/// The level mask carried in the low 16 bits of `bits`.
pub open spec fn level_mask_of(bits: u32) -> LevelMask {
    LevelMask((bits & 0xFFFF) as u16)
}

/// The thread-group mask carried in the low 8 bits of `bits`.
pub open spec fn thread_mask_of(bits: u32) -> ThreadGroupMask {
    ThreadGroupMask((bits & 0xFF) as u8)
}

/// The thread-group mask a request carries when it names none: every group.
pub fn default_full_thread_group_mask() -> (r: u32)
    ensures
        r == 0x3F,
{
    0x3F
}

/// Search options from the UI's bit masks.
pub fn options_from_bits(case_sensitive: bool, level_mask: u32, thread_group_mask: u32) -> (r:
    SearchOptions)
    ensures
        r.case_sensitive == case_sensitive,
        r.level_mask == level_mask_of(level_mask),
        r.thread_group_mask == thread_mask_of(thread_group_mask),
{
    SearchOptions {
        case_sensitive,
        level_mask: LevelMask((level_mask & 0xFFFF) as u16),
        thread_group_mask: ThreadGroupMask((thread_group_mask & 0xFF) as u8),
    }
}

/// A search as the UI asks for it.
#[derive(Debug, Clone)]
pub struct SearchRequest {
    /// `smart` or `regex`.
    pub mode: String,
    pub query: String,
    pub case_sensitive: bool,
    /// Allowed levels, one bit per level.
    pub level_mask: u32,
    /// Allowed thread groups, one bit per group.
    pub thread_group_mask: u32,
}

/// Why a search request was refused before it ran.
#[derive(Debug, Clone, PartialEq, Eq)]
pub enum SearchRequestError {
    /// The mode is neither `smart` nor `regex`.
    UnknownMode(String),
    /// A smart query with no token.
    EmptyQuery,
    /// The regex does not compile; the regex crate's message.
    BadRegex(String),
}

/// The search mode a mode name selects.
pub open spec fn spec_mode_of(name: Seq<char>) -> Option<SearchMode> {
    if name == "smart"@ {
        Some(SearchMode::Smart)
    } else if name == "regex"@ {
        Some(SearchMode::Regex)
    } else {
        None
    }
}

/// The options a request's flags and masks give.
pub open spec fn request_options(request: SearchRequest) -> SearchOptions {
    SearchOptions {
        case_sensitive: request.case_sensitive,
        level_mask: level_mask_of(request.level_mask),
        thread_group_mask: thread_mask_of(request.thread_group_mask),
    }
}

/// Check a search request before running it: the mode must be known, a
/// smart query must hold a token and a regex must compile. On success,
/// the mode and the options the flags and masks give.
pub fn plan_search(request: &SearchRequest) -> (r: Result<(SearchMode, SearchOptions), SearchRequestError>)
    ensures
        match spec_mode_of(request.mode@) {
            None => r matches Err(SearchRequestError::UnknownMode(m)) && m@ == request.mode@,
            Some(SearchMode::Smart) => if spec_smart_tokens(
                encode_utf8(request.query@),
                request.case_sensitive,
            ).len() == 0 {
                r matches Err(SearchRequestError::EmptyQuery)
            } else {
                r matches Ok((m, o)) && m == SearchMode::Smart && o == request_options(*request)
            },
            Some(SearchMode::Regex) => if !regex_compiles(
                regex_pattern(request.query@, request.case_sensitive),
            ) {
                r matches Err(SearchRequestError::BadRegex(_))
            } else {
                r matches Ok((m, o)) && m == SearchMode::Regex && o == request_options(*request)
            },
        },
{
    let mode = if str_eq(request.mode.as_str(), "smart") {
        proof {
            reveal_strlit("smart");
        }
        SearchMode::Smart
    } else if str_eq(request.mode.as_str(), "regex") {
        proof {
            reveal_strlit("regex");
            reveal_strlit("smart");
        }
        SearchMode::Regex
    } else {
        proof {
            reveal_strlit("regex");
            reveal_strlit("smart");
        }
        return Err(SearchRequestError::UnknownMode(request.mode.clone()));
    };
    let opts = options_from_bits(
        request.case_sensitive,
        request.level_mask,
        request.thread_group_mask,
    );
    match mode {
        SearchMode::Smart => {
            let toks = smart_tokens(request.query.as_str(), request.case_sensitive);
            if toks.len() == 0 {
                return Err(SearchRequestError::EmptyQuery);
            }
        },
        SearchMode::Regex => {
            let pattern = build_regex_pattern(request.query.as_str(), request.case_sensitive);
            match CompiledRegex::new(pattern.as_str()) {
                Ok(_) => {},
                Err(e) => {
                    return Err(SearchRequestError::BadRegex(regex_error_text(&e)));
                },
            }
        },
    }
    Ok((mode, opts))
}

/// The hits whose record's first line lies in `[lo, hi)`, in order.
pub open spec fn hits_in_window(hits: Seq<HitRef>, lo: u64, hi: u64) -> Seq<HitRef> {
    hits.filter(|h: HitRef| lo <= h.record_first_line && h.record_first_line < hi)
}

/// Keep the hits whose record starts inside the window `[lo, hi)`; record
/// indices stay absolute.
pub fn filter_hits_to_window(hits: Vec<HitRef>, lo: u64, hi: u64) -> (r: Vec<HitRef>)
    ensures
        r@ == hits_in_window(hits@, lo, hi),
{
    let ghost all = hits@;
    let mut out: Vec<HitRef> = Vec::new();
    for h in it: hits.into_iter()
        invariant
            it.seq() == all,
            out@ == hits_in_window(all.take(it.index() as int), lo, hi),
    {
        proof {
            assert(all.take(it.index() + 1).drop_last() =~= all.take(it.index() as int));
            assert(all.take(it.index() + 1).last() == h);
            reveal(Seq::filter);
        }
        if h.record_first_line >= lo && h.record_first_line < hi {
            out.push(h);
        }
    }
    proof {
        assert(all.take(all.len() as int) =~= all);
    }
    out
}

/// A record as the level/thread filter lists it.
#[derive(Debug, Clone, Copy, PartialEq, Eq, Structural)]
pub struct RecordRef {
    pub record_idx: u64,
    pub record_first_line: u64,
    pub record_line_count: u32,
    pub level: Level,
}

/// The records among the first `n` of `recs` whose first line lies in
/// `[lo, hi)` and that pass `opts`' level and thread-group masks.
pub open spec fn refs_passing(
    recs: Seq<RecordHeader>,
    bytes: Seq<u8>,
    lo: u64,
    hi: u64,
    opts: SearchOptions,
    n: nat,
) -> Seq<RecordRef>
    decreases n,
{
    if n == 0 {
        Seq::empty()
    } else {
        let prev = refs_passing(recs, bytes, lo, hi, opts, (n - 1) as nat);
        let r = recs[n - 1];
        if lo <= r.line_offset < hi && spec_record_passes(r, bytes, opts) {
            prev.push(
                RecordRef {
                    record_idx: (n - 1) as u64,
                    record_first_line: r.line_offset as u64,
                    record_line_count: r.line_count,
                    level: r.level,
                },
            )
        } else {
            prev
        }
    }
}

impl OpenedFile {
    /// Every record inside the truncate window whose level passes
    /// `level_mask` and whose thread group passes `thread_group_mask`, in
    /// record order.
    pub fn list_records_by_filters(&self, level_mask: u32, thread_group_mask: u32) -> (r: Vec<
        RecordRef,
    >)
        ensures
            r@ == refs_passing(
                self.records@,
                self.bytes@,
                self.spec_window().0,
                self.spec_window().1,
                SearchOptions {
                    case_sensitive: false,
                    level_mask: level_mask_of(level_mask),
                    thread_group_mask: thread_mask_of(thread_group_mask),
                },
                self.records@.len(),
            ),
    {
        let opts = options_from_bits(false, level_mask, thread_group_mask);
        let (lo, hi) = self.truncate_window();
        let mut out: Vec<RecordRef> = Vec::new();
        let mut i: usize = 0;
        while i < self.records.len()
            invariant
                i <= self.records@.len(),
                (lo, hi) == self.spec_window(),
                opts == (SearchOptions {
                    case_sensitive: false,
                    level_mask: level_mask_of(level_mask),
                    thread_group_mask: thread_mask_of(thread_group_mask),
                }),
                out@ == refs_passing(self.records@, self.bytes@, lo, hi, opts, i as nat),
            decreases self.records@.len() - i,
        {
            let r = &self.records[i];
            let f = r.line_offset as u64;
            if f >= lo && f < hi && record_passes(r, self.bytes.as_slice(), opts) {
                out.push(
                    RecordRef {
                        record_idx: i as u64,
                        record_first_line: f,
                        record_line_count: r.line_count,
                        level: r.level,
                    },
                );
            }
            i += 1;
        }
        out
    }
}

/// `s` begins with `-` (an option, not a path).
pub open spec fn is_option_arg(s: Seq<char>) -> bool {
    encode_utf8(s).len() > 0 && encode_utf8(s)[0] == 45
}

/// The launch arguments after the executable's own name that do not look
/// like options, in order.
pub open spec fn path_candidates(argv: Seq<String>, n: nat) -> Seq<String>
    decreases n,
{
    if n <= 1 {
        Seq::empty()
    } else {
        let prev = path_candidates(argv, (n - 1) as nat);
        if is_option_arg(argv[n - 1]@) {
            prev
        } else {
            prev.push(argv[n - 1])
        }
    }
}

/// Drop the executable's own name and every option from `argv`; what is
/// left may name files to open.
pub fn argv_path_candidates(argv: &[String]) -> (r: Vec<String>)
    ensures
        r@ == path_candidates(argv@, argv@.len()),
{
    let mut out: Vec<String> = Vec::new();
    if argv.len() == 0 {
        return out;
    }
    let mut i: usize = 1;
    while i < argv.len()
        invariant
            1 <= i <= argv@.len(),
            out@ == path_candidates(argv@, i as nat),
        decreases argv@.len() - i,
    {
        let b = argv[i].as_str().as_bytes();
        if !(b.len() > 0 && b[0] == 45u8) {
            out.push(argv[i].clone());
        }
        i += 1;
    }
    out
}


/// The markers of `file` whose line lies in `[lo, hi)`.
pub open spec fn markers_in_window(markers: Seq<MarkerRef>, lo: u64, hi: u64) -> Seq<MarkerRef> {
    markers.filter(|m: MarkerRef| lo <= m.line_index && m.line_index < hi)
}

impl OpenedFile {
    /// The built-in markers of the file inside its truncate window.
    pub fn markers(&self) -> (r: Vec<MarkerRef>)
        requires
            self.wf(),
        ensures
            r@ == markers_in_window(
                markers_upto(
                    self.records@,
                    self.bytes@,
                    self.line_offsets@,
                    spec_builtin_marker_rules(),
                    self.records@.len(),
                ),
                self.spec_window().0,
                self.spec_window().1,
            ),
    {
        let (lo, hi) = self.truncate_window();
        let rules = builtin_marker_rules();
        let blen = self.bytes.len();
        proof {
            lemma_line_starts(self.bytes@);
            assert forall|k: int|
                0 <= k < self.records@.len() && (#[trigger] self.records@[k]).line_offset
                    < self.line_offsets@.len() implies {
                &&& marker_line_start(self.line_offsets@, self.records@[k].line_offset as int)
                    <= self.bytes@.len()
                &&& self.records@[k].line_offset + 1 >= self.line_offsets@.len()
                    ==> self.records@[k].byte_offset + self.records@[k].byte_len <= u64::MAX
            } by {
                let li = self.records@[k].line_offset as int;
                assert(is_line_start(self.bytes@, self.line_offsets@[li] as int));
            }
        }
        let all = scan_markers(
            self.records.as_slice(),
            self.bytes.as_slice(),
            self.line_offsets.as_slice(),
            rules.as_slice(),
        );
        let ghost whole = all@;
        let mut out: Vec<MarkerRef> = Vec::new();
        let mut i: usize = 0;
        while i < all.len()
            invariant
                i <= all@.len(),
                whole == all@,
                out@ == markers_in_window(all@.take(i as int), lo, hi),
            decreases all@.len() - i,
        {
            proof {
                assert(all@.take(i + 1).drop_last() =~= all@.take(i as int));
                reveal(Seq::filter);
            }
            let m = all[i];
            if m.line_index >= lo && m.line_index < hi {
                out.push(m);
            }
            i += 1;
        }
        assert(all@.take(all@.len() as int) =~= all@);
        out
    }
}

/// A run of records with the text they cover.
#[derive(Debug, Clone)]
pub struct RecordsSlice {
    /// Index of the first record.
    pub start: u64,
    /// Byte offset of the first byte of the text in the file.
    pub base_offset: u64,
    pub headers: Vec<RecordHeader>,
    /// Byte length of the text.
    pub len: u64,
    /// The text, when the bytes are held; otherwise the caller reads `len`
    /// bytes at `base_offset` from disk.
    pub text: Option<String>,
}

impl OpenedFile {
    /// Records `start..end` and the text from the first one's start to the
    /// last one's end. The range must be non-empty and inside the records.
    pub fn records_slice(&self, start: u64, end: u64) -> (r: Result<RecordsSlice, ViewError>)
        requires
            self.wf(),
        ensures
            r is Err <==> (start >= self.records@.len() || end > self.records@.len() || start >= end),
            r matches Err(e) ==> e == ViewError::OutOfRange,
            r matches Ok(p) ==> {
                let base = self.records@[start as int].byte_offset;
                let last = self.records@[end - 1];
                let len = last.byte_offset + last.byte_len - base;
                &&& p.start == start
                &&& p.base_offset == base
                &&& p.headers@ == self.records@.subrange(start as int, end as int)
                &&& p.len == len
                &&& p.text matches Some(t) && t@ == utf8_lossy(
                    self.bytes@.subrange(base as int, base + len),
                )
            },
    {
        let total = self.records.len() as u64;
        if start >= total || end > total || start >= end {
            return Err(ViewError::OutOfRange);
        }
        let s = start as usize;
        let e = end as usize;
        let first = self.records[s];
        let last = self.records[e - 1];
        let blen = self.bytes.len();
        proof {
            if s < e - 1 {
                assert(self.record_first_line@[s as int] < self.record_first_line@[e - 1]);
                lemma_line_starts(self.bytes@);
                assert(self.line_offsets@[self.record_first_line@[s as int] as int] < self.line_offsets@[self.record_first_line@[e
                    - 1] as int]);
            }
        }
        let base_offset = first.byte_offset;
        let stop = last.byte_offset + last.byte_len as u64;
        let len = stop - base_offset;
        let mut headers: Vec<RecordHeader> = Vec::new();
        let mut k = s;
        while k < e
            invariant
                s <= k <= e <= self.records@.len(),
                headers@ == self.records@.subrange(s as int, k as int),
            decreases e - k,
        {
            headers.push(self.records[k]);
            assert(headers@ =~= self.records@.subrange(s as int, k + 1));
            k += 1;
        }
        let text = lossy_string(&self.bytes.as_slice()[base_offset as usize..stop as usize]);
        Ok(RecordsSlice { start, base_offset, headers, len, text: Some(text) })
    }
}

} // verus!
