//! The `regex` crate behind a small verified surface: compiled byte regexes
//! that remember their source, and the regex escape hatch for record
//! headers (named captures `level`, `timestamp`, `thread`, `logger`, `msg`).

use vstd::prelude::*;
use vstd::string::StringExecFns;
use crate::pattern::{str_eq, spec_level_word, classify_level_word, HeaderFields, ParsedHeader};
use crate::record::{Level, RecordScanner, sat_u32};
use crate::search::is_ascii_ws;
use crate::text::chars_of;

verus! {

#[verifier::external_type_specification]
#[verifier::external_body]
pub struct ExRegex(regex::bytes::Regex);

#[verifier::external_type_specification]
#[verifier::external_body]
pub struct ExRegexError(regex::Error);

/// Whether `regex::bytes::Regex::new` accepts `pattern`.
pub uninterp spec fn regex_compiles(pattern: Seq<char>) -> bool;

/// The `(start, end)` spans `find_iter` yields for `pattern` over `hay`.
pub uninterp spec fn regex_find_all(pattern: Seq<char>, hay: Seq<u8>) -> Seq<(usize, usize)>;

/// `regex::bytes::Regex::new`. Claimed: it succeeds exactly on the patterns
/// `regex_compiles` names.
#[verifier::external_body]
fn regex_new(pattern: &str) -> (r: Result<regex::bytes::Regex, regex::Error>)
    ensures
        r is Ok <==> regex_compiles(pattern@),
{
    regex::bytes::Regex::new(pattern)
}

/// The `Display` text of a `regex::Error`. Nothing is claimed of the text.
#[verifier::external_body]
pub(crate) fn regex_error_text(e: &regex::Error) -> String {
    e.to_string()
}

/// A compiled byte regex together with the pattern it was compiled from.
/// Its fields are private and `new` is the only constructor, so `re` is
/// always the compilation of `pattern`.
pub struct CompiledRegex {
    re: regex::bytes::Regex,
    pattern: String,
}

impl View for CompiledRegex {
    type V = Seq<char>;

    closed spec fn view(&self) -> Seq<char> {
        self.pattern@
    }
}

impl CompiledRegex {
    /// Compile `pattern`; fails exactly when the regex crate rejects it.
    pub fn new(pattern: &str) -> (r: Result<CompiledRegex, regex::Error>)
        ensures
            r is Ok <==> regex_compiles(pattern@),
            r matches Ok(c) ==> c@ == pattern@,
    {
        match regex_new(pattern) {
            Ok(re) => Ok(CompiledRegex { re, pattern: pattern.to_owned() }),
            Err(e) => Err(e),
        }
    }

    /// `Regex::find_iter`: every successive non-overlapping match in `hay`,
    /// as `(start, end)`. Claimed: the spans are what `regex_find_all`
    /// names for this regex's pattern and `hay`, and each lies inside `hay`
    /// with `start <= end`.
    #[verifier::external_body]
    pub(crate) fn find_spans(&self, hay: &[u8]) -> (r: Vec<(usize, usize)>)
        ensures
            r@ == regex_find_all(self@, hay@),
            forall|i: int| 0 <= i < r@.len() ==> (#[trigger] r@[i]).0 <= r@[i].1 <= hay.len(),
    {
        self.re.find_iter(hay).map(|m| (m.start(), m.end())).collect()
    }
}


/// The names of the capture groups of `pattern` in group order (group 0,
/// the whole match, is unnamed).
pub uninterp spec fn regex_capture_names(pattern: Seq<char>) -> Seq<Option<Seq<char>>>;

/// The spans of every capture group of the first match of `pattern` in
/// `hay` (`None` for a group that did not take part), or `None` when there
/// is no match.
pub uninterp spec fn regex_captures(pattern: Seq<char>, hay: Seq<u8>) -> Option<Seq<Option<(usize, usize)>>>;

/// The names of `names` as text.
pub open spec fn names_view(names: Seq<Option<String>>) -> Seq<Option<Seq<char>>> {
    names.map_values(
        |o: Option<String>|
            match o {
                Some(s) => Some(s@),
                None => None,
            },
    )
}

impl CompiledRegex {
    /// `Regex::capture_names`: the group names in order. Claimed: they are
    /// what `regex_capture_names` names for this regex's pattern.
    #[verifier::external_body]
    pub(crate) fn capture_names(&self) -> (r: Vec<Option<String>>)
        ensures
            names_view(r@) == regex_capture_names(self@),
    {
        self.re.capture_names().map(|n| n.map(|s| s.to_owned())).collect()
    }

    /// `Regex::captures`: the group spans of the first match in `hay`.
    /// Claimed: they are what `regex_captures` names for this regex's
    /// pattern and `hay`, and each span lies inside `hay` with its start at
    /// most its end (the crate documents both).
    #[verifier::external_body]
    pub(crate) fn captures(&self, hay: &[u8]) -> (r: Option<Vec<Option<(usize, usize)>>>)
        ensures
            match r {
                Some(v) => regex_captures(self@, hay@) == Some(v@),
                None => regex_captures(self@, hay@) is None,
            },
            r matches Some(v) ==> forall|i: int|
                0 <= i < v@.len() ==> (#[trigger] v@[i] matches Some(sp) ==> sp.0 <= sp.1 <= hay@.len()),
    {
        self.re.captures(hay).map(|caps| caps.iter().map(|m| m.map(|m| (m.start(), m.end()))).collect())
    }
}

/// Why a header regex was refused.
#[derive(Debug)]
pub enum RegexScannerError {
    /// The regex crate could not compile it.
    Compile(regex::Error),
}

/// `src` anchored at the start of the line: a leading `^` is added unless
/// it is there already.
pub open spec fn anchored_pattern(src: Seq<char>) -> Seq<char> {
    if src.len() > 0 && src[0] == '^' {
        src
    } else {
        "^"@ + src
    }
}

/// Index of the first group named `name` at or after `i`.
pub open spec fn name_position(names: Seq<Option<Seq<char>>>, name: Seq<char>, i: int) -> Option<usize>
    decreases names.len() - i,
{
    if i < 0 || i >= names.len() {
        None
    } else if names[i] == Some(name) {
        Some(i as usize)
    } else {
        name_position(names, name, i + 1)
    }
}

/// Index of the first group named `name`.
pub open spec fn group_index(pattern: Seq<char>, name: Seq<char>) -> Option<usize> {
    name_position(regex_capture_names(pattern), name, 0)
}

fn find_group(names: &Vec<Option<String>>, name: &str) -> (r: Option<usize>)
    ensures
        r == name_position(names_view(names@), name@, 0),
{
    let mut i: usize = 0;
    while i < names.len()
        invariant
            i <= names@.len(),
            name_position(names_view(names@), name@, 0) == name_position(
                names_view(names@),
                name@,
                i as int,
            ),
        decreases names@.len() - i,
    {
        match &names[i] {
            Some(n) => {
                if str_eq(n.as_str(), name) {
                    return Some(i);
                }
            },
            None => {},
        }
        i += 1;
    }
    None
}

/// Header parser from a user regex with optional named groups `level`,
/// `timestamp`, `thread`, `logger` and `msg`; a line whose start matches is
/// a header.
pub struct RegexScanner {
    re: CompiledRegex,
    g_level: Option<usize>,
    g_timestamp: Option<usize>,
    g_thread: Option<usize>,
    g_logger: Option<usize>,
    g_msg: Option<usize>,
}

impl RegexScanner {
    /// The anchored pattern the scanner matches with.
    pub closed spec fn pattern(&self) -> Seq<char> {
        self.re@
    }

    /// The group index of each field: level, timestamp, thread, logger,
    /// message.
    pub closed spec fn groups(&self) -> (Option<usize>, Option<usize>, Option<usize>, Option<usize>, Option<usize>) {
        (self.g_level, self.g_timestamp, self.g_thread, self.g_logger, self.g_msg)
    }

    /// Compile `src` anchored at the line start and look up its named
    /// groups. Fails exactly when the regex crate rejects the anchored
    /// pattern.
    pub fn compile(src: &str) -> (r: Result<RegexScanner, RegexScannerError>)
        ensures
            r is Ok <==> regex_compiles(anchored_pattern(src@)),
            r matches Ok(sc) ==> {
                let p = anchored_pattern(src@);
                &&& sc.pattern() == p
                &&& sc.groups() == (
                    group_index(p, "level"@),
                    group_index(p, "timestamp"@),
                    group_index(p, "thread"@),
                    group_index(p, "logger"@),
                    group_index(p, "msg"@),
                )
            },
    {
        let cs = chars_of(src);
        let anchored = if cs.len() > 0 && cs[0] == '^' {
            src.to_owned()
        } else {
            let mut p = "^".to_owned();
            p.append(src);
            p
        };
        proof {
            reveal_strlit("^");
            assert(anchored@ == anchored_pattern(src@));
        }
        let re = match CompiledRegex::new(anchored.as_str()) {
            Ok(re) => re,
            Err(e) => return Err(RegexScannerError::Compile(e)),
        };
        let names = re.capture_names();
        let g_level = find_group(&names, "level");
        let g_timestamp = find_group(&names, "timestamp");
        let g_thread = find_group(&names, "thread");
        let g_logger = find_group(&names, "logger");
        let g_msg = find_group(&names, "msg");
        Ok(RegexScanner { re, g_level, g_timestamp, g_thread, g_logger, g_msg })
    }
}

/// `b` without ASCII whitespace at either end.
pub open spec fn trim_ascii_ws(b: Seq<u8>) -> Seq<u8>
    decreases b.len(),
{
    if b.len() > 0 && is_ascii_ws(b[0]) {
        trim_ascii_ws(b.drop_first())
    } else if b.len() > 0 && is_ascii_ws(b.last()) {
        trim_ascii_ws(b.drop_last())
    } else {
        b
    }
}

/// Strip ASCII whitespace from both ends of `buf`.
pub fn trim_ascii(buf: &[u8]) -> (r: &[u8])
    ensures
        r@ == trim_ascii_ws(buf@),
{
    let mut s: usize = 0;
    let mut e: usize = buf.len();
    assert(buf@.subrange(0, e as int) =~= buf@);
    while s < e && (buf[s] == 32u8 || buf[s] == 9u8 || buf[s] == 10u8 || buf[s] == 12u8 || buf[s] == 13u8)
        invariant
            s <= e == buf@.len(),
            trim_ascii_ws(buf@) == trim_ascii_ws(buf@.subrange(s as int, e as int)),
        decreases e - s,
    {
        assert(buf@.subrange(s as int, e as int).drop_first() =~= buf@.subrange(s + 1, e as int));
        s += 1;
    }
    while e > s && (buf[e - 1] == 32u8 || buf[e - 1] == 9u8 || buf[e - 1] == 10u8 || buf[e - 1] == 12u8
        || buf[e - 1] == 13u8)
        invariant
            s <= e <= buf@.len(),
            s < e ==> !is_ascii_ws(buf@[s as int]),
            trim_ascii_ws(buf@) == trim_ascii_ws(buf@.subrange(s as int, e as int)),
        decreases e - s,
    {
        assert(buf@.subrange(s as int, e as int).drop_last() =~= buf@.subrange(s as int, e - 1));
        e -= 1;
    }
    let r = &buf[s..e];
    assert(r@ == buf@.subrange(s as int, e as int));
    r
}

/// The level a level group's text names, after trimming; `Unknown` for
/// anything else.
pub open spec fn spec_classify_word(buf: Seq<u8>) -> Level {
    match spec_level_word(trim_ascii_ws(buf)) {
        Some(l) => l,
        None => Level::Unknown,
    }
}

pub fn classify_word(buf: &[u8]) -> (r: Level)
    ensures
        r == spec_classify_word(buf@),
{
    match classify_level_word(trim_ascii(buf)) {
        Some(l) => l,
        None => Level::Unknown,
    }
}

/// The span of group `idx` among `caps`, if the group exists and took part.
pub open spec fn group_span(caps: Seq<Option<(usize, usize)>>, idx: Option<usize>) -> Option<(usize, usize)> {
    match idx {
        Some(i) => if i < caps.len() {
            caps[i as int]
        } else {
            None
        },
        None => None,
    }
}

/// A group span as header field offsets, each clamped to `u32::MAX`.
pub open spec fn field_span(caps: Seq<Option<(usize, usize)>>, idx: Option<usize>) -> Option<(u32, u32)> {
    match group_span(caps, idx) {
        Some((s, e)) => Some((sat_u32(s as int), sat_u32(e as int))),
        None => None,
    }
}

fn span_of(caps: &Vec<Option<(usize, usize)>>, idx: Option<usize>) -> (r: Option<(u32, u32)>)
    ensures
        r == field_span(caps@, idx),
{
    match idx {
        Some(i) => if i < caps.len() {
            match caps[i] {
                Some((s, e)) => Some((
                    if s <= 0xFFFF_FFFF {
                        s as u32
                    } else {
                        u32::MAX
                    },
                    if e <= 0xFFFF_FFFF {
                        e as u32
                    } else {
                        u32::MAX
                    },
                )),
                None => None,
            }
        } else {
            None
        },
        None => None,
    }
}

impl RecordScanner for RegexScanner {
    open spec fn spec_parse_header(&self, line: Seq<u8>) -> Option<ParsedHeader> {
        match regex_captures(self.pattern(), line) {
            None => None,
            Some(caps) => {
                let g = self.groups();
                Some(
                    ParsedHeader {
                        level: match group_span(caps, g.0) {
                            Some((s, e)) => spec_classify_word(line.subrange(s as int, e as int)),
                            None => Level::Unknown,
                        },
                        fields: HeaderFields {
                            level: field_span(caps, g.0),
                            timestamp: field_span(caps, g.1),
                            thread: field_span(caps, g.2),
                            logger: field_span(caps, g.3),
                            message: field_span(caps, g.4),
                        },
                    },
                )
            },
        }
    }

    fn try_parse_header(&self, line: &[u8]) -> (r: Option<ParsedHeader>) {
        let caps = match self.re.captures(line) {
            Some(c) => c,
            None => return None,
        };
        let level = match self.g_level {
            Some(i) => if i < caps.len() {
                match caps[i] {
                    Some((s, e)) => {
                        proof {
                            assert(caps@[i as int] matches Some(sp) ==> sp.0 <= sp.1 <= line@.len());
                        }
                        classify_word(&line[s..e])
                    },
                    None => Level::Unknown,
                }
            } else {
                Level::Unknown
            },
            None => Level::Unknown,
        };
        let fields = HeaderFields {
            level: span_of(&caps, self.g_level),
            timestamp: span_of(&caps, self.g_timestamp),
            thread: span_of(&caps, self.g_thread),
            logger: span_of(&caps, self.g_logger),
            message: span_of(&caps, self.g_msg),
        };
        Some(ParsedHeader { level, fields })
    }
}

} // verus!
