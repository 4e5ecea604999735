//! Choosing the header scanner of a file: a `PatternLayout` pattern or a
//! user regex, remembered by its source so it can be compiled again, and
//! applied to an opened file when the user picks one.

use vstd::prelude::*;
use vstd::string::{StringExecFns, StringSliceAdditionalSpecFns};
use vstd::utf8::encode_utf8;
use crate::index::{LineIndex, line_starts};
use crate::pattern::{
    auto_detect, builtin_hits, builtin_patterns, capped_hits, detect_pick, spec_builtin_patterns,
    spec_compile, str_eq, tokens_view, CompiledPattern, ParsedHeader, PatternError,
};
use crate::record::{scan_records, spec_scan_records, LooseScanner, RecordScanner};
use crate::regex_scanner::{
    anchored_pattern, group_index, regex_compiles, RegexScanner, RegexScannerError,
};
use crate::viewer::{first_lines_of, lemma_scan_shaped, OpenedFile};

verus! {

/// Which scanner a file uses, by its source.
#[derive(Debug, Clone)]
pub enum ScannerKind {
    /// A `PatternLayout` pattern.
    Pattern(String),
    /// A header regex.
    Regex(String),
}

/// A compiled scanner of either kind.
pub enum CompiledScanner {
    Pattern(CompiledPattern),
    Regex(RegexScanner),
}

impl RecordScanner for CompiledScanner {
    open spec fn spec_parse_header(&self, line: Seq<u8>) -> Option<ParsedHeader> {
        match self {
            CompiledScanner::Pattern(p) => p.spec_parse_header(line),
            CompiledScanner::Regex(r) => r.spec_parse_header(line),
        }
    }

    fn try_parse_header(&self, line: &[u8]) -> (r: Option<ParsedHeader>) {
        match self {
            CompiledScanner::Pattern(p) => p.try_parse_header(line),
            CompiledScanner::Regex(r) => r.try_parse_header(line),
        }
    }
}

/// Why a scanner could not be compiled.
#[derive(Debug)]
pub enum ScannerError {
    Pattern(PatternError),
    Regex(RegexScannerError),
    /// Neither a pattern nor a regex was supplied.
    Missing,
}

/// `c` is what compiling the pattern `src` gives.
pub open spec fn compiled_from_pattern(c: CompiledScanner, src: Seq<char>) -> bool {
    &&& c matches CompiledScanner::Pattern(p)
    &&& p.source@ == src
    &&& (spec_compile(encode_utf8(src)) matches Ok((toks, _)) && tokens_view(p.tokens@) == toks)
}

/// `c` is what compiling the header regex `src` gives.
pub open spec fn compiled_from_regex(c: CompiledScanner, src: Seq<char>) -> bool {
    &&& c matches CompiledScanner::Regex(sc)
    &&& sc.pattern() == anchored_pattern(src)
    &&& sc.groups() == (
        group_index(anchored_pattern(src), "level"@),
        group_index(anchored_pattern(src), "timestamp"@),
        group_index(anchored_pattern(src), "thread"@),
        group_index(anchored_pattern(src), "logger"@),
        group_index(anchored_pattern(src), "msg"@),
    )
}

fn compile_pattern(s: &str) -> (r: Result<CompiledScanner, ScannerError>)
    ensures
        r is Ok <==> spec_compile(s.spec_bytes()) is Ok,
        r matches Ok(c) ==> compiled_from_pattern(c, s@),
{
    match CompiledPattern::compile(s) {
        Ok(p) => Ok(CompiledScanner::Pattern(p)),
        Err(e) => Err(ScannerError::Pattern(e)),
    }
}

fn compile_regex(s: &str) -> (r: Result<CompiledScanner, ScannerError>)
    ensures
        r is Ok <==> regex_compiles(anchored_pattern(s@)),
        r matches Ok(c) ==> compiled_from_regex(c, s@),
{
    match RegexScanner::compile(s) {
        Ok(sc) => Ok(CompiledScanner::Regex(sc)),
        Err(e) => Err(ScannerError::Regex(e)),
    }
}

impl ScannerKind {
    /// Compile the scanner this kind names.
    pub fn compile(&self) -> (r: Result<CompiledScanner, ScannerError>)
        ensures
            match self {
                ScannerKind::Pattern(s) => (r is Ok <==> spec_compile(encode_utf8(s@)) is Ok) && (r matches Ok(
                    c,
                ) ==> compiled_from_pattern(c, s@)),
                ScannerKind::Regex(s) => (r is Ok <==> regex_compiles(anchored_pattern(s@))) && (r matches Ok(
                    c,
                ) ==> compiled_from_regex(c, s@)),
            },
    {
        match self {
            ScannerKind::Pattern(s) => compile_pattern(s.as_str()),
            ScannerKind::Regex(s) => compile_regex(s.as_str()),
        }
    }

    /// The source shown for this scanner: a pattern as is, a regex marked
    /// `regex:`.
    pub open spec fn spec_pattern_source(&self) -> Seq<char> {
        match self {
            ScannerKind::Pattern(s) => s@,
            ScannerKind::Regex(s) => "regex:"@ + s@,
        }
    }

    pub fn pattern_source(&self) -> (r: String)
        ensures
            r@ == self.spec_pattern_source(),
    {
        match self {
            ScannerKind::Pattern(s) => s.clone(),
            ScannerKind::Regex(s) => {
                let mut p = "regex:".to_owned();
                p.append(s.as_str());
                p
            },
        }
    }

    /// The text a cache fingerprint hashes for this scanner: its source,
    /// marked `loose:` when every line is its own record (loose and strict
    /// scans give different records).
    pub open spec fn spec_fingerprint_source(&self, loose: bool) -> Seq<char> {
        if loose {
            "loose:"@ + self.spec_pattern_source()
        } else {
            self.spec_pattern_source()
        }
    }

    pub fn fingerprint_source(&self, loose: bool) -> (r: String)
        ensures
            r@ == self.spec_fingerprint_source(loose),
    {
        let raw = self.pattern_source();
        if loose {
            let mut p = "loose:".to_owned();
            p.append(raw.as_str());
            p
        } else {
            raw
        }
    }
}

/// The scanner a stored per-file override names: `kind` `regex` is a header
/// regex, anything else a pattern. The source must compile.
pub fn scanner_from_override(kind: &str, source: &str) -> (r: Result<ScannerKind, ScannerError>)
    ensures
        kind@ == "regex"@ ==> (r is Ok <==> regex_compiles(anchored_pattern(source@))),
        kind@ == "regex"@ ==> (r matches Ok(k) ==> (k matches ScannerKind::Regex(s) && s@ == source@)),
        kind@ != "regex"@ ==> (r is Ok <==> spec_compile(source.spec_bytes()) is Ok),
        kind@ != "regex"@ ==> (r matches Ok(k) ==> (k matches ScannerKind::Pattern(s) && s@ == source@)),
{
    if str_eq(kind, "regex") {
        match compile_regex(source) {
            Ok(_) => Ok(ScannerKind::Regex(source.to_owned())),
            Err(e) => Err(e),
        }
    } else {
        match compile_pattern(source) {
            Ok(_) => Ok(ScannerKind::Pattern(source.to_owned())),
            Err(e) => Err(e),
        }
    }
}

/// What the UI is told after a pattern is applied.
#[derive(Debug, Clone)]
pub struct ApplyPatternPayload {
    pub record_count: u64,
    pub pattern_source: String,
    pub loose: bool,
}

/// Re-scan `file` with a user-chosen `pattern` (or, without one, `regex`).
/// A user choice is "custom": every line becomes its own record, the
/// pattern name is cleared. On success, returns what the UI is told, the
/// chosen kind and the compiled scanner the records were scanned with.
pub fn apply_pattern(file: &mut OpenedFile, pattern: Option<String>, regex: Option<String>) -> (r:
    Result<(ApplyPatternPayload, ScannerKind, CompiledScanner), ScannerError>)
    ensures
        match (pattern, regex) {
            (Some(p), _) => r is Ok <==> spec_compile(encode_utf8(p@)) is Ok,
            (None, Some(x)) => r is Ok <==> regex_compiles(anchored_pattern(x@)),
            (None, None) => r matches Err(ScannerError::Missing),
        },
        r is Err ==> *final(file) == *old(file),
        r matches Ok((payload, kind, c)) ==> {
            &&& match (pattern, regex) {
                (Some(p), _) => (kind matches ScannerKind::Pattern(s) && s@ == p@) && compiled_from_pattern(c, p@),
                (None, Some(x)) => (kind matches ScannerKind::Regex(s) && s@ == x@) && compiled_from_regex(c, x@),
                (None, None) => false,
            }
            &&& final(file).bytes@ == old(file).bytes@
            &&& final(file).records@ == spec_scan_records(
                &LooseScanner::loose_of(&c),
                line_starts(old(file).bytes@),
                old(file).bytes@.len() as u64,
                old(file).bytes@,
            )
            &&& final(file).line_offsets@ == line_starts(old(file).bytes@)
            &&& final(file).line_count == line_starts(old(file).bytes@).len()
            &&& final(file).record_first_line@ == first_lines_of(final(file).records@)
            &&& final(file).pattern_source@ == kind.spec_pattern_source()
            &&& final(file).pattern_name is None
            &&& final(file).loose
            &&& payload.record_count == final(file).records@.len()
            &&& payload.pattern_source@ == kind.spec_pattern_source()
            &&& payload.loose
            &&& final(file).line_count <= u32::MAX ==> final(file).wf()
        },
{
    let (kind, compiled) = match (pattern, regex) {
        (Some(p), _) => {
            let c = match compile_pattern(p.as_str()) {
                Ok(c) => c,
                Err(e) => return Err(e),
            };
            (ScannerKind::Pattern(p), c)
        },
        (None, Some(x)) => {
            let c = match compile_regex(x.as_str()) {
                Ok(c) => c,
                Err(e) => return Err(e),
            };
            (ScannerKind::Regex(x), c)
        },
        (None, None) => {
            return Err(ScannerError::Missing);
        },
    };
    let line_index = LineIndex::build(file.bytes.as_slice());
    let loose = LooseScanner::new(&compiled);
    let records = scan_records(&loose, &line_index, file.bytes.as_slice());
    let count = records.len() as u64;
    let source = kind.pattern_source();
    let line_count = line_index.line_offsets.len() as u64;
    file.records = records;
    file.pattern_source = kind.pattern_source();
    file.pattern_name = None;
    file.loose = true;
    file.rebuild_line_caches(line_count, line_index.line_offsets);
    proof {
        if file.line_count <= u32::MAX {
            lemma_scan_shaped(&loose, file.bytes@);
        }
    }
    Ok((ApplyPatternPayload { record_count: count, pattern_source: source, loose: true }, kind, compiled))
}

/// How a file's scanner was chosen.
#[derive(Debug, Clone)]
pub enum ScannerChoice {
    /// The file's stored override.
    Override(ScannerKind),
    /// The best built-in pattern over the sample: its name, the pattern, how
    /// many sampled lines parse as headers and how many were sampled.
    Detected(&'static str, ScannerKind, u32, u32),
    /// No built-in pattern matched the sample: the first one, used as a
    /// custom scanner.
    Fallback(ScannerKind),
}

/// The sampled lines as byte sequences.
pub open spec fn sample_view(sample: Seq<Vec<u8>>) -> Seq<Seq<u8>> {
    sample.map_values(|l: Vec<u8>| l@)
}

/// Pick the scanner of a file: its stored override `(kind, source)` when it
/// has one (which must compile), else the best built-in pattern over the
/// sampled lines of its head, else the first built-in pattern.
pub fn resolve_scanner(stored: Option<(&str, &str)>, sample: &Vec<Vec<u8>>) -> (r: Result<
    ScannerChoice,
    ScannerError,
>)
    ensures
        match stored {
            Some((kind, source)) => {
                &&& kind@ == "regex"@ ==> (r is Ok <==> regex_compiles(anchored_pattern(source@)))
                &&& kind@ != "regex"@ ==> (r is Ok <==> spec_compile(source.spec_bytes()) is Ok)
                &&& r matches Ok(c) ==> (c matches ScannerChoice::Override(k) && (kind@ == "regex"@ ==> (
                k matches ScannerKind::Regex(s) && s@ == source@)) && (kind@ != "regex"@ ==> (
                k matches ScannerKind::Pattern(s) && s@ == source@)))
            },
            None => r matches Ok(c) && match c {
                ScannerChoice::Detected(name, k, hit, total) => {
                    &&& sample@.len() <= u32::MAX
                    &&& total == sample@.len()
                    &&& exists|i: int|
                        detect_pick(i, sample_view(sample@)) && (#[trigger] spec_builtin_patterns()[i]).0
                            == name@ && (k matches ScannerKind::Pattern(s) && s@ == spec_builtin_patterns()[i].1)
                            && builtin_hits(i, sample_view(sample@)) == Some(capped_hits(hit as nat))
                },
                ScannerChoice::Fallback(k) => {
                    &&& sample@.len() > u32::MAX || forall|j: int|
                        0 <= j < spec_builtin_patterns().len() ==> !(#[trigger] builtin_hits(
                            j,
                            sample_view(sample@),
                        ) matches Some(h) && h > 0)
                    &&& k matches ScannerKind::Pattern(s) && s@ == spec_builtin_patterns()[0].1
                },
                ScannerChoice::Override(_) => false,
            },
        },
{
    match stored {
        Some((kind, source)) => match scanner_from_override(kind, source) {
            Ok(k) => Ok(ScannerChoice::Override(k)),
            Err(e) => Err(e),
        },
        None => {
            if sample.len() <= 0xFFFF_FFFF {
                match auto_detect(sample) {
                    Some((name, pattern, hit, total)) => {
                        return Ok(ScannerChoice::Detected(name, ScannerKind::Pattern(pattern.source), hit, total));
                    },
                    None => {},
                }
            }
            let list = builtin_patterns();
            assert((list@[0].0@, list@[0].1@) == spec_builtin_patterns()[0]);
            Ok(ScannerChoice::Fallback(ScannerKind::Pattern(list[0].1.to_owned())))
        },
    }
}

} // verus!
