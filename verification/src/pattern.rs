//! log4j2 `PatternLayout` compiler and header parser.
//!
//! Compiles a pattern string (e.g. `[%-5level] %d{yyyy-MM-dd HH:mm:ss.SSS}
//! [%t] %c{1} - %msg%n`) into a token sequence that classifies a line as a
//! record header and extracts field byte-spans.
//!
//! Supported subset: `%d{...}` timestamps, `%level`/`%p` with optional
//! `-N` width, `%t`, `%c`/`%C` with optional `{N}`, `%F`, `%L`, `%msg`/`%m`,
//! `%n`, `%%` and literal text. Unknown specifiers are skipped (with any
//! `{...}` argument) and reported as warnings.

use vstd::prelude::*;
use crate::bytes::{all_digits, bytes_eq, is_alpha, is_digit, is_digit_byte};
use crate::record::{Level, sat_u32, LIT_TRACE, LIT_DEBUG, LIT_ERROR, LIT_FATAL};
use crate::text::{string_of_utf8, utf8_or_empty};
use vstd::string::{StringExecFns, StringSliceAdditionalSpecFns};
use vstd::utf8::encode_utf8;

verus! {

/// The bytes of `level`.
pub open spec fn lit_level_word() -> Seq<u8> {
    seq![108u8, 101u8, 118u8, 101u8, 108u8]
}

pub const LIT_LEVEL_WORD: [u8; 5] = [108u8, 101u8, 118u8, 101u8, 108u8];

/// The bytes of `msg`.
pub open spec fn lit_msg() -> Seq<u8> {
    seq![109u8, 115u8, 103u8]
}

pub const LIT_MSG: [u8; 3] = [109u8, 115u8, 103u8];

/// The bytes of `ISO8601`.
pub open spec fn lit_iso8601() -> Seq<u8> {
    seq![73u8, 83u8, 79u8, 56u8, 54u8, 48u8, 49u8]
}

pub const LIT_ISO8601: [u8; 7] = [73u8, 83u8, 79u8, 56u8, 54u8, 48u8, 49u8];

/// The bytes of `DEFAULT`.
pub open spec fn lit_default() -> Seq<u8> {
    seq![68u8, 69u8, 70u8, 65u8, 85u8, 76u8, 84u8]
}

pub const LIT_DEFAULT: [u8; 7] = [68u8, 69u8, 70u8, 65u8, 85u8, 76u8, 84u8];

/// The bytes of `ISO8601_BASIC`.
pub open spec fn lit_iso8601_basic() -> Seq<u8> {
    seq![73u8, 83u8, 79u8, 56u8, 54u8, 48u8, 49u8, 95u8, 66u8, 65u8, 83u8, 73u8, 67u8]
}

pub const LIT_ISO8601_BASIC: [u8; 13] = [73u8, 83u8, 79u8, 56u8, 54u8, 48u8, 49u8, 95u8, 66u8, 65u8, 83u8, 73u8, 67u8];

/// The bytes of `ABSOLUTE`.
pub open spec fn lit_absolute() -> Seq<u8> {
    seq![65u8, 66u8, 83u8, 79u8, 76u8, 85u8, 84u8, 69u8]
}

pub const LIT_ABSOLUTE: [u8; 8] = [65u8, 66u8, 83u8, 79u8, 76u8, 85u8, 84u8, 69u8];

/// The bytes of `DATE`.
pub open spec fn lit_date() -> Seq<u8> {
    seq![68u8, 65u8, 84u8, 69u8]
}

pub const LIT_DATE: [u8; 4] = [68u8, 65u8, 84u8, 69u8];

/// The bytes of `yyyy-MM-dd HH:mm:ss,SSS`.
pub open spec fn fmt_iso() -> Seq<u8> {
    seq![121u8, 121u8, 121u8, 121u8, 45u8, 77u8, 77u8, 45u8, 100u8, 100u8, 32u8, 72u8, 72u8, 58u8, 109u8, 109u8, 58u8, 115u8, 115u8, 44u8, 83u8, 83u8, 83u8]
}

pub const FMT_ISO: [u8; 23] = [121u8, 121u8, 121u8, 121u8, 45u8, 77u8, 77u8, 45u8, 100u8, 100u8, 32u8, 72u8, 72u8, 58u8, 109u8, 109u8, 58u8, 115u8, 115u8, 44u8, 83u8, 83u8, 83u8];

/// The bytes of `yyyyMMdd HHmmss,SSS`.
pub open spec fn fmt_iso_basic() -> Seq<u8> {
    seq![121u8, 121u8, 121u8, 121u8, 77u8, 77u8, 100u8, 100u8, 32u8, 72u8, 72u8, 109u8, 109u8, 115u8, 115u8, 44u8, 83u8, 83u8, 83u8]
}

pub const FMT_ISO_BASIC: [u8; 19] = [121u8, 121u8, 121u8, 121u8, 77u8, 77u8, 100u8, 100u8, 32u8, 72u8, 72u8, 109u8, 109u8, 115u8, 115u8, 44u8, 83u8, 83u8, 83u8];

/// The bytes of `HH:mm:ss,SSS`.
pub open spec fn fmt_absolute() -> Seq<u8> {
    seq![72u8, 72u8, 58u8, 109u8, 109u8, 58u8, 115u8, 115u8, 44u8, 83u8, 83u8, 83u8]
}

pub const FMT_ABSOLUTE: [u8; 12] = [72u8, 72u8, 58u8, 109u8, 109u8, 58u8, 115u8, 115u8, 44u8, 83u8, 83u8, 83u8];

/// The bytes of `dd MMM yyyy HH:mm:ss,SSS`.
pub open spec fn fmt_date() -> Seq<u8> {
    seq![100u8, 100u8, 32u8, 77u8, 77u8, 77u8, 32u8, 121u8, 121u8, 121u8, 121u8, 32u8, 72u8, 72u8, 58u8, 109u8, 109u8, 58u8, 115u8, 115u8, 44u8, 83u8, 83u8, 83u8]
}

pub const FMT_DATE: [u8; 24] = [100u8, 100u8, 32u8, 77u8, 77u8, 77u8, 32u8, 121u8, 121u8, 121u8, 121u8, 32u8, 72u8, 72u8, 58u8, 109u8, 109u8, 58u8, 115u8, 115u8, 44u8, 83u8, 83u8, 83u8];

/// Byte ranges within the first line of a record, relative to the line's
/// first byte. Axis-1 styling references these.
#[derive(Debug, Clone, Copy, PartialEq, Eq)]
pub struct HeaderFields {
    pub level: Option<(u32, u32)>,
    pub timestamp: Option<(u32, u32)>,
    pub thread: Option<(u32, u32)>,
    pub logger: Option<(u32, u32)>,
    pub message: Option<(u32, u32)>,
}

impl HeaderFields {
    /// No field recorded.
    pub open spec fn spec_empty() -> HeaderFields {
        HeaderFields { level: None, timestamp: None, thread: None, logger: None, message: None }
    }

    pub fn empty() -> (r: HeaderFields)
        ensures
            r == Self::spec_empty(),
    {
        HeaderFields { level: None, timestamp: None, thread: None, logger: None, message: None }
    }
}

impl Default for HeaderFields {
    fn default() -> (r: HeaderFields)
        ensures
            r == HeaderFields::spec_empty(),
    {
        HeaderFields::empty()
    }
}

#[derive(Debug, Clone, Copy, PartialEq, Eq)]
pub struct ParsedHeader {
    pub level: Level,
    pub fields: HeaderFields,
}

#[derive(Debug, Clone, Copy, PartialEq, Eq, Structural)]
pub enum DateAtom {
    /// One ASCII digit. Comes from the y/M/d/H/m/s/S/N format letters.
    Digit,
    /// A byte that must match exactly.
    Literal(u8),
}

#[derive(Debug, Clone, PartialEq, Eq)]
pub struct DateFormat {
    pub raw: String,
    pub atoms: Vec<DateAtom>,
}

#[derive(Debug, Clone, PartialEq, Eq)]
pub enum Token {
    Literal(Vec<u8>),
    Level { width: Option<usize> },
    /// Timestamp matcher derived from the date-format string.
    Date(DateFormat),
    /// Thread name, up to the next literal token (or the end of the header).
    Thread,
    /// Logger name; `precision` is the `%c{N}` rendering hint.
    Logger { precision: Option<u32> },
    /// Message body: the rest of the line.
    Message,
    /// Record terminator (`%n`).
    Newline,
    /// Source filename (`%F`), up to the next literal.
    SourceFile,
    /// Source line number (`%L`), a run of digits.
    SourceLine,
}

/// A token as a mathematical value.
pub enum TokenView {
    Literal(Seq<u8>),
    Level { width: Option<usize> },
    Date { raw: Seq<char>, atoms: Seq<DateAtom> },
    Thread,
    Logger { precision: Option<u32> },
    Message,
    Newline,
    SourceFile,
    SourceLine,
}

impl Token {
    pub open spec fn view(&self) -> TokenView {
        match self {
            Token::Literal(b) => TokenView::Literal(b@),
            Token::Level { width } => TokenView::Level { width: *width },
            Token::Date(f) => TokenView::Date { raw: f.raw@, atoms: f.atoms@ },
            Token::Thread => TokenView::Thread,
            Token::Logger { precision } => TokenView::Logger { precision: *precision },
            Token::Message => TokenView::Message,
            Token::Newline => TokenView::Newline,
            Token::SourceFile => TokenView::SourceFile,
            Token::SourceLine => TokenView::SourceLine,
        }
    }
}

pub open spec fn tokens_view(tokens: Seq<Token>) -> Seq<TokenView> {
    tokens.map_values(|t: Token| t.view())
}

#[derive(Debug, Clone)]
pub enum PatternError {
    Empty,
    UnterminatedDateBrace { col: usize },
    UnterminatedLoggerBrace { col: usize },
    BadLoggerPrecision { col: usize, found: String },
    BadLevelWidth { col: usize, found: String },
    DanglingPercent,
    AmbiguousVariableToken { kind: &'static str, col: usize },
}

/// A pattern error as a mathematical value.
pub enum PatternErrorView {
    Empty,
    UnterminatedDateBrace { col: usize },
    UnterminatedLoggerBrace { col: usize },
    BadLoggerPrecision { col: usize, found: Seq<char> },
    BadLevelWidth { col: usize, found: Seq<char> },
    DanglingPercent,
    AmbiguousVariableToken { kind: Seq<char>, col: usize },
}

impl PatternError {
    pub open spec fn view(&self) -> PatternErrorView {
        match self {
            PatternError::Empty => PatternErrorView::Empty,
            PatternError::UnterminatedDateBrace { col } => PatternErrorView::UnterminatedDateBrace { col: *col },
            PatternError::UnterminatedLoggerBrace { col } => PatternErrorView::UnterminatedLoggerBrace { col: *col },
            PatternError::BadLoggerPrecision { col, found } => PatternErrorView::BadLoggerPrecision { col: *col, found: found@ },
            PatternError::BadLevelWidth { col, found } => PatternErrorView::BadLevelWidth { col: *col, found: found@ },
            PatternError::DanglingPercent => PatternErrorView::DanglingPercent,
            PatternError::AmbiguousVariableToken { kind, col } => PatternErrorView::AmbiguousVariableToken { kind: kind@, col: *col },
        }
    }
}

#[derive(Debug, Clone)]
pub struct PatternWarning {
    pub message: String,
    pub col: usize,
}

pub open spec fn warnings_view(w: Seq<PatternWarning>) -> Seq<(Seq<char>, usize)> {
    w.map_values(|x: PatternWarning| (x.message@, x.col))
}

#[derive(Debug, Clone)]
pub struct CompiledPattern {
    pub source: String,
    pub tokens: Vec<Token>,
    pub warnings: Vec<PatternWarning>,
}

// ---------------------------------------------------------------------------
// The pattern language.

/// End of the digit run starting at `j`.
pub open spec fn digit_end(s: Seq<u8>, j: int) -> int
    decreases s.len() - j,
{
    if 0 <= j < s.len() && is_digit(s[j]) {
        digit_end(s, j + 1)
    } else {
        j
    }
}

/// End of the ASCII-alphabetic run starting at `j`.
pub open spec fn alpha_end(s: Seq<u8>, j: int) -> int
    decreases s.len() - j,
{
    if 0 <= j < s.len() && is_alpha(s[j]) {
        alpha_end(s, j + 1)
    } else {
        j
    }
}

/// Index of the first `}` at or after `j`, or the end of `s`.
pub open spec fn brace_close(s: Seq<u8>, j: int) -> int
    decreases s.len() - j,
{
    if 0 <= j < s.len() && s[j] != 125 {
        brace_close(s, j + 1)
    } else if j < 0 {
        j
    } else {
        if j < s.len() { j } else { s.len() as int }
    }
}

pub proof fn lemma_run_ends(s: Seq<u8>, j: int)
    requires
        0 <= j,
    ensures
        j <= digit_end(s, j),
        j <= alpha_end(s, j),
        j <= s.len() ==> digit_end(s, j) <= s.len() && alpha_end(s, j) <= s.len(),
        j <= brace_close(s, j) || j > s.len(),
        brace_close(s, j) <= s.len(),
        brace_close(s, j) < s.len() ==> s[brace_close(s, j)] == 125,
        forall|k: int| j <= k < digit_end(s, j) ==> is_digit(#[trigger] s[k]),
        forall|k: int| j <= k < alpha_end(s, j) ==> is_alpha(#[trigger] s[k]),
    decreases s.len() - j,
{
    if j < s.len() {
        lemma_run_ends(s, j + 1);
    }
}

/// Decimal value of a digit string.
pub open spec fn digits_value(d: Seq<u8>) -> nat
    decreases d.len(),
{
    if d.len() == 0 {
        0
    } else {
        digits_value(d.drop_last()) * 10 + (d.last() - 48) as nat
    }
}

/// `u32::from_str`: an optional `+`, then at least one digit, in range.
pub open spec fn spec_parse_u32(b: Seq<u8>) -> Option<u32> {
    let d = if b.len() > 0 && b[0] == 43 {
        b.skip(1)
    } else {
        b
    };
    if d.len() > 0 && all_digits(d) && digits_value(d) <= u32::MAX {
        Some(digits_value(d) as u32)
    } else {
        None
    }
}

/// log4j2's named date formats.
pub open spec fn spec_expand_named_date(f: Seq<u8>) -> Seq<u8> {
    if f == lit_iso8601() || f == lit_default() {
        fmt_iso()
    } else if f == lit_iso8601_basic() {
        fmt_iso_basic()
    } else if f == lit_absolute() {
        fmt_absolute()
    } else if f == lit_date() {
        fmt_date()
    } else {
        f
    }
}

/// log4j2's named dates: `DEFAULT` and `ISO8601` both stand for
/// `yyyy-MM-dd HH:mm:ss,SSS`, so `%d{DEFAULT}` and `%d{ISO8601}` read the
/// same timestamps; `ISO8601_BASIC` stands for `yyyyMMdd HHmmss,SSS`,
/// `ABSOLUTE` for `HH:mm:ss,SSS` and `DATE` for
/// `dd MMM yyyy HH:mm:ss,SSS`; a format that is no name is kept as
/// written; and an expanded format is never a name again.
pub proof fn law_named_dates(f: Seq<u8>)
    ensures
        (f == seq![68u8, 69u8, 70u8, 65u8, 85u8, 76u8, 84u8] || f == seq![73u8, 83u8, 79u8, 56u8, 54u8, 48u8, 49u8])
            ==> spec_expand_named_date(f) == seq![
            121u8, 121u8, 121u8, 121u8, 45u8, 77u8, 77u8, 45u8, 100u8, 100u8, 32u8, 72u8, 72u8, 58u8, 109u8,
            109u8, 58u8, 115u8, 115u8, 44u8, 83u8, 83u8, 83u8,
        ],
        spec_expand_named_date(seq![68u8, 69u8, 70u8, 65u8, 85u8, 76u8, 84u8]) == spec_expand_named_date(
            seq![73u8, 83u8, 79u8, 56u8, 54u8, 48u8, 49u8],
        ),
        f == seq![73u8, 83u8, 79u8, 56u8, 54u8, 48u8, 49u8, 95u8, 66u8, 65u8, 83u8, 73u8, 67u8] ==> spec_expand_named_date(f)
            == seq![121u8, 121u8, 121u8, 121u8, 77u8, 77u8, 100u8, 100u8, 32u8, 72u8, 72u8, 109u8, 109u8, 115u8, 115u8, 44u8, 83u8, 83u8, 83u8],
        f == seq![65u8, 66u8, 83u8, 79u8, 76u8, 85u8, 84u8, 69u8] ==> spec_expand_named_date(f) == seq![
            72u8, 72u8, 58u8, 109u8, 109u8, 58u8, 115u8, 115u8, 44u8, 83u8, 83u8, 83u8,
        ],
        f == seq![68u8, 65u8, 84u8, 69u8] ==> spec_expand_named_date(f) == seq![
            100u8, 100u8, 32u8, 77u8, 77u8, 77u8, 32u8, 121u8, 121u8, 121u8, 121u8, 32u8, 72u8, 72u8, 58u8, 109u8,
            109u8, 58u8, 115u8, 115u8, 44u8, 83u8, 83u8, 83u8,
        ],
        (f.len() != 4 && f.len() != 7 && f.len() != 8 && f.len() != 13) ==> spec_expand_named_date(f) == f,
        spec_expand_named_date(spec_expand_named_date(f)) == spec_expand_named_date(f),
{
    let e = spec_expand_named_date(f);
    if f.len() == 13 {
        assert(f != lit_iso8601() && f != lit_default());
    }
    if f.len() == 8 || f.len() == 4 {
        assert(f != lit_iso8601() && f != lit_default() && f != lit_iso8601_basic());
    }
    if f.len() == 4 {
        assert(f != lit_absolute());
    }
    assert(e.len() != 4 && e.len() != 7 && e.len() != 8 && e.len() != 13 ==> spec_expand_named_date(e) == e);
    if e != f {
        assert(e.len() == 23 || e.len() == 19 || e.len() == 12 || e.len() == 24);
    } else {
        assert(spec_expand_named_date(e) == e);
    }
}

/// `SimpleDateFormat` letters that stand for digits: y M d H m s S N.
pub open spec fn spec_is_date_digit_char(b: u8) -> bool {
    b == 121 || b == 77 || b == 100 || b == 72 || b == 109 || b == 115 || b == 83 || b == 78
}

/// Atoms of `raw` from position `i`; `quoted` is true inside a `'...'`
/// literal section, where every byte is literal and `'` closes the section.
pub open spec fn date_atoms_from(raw: Seq<u8>, i: int, quoted: bool) -> Seq<DateAtom>
    decreases raw.len() - i,
{
    if i < 0 || i >= raw.len() {
        Seq::empty()
    } else if raw[i] == 39 {
        date_atoms_from(raw, i + 1, !quoted)
    } else {
        let atom = if !quoted && spec_is_date_digit_char(raw[i]) {
            DateAtom::Digit
        } else {
            DateAtom::Literal(raw[i])
        };
        seq![atom] + date_atoms_from(raw, i + 1, quoted)
    }
}

pub open spec fn spec_date_atoms(raw: Seq<u8>) -> Seq<DateAtom> {
    date_atoms_from(raw, 0, false)
}

#[derive(Copy, Clone)]
enum BraceFor {
    Date,
    Logger,
    Unknown,
}

/// An optional `{...}` at `i`: its contents and the position after it.
pub open spec fn spec_braced(s: Seq<u8>, i: int, col: usize, logger: bool) -> Result<(Option<Seq<u8>>, int), PatternErrorView> {
    if i >= s.len() || s[i] != 123 {
        Ok((None, i))
    } else {
        let j = brace_close(s, i + 1);
        if j >= s.len() {
            Err(
                if logger {
                    PatternErrorView::UnterminatedLoggerBrace { col }
                } else {
                    PatternErrorView::UnterminatedDateBrace { col }
                },
            )
        } else {
            Ok((Some(s.subrange(i + 1, j)), j + 1))
        }
    }
}

/// The optional `-N` width at `i` and the position after it.
pub open spec fn spec_width(s: Seq<u8>, i: int, col: usize) -> Result<(Option<usize>, int), PatternErrorView> {
    if s[i] != 45 {
        Ok((None, i))
    } else {
        let start = i + 1;
        let j = digit_end(s, start);
        if j == start {
            Err(PatternErrorView::BadLevelWidth { col, found: Seq::empty() })
        } else if digits_value(s.subrange(start, j)) > usize::MAX {
            Err(PatternErrorView::BadLevelWidth { col, found: utf8_or_empty(s.subrange(start, j)) })
        } else {
            Ok((Some(digits_value(s.subrange(start, j)) as usize), j))
        }
    }
}

/// `toks` followed by the pending literal, if any.
pub open spec fn spec_flush(toks: Seq<TokenView>, lit: Seq<u8>) -> Seq<TokenView> {
    if lit.len() > 0 {
        toks.push(TokenView::Literal(lit))
    } else {
        toks
    }
}

/// The short name of a variable-length token.
pub open spec fn var_kind(t: TokenView) -> Option<Seq<char>> {
    match t {
        TokenView::Thread => Some("t"@),
        TokenView::Logger { .. } => Some("c"@),
        TokenView::SourceFile => Some("F"@),
        _ => None,
    }
}

/// Tokens that can end a variable-length token.
pub open spec fn is_anchor(t: TokenView) -> bool {
    match t {
        TokenView::Literal(_) | TokenView::Message | TokenView::Newline => true,
        _ => false,
    }
}

/// Every variable-length token from `idx` on is followed by an anchor or is
/// the last token.
pub open spec fn validate_from(toks: Seq<TokenView>, idx: int) -> Result<(), PatternErrorView>
    decreases toks.len() - idx,
{
    if idx < 0 || idx >= toks.len() {
        Ok(())
    } else {
        match var_kind(toks[idx]) {
            Some(kind) => if idx + 1 < toks.len() && !is_anchor(toks[idx + 1]) {
                Err(PatternErrorView::AmbiguousVariableToken { kind, col: 0 })
            } else {
                validate_from(toks, idx + 1)
            },
            None => validate_from(toks, idx + 1),
        }
    }
}

pub open spec fn unknown_warning(name: Seq<u8>) -> Seq<char> {
    "unknown specifier `%"@ + utf8_or_empty(name) + "` ignored"@
}

/// What the compiler produces from position `i` on, given the tokens so far,
/// the pending literal and the warnings so far.
pub open spec fn compile_from(
    s: Seq<u8>,
    i: int,
    toks: Seq<TokenView>,
    lit: Seq<u8>,
    warns: Seq<(Seq<char>, usize)>,
) -> Result<(Seq<TokenView>, Seq<(Seq<char>, usize)>), PatternErrorView>
    decreases s.len() - i,
{
    if i < 0 || i >= s.len() {
        let t = spec_flush(toks, lit);
        match validate_from(t, 0) {
            Ok(_) => Ok((t, warns)),
            Err(e) => Err(e),
        }
    } else if s[i] != 37 {
        compile_from(s, i + 1, toks, lit.push(s[i]), warns)
    } else if i + 1 >= s.len() {
        Err(PatternErrorView::DanglingPercent)
    } else {
        let col = i as usize;
        match spec_width(s, i + 1, col) {
            Err(e) => Err(e),
            Ok((width, ns)) => {
                proof {
                    lemma_run_ends(s, i + 2);
                }
                let ne = alpha_end(s, ns);
                proof {
                    lemma_run_ends(s, ns);
                }
                let name = s.subrange(ns, ne);
                let t = spec_flush(toks, lit);
                if name == seq![100u8] {
                    match spec_braced(s, ne, col, false) {
                        Err(e) => Err(e),
                        Ok((b, after)) => {
                            proof {
                                lemma_run_ends(s, ne + 1);
                            }
                            let fmt = match b {
                                Some(f) => f,
                                None => fmt_iso(),
                            };
                            let ex = spec_expand_named_date(fmt);
                            compile_from(
                                s,
                                after,
                                t.push(TokenView::Date { raw: utf8_or_empty(ex), atoms: spec_date_atoms(ex) }),
                                Seq::empty(),
                                warns,
                            )
                        },
                    }
                } else if name == lit_level_word() || name == seq![112u8] {
                    compile_from(s, ne, t.push(TokenView::Level { width }), Seq::empty(), warns)
                } else if name == seq![116u8] {
                    compile_from(s, ne, t.push(TokenView::Thread), Seq::empty(), warns)
                } else if name == seq![99u8] || name == seq![67u8] {
                    match spec_braced(s, ne, col, true) {
                        Err(e) => Err(e),
                        Ok((b, after)) => {
                            proof {
                                lemma_run_ends(s, ne + 1);
                            }
                            match b {
                                None => compile_from(s, after, t.push(TokenView::Logger { precision: None }), Seq::empty(), warns),
                                Some(inner) => match spec_parse_u32(inner) {
                                    Some(v) => compile_from(s, after, t.push(TokenView::Logger { precision: Some(v) }), Seq::empty(), warns),
                                    None => Err(PatternErrorView::BadLoggerPrecision { col, found: utf8_or_empty(inner) }),
                                },
                            }
                        },
                    }
                } else if name == seq![70u8] {
                    compile_from(s, ne, t.push(TokenView::SourceFile), Seq::empty(), warns)
                } else if name == seq![76u8] {
                    compile_from(s, ne, t.push(TokenView::SourceLine), Seq::empty(), warns)
                } else if name == lit_msg() || name == seq![109u8] {
                    compile_from(s, ne, t.push(TokenView::Message), Seq::empty(), warns)
                } else if name == seq![110u8] {
                    compile_from(s, ne, t.push(TokenView::Newline), Seq::empty(), warns)
                } else if name.len() == 0 {
                    if ne < s.len() && s[ne] == 37 {
                        compile_from(s, ne + 1, toks, lit.push(37u8), warns)
                    } else {
                        Err(PatternErrorView::DanglingPercent)
                    }
                } else {
                    match spec_braced(s, ne, col, false) {
                        Err(e) => Err(e),
                        Ok((_, after)) => {
                            proof {
                                lemma_run_ends(s, ne + 1);
                            }
                            compile_from(s, after, toks, lit, warns.push((unknown_warning(name), col)))
                        },
                    }
                }
            },
        }
    }
}

/// Every literal token holds at least one byte and no two literal tokens
/// are adjacent.
pub open spec fn literals_tidy(t: Seq<TokenView>) -> bool {
    &&& forall|k: int| 0 <= k < t.len() ==> (#[trigger] t[k] matches TokenView::Literal(b) ==> b.len() > 0)
    &&& forall|k: int| 0 <= k < t.len() - 1 ==> !(#[trigger] t[k] is Literal && t[k + 1] is Literal)
}

/// Every variable-length token (thread, logger, source file) is the last
/// token or is followed by a literal, the message or a newline.
pub open spec fn variables_anchored(t: Seq<TokenView>) -> bool {
    forall|k: int| 0 <= k < t.len() && (#[trigger] var_kind(t[k])) is Some ==> k + 1 == t.len() || is_anchor(t[k + 1])
}

/// Tokens built so far: tidy literals and no literal at the end.
spec fn tokens_so_far_ok(t: Seq<TokenView>) -> bool {
    literals_tidy(t) && (t.len() > 0 ==> !(t.last() is Literal))
}

proof fn lemma_flush_tidy(toks: Seq<TokenView>, lit: Seq<u8>)
    requires
        tokens_so_far_ok(toks),
    ensures
        literals_tidy(spec_flush(toks, lit)),
        forall|x: TokenView| !(x is Literal) ==> tokens_so_far_ok(#[trigger] spec_flush(toks, lit).push(x)),
{
    let t = spec_flush(toks, lit);
    assert forall|k: int| 0 <= k < t.len() implies (#[trigger] t[k] matches TokenView::Literal(b) ==> b.len() > 0) by {
        if k < toks.len() {
            assert(t[k] == toks[k]);
        }
    }
    assert forall|k: int| 0 <= k < t.len() - 1 implies !(#[trigger] t[k] is Literal && t[k + 1] is Literal) by {
        if k + 1 < toks.len() {
            assert(t[k] == toks[k] && t[k + 1] == toks[k + 1]);
        } else {
            assert(t[k] == toks.last());
        }
    }
    assert forall|x: TokenView| !(x is Literal) implies tokens_so_far_ok(#[trigger] spec_flush(toks, lit).push(x)) by {
        let u = t.push(x);
        assert forall|k: int| 0 <= k < u.len() implies (#[trigger] u[k] matches TokenView::Literal(b) ==> b.len() > 0) by {
            if k < t.len() {
                assert(u[k] == t[k]);
            }
        }
        assert forall|k: int| 0 <= k < u.len() - 1 implies !(#[trigger] u[k] is Literal && u[k + 1] is Literal) by {
            assert(u[k] == t[k]);
            if k + 1 < t.len() {
                assert(u[k + 1] == t[k + 1]);
            }
        }
    }
}

proof fn lemma_validate_anchored(t: Seq<TokenView>, idx: int)
    requires
        0 <= idx,
        validate_from(t, idx) is Ok,
    ensures
        forall|k: int| idx <= k < t.len() && (#[trigger] var_kind(t[k])) is Some ==> k + 1 == t.len() || is_anchor(t[k + 1]),
    decreases t.len() - idx,
{
    if idx < t.len() {
        lemma_validate_anchored(t, idx + 1);
    }
}

proof fn lemma_compile_from_shape(
    s: Seq<u8>,
    i: int,
    toks: Seq<TokenView>,
    lit: Seq<u8>,
    warns: Seq<(Seq<char>, usize)>,
)
    requires
        0 <= i,
        tokens_so_far_ok(toks),
    ensures
        compile_from(s, i, toks, lit, warns) matches Ok((t, _)) ==> literals_tidy(t) && variables_anchored(t),
    decreases s.len() - i,
{
    lemma_flush_tidy(toks, lit);
    let t = spec_flush(toks, lit);
    if i >= s.len() {
        if validate_from(t, 0) is Ok {
            lemma_validate_anchored(t, 0);
        }
    } else if s[i] != 37 {
        lemma_compile_from_shape(s, i + 1, toks, lit.push(s[i]), warns);
    } else if i + 1 < s.len() {
        let col = i as usize;
        if let Ok((width, ns)) = spec_width(s, i + 1, col) {
            lemma_run_ends(s, i + 2);
            let ne = alpha_end(s, ns);
            lemma_run_ends(s, ns);
            let name = s.subrange(ns, ne);
            if name == seq![100u8] {
                if let Ok((b, after)) = spec_braced(s, ne, col, false) {
                    lemma_run_ends(s, ne + 1);
                    let fmt = match b {
                        Some(f) => f,
                        None => fmt_iso(),
                    };
                    let ex = spec_expand_named_date(fmt);
                    let x = TokenView::Date { raw: utf8_or_empty(ex), atoms: spec_date_atoms(ex) };
                    assert(tokens_so_far_ok(t.push(x)));
                    lemma_compile_from_shape(s, after, t.push(x), Seq::empty(), warns);
                }
            } else if name == lit_level_word() || name == seq![112u8] {
                assert(tokens_so_far_ok(t.push(TokenView::Level { width })));
                lemma_compile_from_shape(s, ne, t.push(TokenView::Level { width }), Seq::empty(), warns);
            } else if name == seq![116u8] {
                assert(tokens_so_far_ok(t.push(TokenView::Thread)));
                lemma_compile_from_shape(s, ne, t.push(TokenView::Thread), Seq::empty(), warns);
            } else if name == seq![99u8] || name == seq![67u8] {
                if let Ok((b, after)) = spec_braced(s, ne, col, true) {
                    lemma_run_ends(s, ne + 1);
                    match b {
                        None => {
                            assert(tokens_so_far_ok(t.push(TokenView::Logger { precision: None })));
                            lemma_compile_from_shape(s, after, t.push(TokenView::Logger { precision: None }), Seq::empty(), warns);
                        },
                        Some(inner) => {
                            if let Some(v) = spec_parse_u32(inner) {
                                assert(tokens_so_far_ok(t.push(TokenView::Logger { precision: Some(v) })));
                                lemma_compile_from_shape(
                                    s,
                                    after,
                                    t.push(TokenView::Logger { precision: Some(v) }),
                                    Seq::empty(),
                                    warns,
                                );
                            }
                        },
                    }
                }
            } else if name == seq![70u8] {
                assert(tokens_so_far_ok(t.push(TokenView::SourceFile)));
                lemma_compile_from_shape(s, ne, t.push(TokenView::SourceFile), Seq::empty(), warns);
            } else if name == seq![76u8] {
                assert(tokens_so_far_ok(t.push(TokenView::SourceLine)));
                lemma_compile_from_shape(s, ne, t.push(TokenView::SourceLine), Seq::empty(), warns);
            } else if name == lit_msg() || name == seq![109u8] {
                assert(tokens_so_far_ok(t.push(TokenView::Message)));
                lemma_compile_from_shape(s, ne, t.push(TokenView::Message), Seq::empty(), warns);
            } else if name == seq![110u8] {
                assert(tokens_so_far_ok(t.push(TokenView::Newline)));
                lemma_compile_from_shape(s, ne, t.push(TokenView::Newline), Seq::empty(), warns);
            } else if name.len() == 0 {
                if ne < s.len() && s[ne] == 37 {
                    lemma_compile_from_shape(s, ne + 1, toks, lit.push(37u8), warns);
                }
            } else {
                if let Ok((_, after)) = spec_braced(s, ne, col, false) {
                    lemma_run_ends(s, ne + 1);
                    lemma_compile_from_shape(s, after, toks, lit, warns.push((unknown_warning(name), col)));
                }
            }
        }
    }
}

/// A compiled pattern is tidy: every literal token holds at least one byte,
/// no two literal tokens are adjacent, and every variable-length token
/// (thread, logger, source file) is the last token or is followed by a
/// literal, the message or a newline.
pub proof fn law_compiled_pattern_shape(src: Seq<u8>)
    ensures
        spec_compile(src) matches Ok((t, _)) ==> literals_tidy(t) && variables_anchored(t),
{
    if src.len() > 0 {
        lemma_compile_from_shape(src, 0, Seq::empty(), Seq::empty(), Seq::empty());
    }
}

/// The compiler's result on `src`: tokens and warnings, or the error.
pub open spec fn spec_compile(src: Seq<u8>) -> Result<(Seq<TokenView>, Seq<(Seq<char>, usize)>), PatternErrorView> {
    if src.len() == 0 {
        Err(PatternErrorView::Empty)
    } else {
        compile_from(src, 0, Seq::empty(), Seq::empty(), Seq::empty())
    }
}


/// The bytes of `INFO`.
pub open spec fn lit_info() -> Seq<u8> {
    seq![73u8, 78u8, 70u8, 79u8]
}

pub const LIT_INFO: [u8; 4] = [73u8, 78u8, 70u8, 79u8];

/// The bytes of `WARN`.
pub open spec fn lit_warn() -> Seq<u8> {
    seq![87u8, 65u8, 82u8, 78u8]
}

pub const LIT_WARN: [u8; 4] = [87u8, 65u8, 82u8, 78u8];

/// The bytes of `OFF`.
pub open spec fn lit_off() -> Seq<u8> {
    seq![79u8, 70u8, 70u8]
}

pub const LIT_OFF: [u8; 3] = [79u8, 70u8, 70u8];

/// The bytes of `ALL`.
pub open spec fn lit_all() -> Seq<u8> {
    seq![65u8, 76u8, 76u8]
}

pub const LIT_ALL: [u8; 3] = [65u8, 76u8, 76u8];


// ---------------------------------------------------------------------------
// Header parsing.

/// The level a bare level keyword names, if any.
pub open spec fn spec_level_word(word: Seq<u8>) -> Option<Level> {
    if word == crate::record::lit_trace() {
        Some(Level::Trace)
    } else if word == crate::record::lit_debug() {
        Some(Level::Debug)
    } else if word == lit_info() {
        Some(Level::Info)
    } else if word == lit_warn() {
        Some(Level::Warn)
    } else if word == crate::record::lit_error() {
        Some(Level::Error)
    } else if word == crate::record::lit_fatal() {
        Some(Level::Fatal)
    } else if word == lit_off() {
        Some(Level::Off)
    } else if word == lit_all() {
        Some(Level::All)
    } else {
        None
    }
}

/// `e` lowered past every trailing space of `raw[..e]`.
pub open spec fn space_trim_end(raw: Seq<u8>, e: int) -> int
    decreases e,
{
    if e > 0 && e <= raw.len() && raw[e - 1] == 32 {
        space_trim_end(raw, e - 1)
    } else {
        e
    }
}

/// A level keyword at the start of `buf`: exactly `w` bytes (keyword then
/// space padding) when a width is given, otherwise the alphabetic run.
/// Yields the level and the bytes consumed.
pub open spec fn spec_parse_level(buf: Seq<u8>, width: Option<usize>) -> Option<(Level, int)> {
    match width {
        Some(w) => if buf.len() < w {
            None
        } else {
            let raw = buf.take(w as int);
            match spec_level_word(raw.take(space_trim_end(raw, w as int))) {
                Some(lv) => Some((lv, w as int)),
                None => None,
            }
        },
        None => {
            let j = alpha_end(buf, 0);
            if j == 0 {
                None
            } else {
                match spec_level_word(buf.take(j)) {
                    Some(lv) => Some((lv, j)),
                    None => None,
                }
            }
        },
    }
}

pub open spec fn atom_matches(atom: DateAtom, b: u8) -> bool {
    match atom {
        DateAtom::Digit => is_digit(b),
        DateAtom::Literal(want) => b == want,
    }
}

/// A timestamp at the start of `buf`: one byte per atom.
pub open spec fn spec_match_at(atoms: Seq<DateAtom>, buf: Seq<u8>) -> Option<int> {
    if buf.len() >= atoms.len() && forall|i: int| 0 <= i < atoms.len() ==> atom_matches(atoms[i], #[trigger] buf[i]) {
        Some(atoms.len() as int)
    } else {
        None
    }
}

/// The first literal token from `from` on, stopping at `%n`.
pub open spec fn next_literal(toks: Seq<TokenView>, from: int) -> Option<Seq<u8>>
    decreases toks.len() - from,
{
    if from < 0 || from >= toks.len() {
        None
    } else {
        match toks[from] {
            TokenView::Literal(b) => Some(b),
            TokenView::Newline => None,
            _ => next_literal(toks, from + 1),
        }
    }
}

/// First occurrence of `needle` in `buf` at or after `i`.
pub open spec fn first_occurrence_from(buf: Seq<u8>, needle: Seq<u8>, i: int) -> Option<int>
    decreases buf.len() + 1 - i,
{
    if i < 0 || i + needle.len() > buf.len() {
        None
    } else if buf.subrange(i, i + needle.len()) == needle {
        Some(i)
    } else {
        first_occurrence_from(buf, needle, i + 1)
    }
}

/// How many bytes a variable-length field takes: up to the first
/// occurrence of the next literal (never an empty capture), or the whole
/// rest when no literal follows.
pub open spec fn spec_read_until(buf: Seq<u8>, needle: Option<Seq<u8>>) -> Option<int> {
    match needle {
        None => Some(buf.len() as int),
        Some(n) => if n.len() == 0 {
            Some(0)
        } else {
            first_occurrence_from(buf, n, 1)
        },
    }
}

/// The last token other than `%n`, among the first `n`, is the message.
pub open spec fn ends_with_message_upto(toks: Seq<TokenView>, n: int) -> bool
    decreases n,
{
    if n <= 0 || n > toks.len() {
        false
    } else {
        match toks[n - 1] {
            TokenView::Newline => ends_with_message_upto(toks, n - 1),
            TokenView::Message => true,
            _ => false,
        }
    }
}

/// Parse `line` against the tokens from `idx` on, with the cursor at `cur`.
pub open spec fn parse_from(
    toks: Seq<TokenView>,
    line: Seq<u8>,
    idx: int,
    cur: int,
    fields: HeaderFields,
    level: Option<Level>,
) -> Option<ParsedHeader>
    decreases toks.len() - idx,
{
    if idx < 0 || idx >= toks.len() {
        if !ends_with_message_upto(toks, toks.len() as int) && cur != line.len() {
            None
        } else {
            Some(ParsedHeader { level: if let Some(l) = level { l } else { Level::Unknown }, fields })
        }
    } else {
        match toks[idx] {
            TokenView::Literal(b) => if line.len() < cur + b.len() || line.subrange(cur, cur + b.len()) != b {
                None
            } else {
                parse_from(toks, line, idx + 1, cur + b.len(), fields, level)
            },
            TokenView::Level { width } => match spec_parse_level(line.skip(cur), width) {
                None => None,
                Some((lv, n)) => parse_from(
                    toks,
                    line,
                    idx + 1,
                    cur + n,
                    HeaderFields { level: Some((sat_u32(cur), sat_u32(cur + n))), ..fields },
                    Some(lv),
                ),
            },
            TokenView::Date { raw, atoms } => match spec_match_at(atoms, line.skip(cur)) {
                None => None,
                Some(n) => parse_from(
                    toks,
                    line,
                    idx + 1,
                    cur + n,
                    HeaderFields { timestamp: Some((sat_u32(cur), sat_u32(cur + n))), ..fields },
                    level,
                ),
            },
            TokenView::Thread => match spec_read_until(line.skip(cur), next_literal(toks, idx + 1)) {
                None => None,
                Some(n) => parse_from(
                    toks,
                    line,
                    idx + 1,
                    cur + n,
                    HeaderFields { thread: Some((sat_u32(cur), sat_u32(cur + n))), ..fields },
                    level,
                ),
            },
            TokenView::Logger { .. } => match spec_read_until(line.skip(cur), next_literal(toks, idx + 1)) {
                None => None,
                Some(n) => parse_from(
                    toks,
                    line,
                    idx + 1,
                    cur + n,
                    HeaderFields { logger: Some((sat_u32(cur), sat_u32(cur + n))), ..fields },
                    level,
                ),
            },
            TokenView::SourceFile => match spec_read_until(line.skip(cur), next_literal(toks, idx + 1)) {
                None => None,
                Some(n) => parse_from(
                    toks,
                    line,
                    idx + 1,
                    cur + n,
                    if fields.logger is None {
                        HeaderFields { logger: Some((sat_u32(cur), sat_u32(cur + n))), ..fields }
                    } else {
                        fields
                    },
                    level,
                ),
            },
            TokenView::SourceLine => {
                let j = digit_end(line, cur);
                if j == cur {
                    None
                } else {
                    parse_from(toks, line, idx + 1, j, fields, level)
                }
            },
            TokenView::Message => parse_from(
                toks,
                line,
                idx + 1,
                line.len() as int,
                HeaderFields { message: Some((sat_u32(cur), sat_u32(line.len() as int))), ..fields },
                level,
            ),
            TokenView::Newline => parse_from(toks, line, idx + 1, cur, fields, level),
        }
    }
}

/// `sp`, when recorded, is an ordered range inside a line of `len` bytes.
pub open spec fn span_within(sp: Option<(u32, u32)>, len: int) -> bool {
    sp matches Some((a, b)) ==> a <= b && b <= len
}

/// Every recorded field of `f` is an ordered range inside a line of `len`
/// bytes, and the message runs to the end of the line.
pub open spec fn fields_within(f: HeaderFields, len: int) -> bool {
    &&& span_within(f.level, len)
    &&& span_within(f.timestamp, len)
    &&& span_within(f.thread, len)
    &&& span_within(f.logger, len)
    &&& span_within(f.message, len)
    &&& f.message matches Some((_, b)) ==> b == len
}

proof fn lemma_first_occurrence_bound(buf: Seq<u8>, needle: Seq<u8>, i: int)
    ensures
        first_occurrence_from(buf, needle, i) matches Some(p) ==> i <= p && p + needle.len() <= buf.len(),
    decreases buf.len() + 1 - i,
{
    if !(i < 0 || i + needle.len() > buf.len()) && buf.subrange(i, i + needle.len()) != needle {
        lemma_first_occurrence_bound(buf, needle, i + 1);
    }
}

proof fn lemma_read_until_bound(buf: Seq<u8>, needle: Option<Seq<u8>>)
    ensures
        spec_read_until(buf, needle) matches Some(n) ==> 0 <= n <= buf.len(),
{
    if let Some(nd) = needle {
        if nd.len() > 0 {
            lemma_first_occurrence_bound(buf, nd, 1);
        }
    }
}

/// Some token among the first `n` of `toks` is a level.
pub open spec fn level_token_upto(toks: Seq<TokenView>, n: int) -> bool
    decreases n,
{
    if n <= 0 || n > toks.len() {
        false
    } else {
        toks[n - 1] is Level || level_token_upto(toks, n - 1)
    }
}

proof fn lemma_parse_from_within(
    toks: Seq<TokenView>,
    line: Seq<u8>,
    idx: int,
    cur: int,
    fields: HeaderFields,
    level: Option<Level>,
)
    requires
        line.len() <= u32::MAX,
        0 <= cur <= line.len(),
        0 <= idx <= toks.len(),
        fields_within(fields, line.len() as int),
        (fields.level is Some) == (level is Some),
        level matches Some(l) ==> l != Level::Unknown,
        (level is Some) == level_token_upto(toks, idx),
    ensures
        parse_from(toks, line, idx, cur, fields, level) matches Some(h) ==> {
            &&& fields_within(h.fields, line.len() as int)
            &&& (h.fields.level is Some) == (h.level != Level::Unknown)
            &&& (h.level != Level::Unknown) == level_token_upto(toks, toks.len() as int)
        },
    decreases toks.len() - idx,
{
    let len = line.len() as int;
    if 0 <= idx < toks.len() {
        let rest = line.skip(cur);
        match toks[idx] {
            TokenView::Literal(b) => {
                if !(line.len() < cur + b.len() || line.subrange(cur, cur + b.len()) != b) {
                    lemma_parse_from_within(toks, line, idx + 1, cur + b.len(), fields, level);
                }
            },
            TokenView::Level { width } => {
                lemma_run_ends(rest, 0);
                if let Some((lv, n)) = spec_parse_level(rest, width) {
                    lemma_parse_from_within(
                        toks,
                        line,
                        idx + 1,
                        cur + n,
                        HeaderFields { level: Some((sat_u32(cur), sat_u32(cur + n))), ..fields },
                        Some(lv),
                    );
                }
            },
            TokenView::Date { raw, atoms } => {
                if let Some(n) = spec_match_at(atoms, rest) {
                    lemma_parse_from_within(
                        toks,
                        line,
                        idx + 1,
                        cur + n,
                        HeaderFields { timestamp: Some((sat_u32(cur), sat_u32(cur + n))), ..fields },
                        level,
                    );
                }
            },
            TokenView::Thread => {
                lemma_read_until_bound(rest, next_literal(toks, idx + 1));
                if let Some(n) = spec_read_until(rest, next_literal(toks, idx + 1)) {
                    lemma_parse_from_within(
                        toks,
                        line,
                        idx + 1,
                        cur + n,
                        HeaderFields { thread: Some((sat_u32(cur), sat_u32(cur + n))), ..fields },
                        level,
                    );
                }
            },
            TokenView::Logger { .. } => {
                lemma_read_until_bound(rest, next_literal(toks, idx + 1));
                if let Some(n) = spec_read_until(rest, next_literal(toks, idx + 1)) {
                    lemma_parse_from_within(
                        toks,
                        line,
                        idx + 1,
                        cur + n,
                        HeaderFields { logger: Some((sat_u32(cur), sat_u32(cur + n))), ..fields },
                        level,
                    );
                }
            },
            TokenView::SourceFile => {
                lemma_read_until_bound(rest, next_literal(toks, idx + 1));
                if let Some(n) = spec_read_until(rest, next_literal(toks, idx + 1)) {
                    let f2 = if fields.logger is None {
                        HeaderFields { logger: Some((sat_u32(cur), sat_u32(cur + n))), ..fields }
                    } else {
                        fields
                    };
                    lemma_parse_from_within(toks, line, idx + 1, cur + n, f2, level);
                }
            },
            TokenView::SourceLine => {
                lemma_run_ends(line, cur);
                lemma_parse_from_within(toks, line, idx + 1, digit_end(line, cur), fields, level);
            },
            TokenView::Message => {
                lemma_parse_from_within(
                    toks,
                    line,
                    idx + 1,
                    len,
                    HeaderFields { message: Some((sat_u32(cur), sat_u32(len))), ..fields },
                    level,
                );
            },
            TokenView::Newline => {
                lemma_parse_from_within(toks, line, idx + 1, cur, fields, level);
            },
        }
    }
}

/// Every field a parsed header records is an ordered byte range inside its
/// line, and the message runs to the end of the line; the level range is
/// recorded exactly when a level was read, which is exactly when the
/// pattern has a level token. (Ranges are `u32`; the law is stated for
/// lines of at most `u32::MAX` bytes.)
pub proof fn law_header_fields_within(toks: Seq<TokenView>, line: Seq<u8>)
    requires
        line.len() <= u32::MAX,
    ensures
        spec_try_parse_header(toks, line) matches Some(h) ==> {
            &&& fields_within(h.fields, line.len() as int)
            &&& (h.fields.level is Some) == (h.level != Level::Unknown)
            &&& (h.level != Level::Unknown) == level_token_upto(toks, toks.len() as int)
        },
{
    lemma_parse_from_within(toks, line, 0, 0, HeaderFields::spec_empty(), None);
}

/// The header `tokens` read from `line`, or `None` for a continuation.
pub open spec fn spec_try_parse_header(toks: Seq<TokenView>, line: Seq<u8>) -> Option<ParsedHeader> {
    parse_from(toks, line, 0, 0, HeaderFields::spec_empty(), None)
}

// ---------------------------------------------------------------------------
// The compiler.

fn is_alpha_byte(b: u8) -> (r: bool)
    ensures
        r == is_alpha(b),
{
    (97 <= b && b <= 122) || (65 <= b && b <= 90)
}

fn digit_run_end(s: &[u8], j: usize) -> (r: usize)
    requires
        j <= s.len(),
    ensures
        r == digit_end(s@, j as int),
        j <= r <= s.len(),
{
    let mut k = j;
    while k < s.len() && is_digit_byte(s[k])
        invariant
            j <= k <= s.len(),
            digit_end(s@, k as int) == digit_end(s@, j as int),
        decreases s.len() - k,
    {
        k += 1;
    }
    k
}

fn alpha_run_end(s: &[u8], j: usize) -> (r: usize)
    requires
        j <= s.len(),
    ensures
        r == alpha_end(s@, j as int),
        j <= r <= s.len(),
{
    let mut k = j;
    while k < s.len() && is_alpha_byte(s[k])
        invariant
            j <= k <= s.len(),
            alpha_end(s@, k as int) == alpha_end(s@, j as int),
        decreases s.len() - k,
    {
        k += 1;
    }
    k
}

fn brace_close_at(s: &[u8], j: usize) -> (r: usize)
    requires
        j <= s.len(),
    ensures
        r == brace_close(s@, j as int),
        j <= r <= s.len(),
{
    let mut k = j;
    while k < s.len() && s[k] != 125u8
        invariant
            j <= k <= s.len(),
            brace_close(s@, k as int) == brace_close(s@, j as int),
        decreases s.len() - k,
    {
        k += 1;
    }
    k
}

proof fn lemma_digits_value_prefix(d: Seq<u8>, k: int)
    requires
        all_digits(d),
        0 <= k <= d.len(),
    ensures
        digits_value(d.take(k)) <= digits_value(d),
    decreases d.len() - k,
{
    if k < d.len() {
        lemma_digits_value_prefix(d, k + 1);
        assert(d.take(k + 1).drop_last() =~= d.take(k));
        assert(is_digit(d[k]));
    } else {
        assert(d.take(k) =~= d);
    }
}

/// Decimal value of the digit string `d`, or `None` past `usize::MAX`.
fn digits_to_usize(d: &[u8]) -> (r: Option<usize>)
    requires
        all_digits(d@),
    ensures
        r == (if digits_value(d@) <= usize::MAX {
            Some(digits_value(d@) as usize)
        } else {
            None::<usize>
        }),
{
    let mut acc: usize = 0;
    let mut k: usize = 0;
    assert(d@.take(0) =~= Seq::<u8>::empty());
    while k < d.len()
        invariant
            all_digits(d@),
            k <= d.len(),
            acc == digits_value(d@.take(k as int)),
        decreases d.len() - k,
    {
        assert(d@.take(k + 1).drop_last() =~= d@.take(k as int));
        assert(is_digit(d@[k as int]));
        let digit = (d[k] - 48u8) as usize;
        match acc.checked_mul(10) {
            None => {
                proof {
                    lemma_digits_value_prefix(d@, k + 1);
                }
                return None;
            },
            Some(m) => match m.checked_add(digit) {
                None => {
                    proof {
                        lemma_digits_value_prefix(d@, k + 1);
                    }
                    return None;
                },
                Some(v) => {
                    acc = v;
                },
            },
        }
        k += 1;
    }
    assert(d@.take(d.len() as int) =~= d@);
    Some(acc)
}

/// `u32::from_str` on a byte string: an optional `+`, then digits, in range.
fn parse_u32_bytes(b: &[u8]) -> (r: Option<u32>)
    ensures
        r == spec_parse_u32(b@),
{
    let d = if b.len() > 0 && b[0] == 43u8 {
        &b[1..b.len()]
    } else {
        b
    };
    assert(b.len() > 0 && b@[0] == 43 ==> d@ =~= b@.skip(1));
    if d.len() == 0 {
        return None;
    }
    let mut k: usize = 0;
    while k < d.len()
        invariant
            d@ == (if b@.len() > 0 && b@[0] == 43 { b@.skip(1) } else { b@ }),
            d.len() > 0,
            k <= d.len(),
            forall|j: int| 0 <= j < k ==> is_digit(#[trigger] d@[j]),
        decreases d.len() - k,
    {
        if !is_digit_byte(d[k]) {
            assert(!is_digit(d@[k as int]));
            return None;
        }
        k += 1;
    }
    match digits_to_usize(d) {
        Some(v) => if v <= 0xFFFF_FFFF {
            Some(v as u32)
        } else {
            None
        },
        None => None,
    }
}

fn expand_named_date(fmt: &[u8]) -> (r: Vec<u8>)
    ensures
        r@ == spec_expand_named_date(fmt@),
{
    let (a, b, c, d, e) = (LIT_ISO8601, LIT_DEFAULT, LIT_ISO8601_BASIC, LIT_ABSOLUTE, LIT_DATE);
    let (fi, fb, fa, fd) = (FMT_ISO, FMT_ISO_BASIC, FMT_ABSOLUTE, FMT_DATE);
    proof {
        assert(a@ =~= lit_iso8601());
        assert(b@ =~= lit_default());
        assert(c@ =~= lit_iso8601_basic());
        assert(d@ =~= lit_absolute());
        assert(e@ =~= lit_date());
        assert(fi@ =~= fmt_iso());
        assert(fb@ =~= fmt_iso_basic());
        assert(fa@ =~= fmt_absolute());
        assert(fd@ =~= fmt_date());
    }
    if bytes_eq(fmt, &a) || bytes_eq(fmt, &b) {
        vstd::slice::slice_to_vec(&fi)
    } else if bytes_eq(fmt, &c) {
        vstd::slice::slice_to_vec(&fb)
    } else if bytes_eq(fmt, &d) {
        vstd::slice::slice_to_vec(&fa)
    } else if bytes_eq(fmt, &e) {
        vstd::slice::slice_to_vec(&fd)
    } else {
        vstd::slice::slice_to_vec(fmt)
    }
}

fn is_date_digit_char(b: u8) -> (r: bool)
    ensures
        r == spec_is_date_digit_char(b),
{
    b == 121u8 || b == 77u8 || b == 100u8 || b == 72u8 || b == 109u8 || b == 115u8 || b == 83u8 || b == 78u8
}

impl DateFormat {
    /// Classify every byte of a `SimpleDateFormat` string: format letters
    /// become digit slots, everything else (and anything inside `'...'`)
    /// must match literally.
    fn compile(raw: &[u8]) -> (r: DateFormat)
        ensures
            r.raw@ == utf8_or_empty(raw@),
            r.atoms@ == spec_date_atoms(raw@),
    {
        let mut atoms: Vec<DateAtom> = Vec::new();
        let mut quoted = false;
        let mut i: usize = 0;
        while i < raw.len()
            invariant
                i <= raw.len(),
                atoms@ + date_atoms_from(raw@, i as int, quoted) == spec_date_atoms(raw@),
            decreases raw.len() - i,
        {
            let b = raw[i];
            if b == 39u8 {
                quoted = !quoted;
            } else {
                let atom = if !quoted && is_date_digit_char(b) {
                    DateAtom::Digit
                } else {
                    DateAtom::Literal(b)
                };
                let ghost before = atoms@;
                atoms.push(atom);
                assert(before + (seq![atom] + date_atoms_from(raw@, i + 1, quoted)) =~= atoms@ + date_atoms_from(raw@, i + 1, quoted));
            }
            i += 1;
        }
        assert(atoms@ + date_atoms_from(raw@, i as int, quoted) =~= atoms@);
        DateFormat { raw: string_of_utf8(raw), atoms }
    }
}

/// An optional `{...}` at `i`: the range of its contents and the position
/// after the closing brace.
fn parse_braced(bytes: &[u8], i: usize, col: usize, purpose: BraceFor) -> (r: Result<(Option<(usize, usize)>, usize), PatternError>)
    requires
        i <= bytes.len(),
    ensures
        match spec_braced(bytes@, i as int, col, purpose is Logger) {
            Ok((sb, sa)) => r matches Ok((b, a)) && a == sa && match b {
                Some((x, y)) => x <= y <= bytes.len() && sb == Some(bytes@.subrange(x as int, y as int)),
                None => sb is None,
            },
            Err(se) => r matches Err(e) && e.view() == se,
        },
        r matches Ok((_, a)) ==> i <= a <= bytes.len(),
{
    if i >= bytes.len() || bytes[i] != 123u8 {
        return Ok((None, i));
    }
    let start = i + 1;
    let j = brace_close_at(bytes, start);
    if j >= bytes.len() {
        return Err(match purpose {
            BraceFor::Date | BraceFor::Unknown => PatternError::UnterminatedDateBrace { col },
            BraceFor::Logger => PatternError::UnterminatedLoggerBrace { col },
        });
    }
    Ok((Some((start, j)), j + 1))
}

/// The optional `-N` level width at `i` and the position after it.
fn parse_width(bytes: &[u8], i: usize, col: usize) -> (r: Result<(Option<usize>, usize), PatternError>)
    requires
        i < bytes.len(),
    ensures
        match spec_width(bytes@, i as int, col) {
            Ok((sw, sa)) => r matches Ok((w, a)) && w == sw && a == sa && i <= a <= bytes.len(),
            Err(se) => r matches Err(e) && e.view() == se,
        },
{
    if bytes[i] != 45u8 {
        return Ok((None, i));
    }
    let start = i + 1;
    let j = digit_run_end(bytes, start);
    if j == start {
        return Err(PatternError::BadLevelWidth { col, found: String::new() });
    }
    proof {
        lemma_run_ends(bytes@, start as int);
    }
    let digits = &bytes[start..j];
    assert(all_digits(digits@));
    match digits_to_usize(digits) {
        Some(n) => Ok((Some(n), j)),
        None => Err(PatternError::BadLevelWidth { col, found: string_of_utf8(digits) }),
    }
}

/// Push the pending literal, if any, as a token.
fn flush_lit(lit: &mut Vec<u8>, tokens: &mut Vec<Token>)
    ensures
        tokens_view(final(tokens)@) == spec_flush(tokens_view(old(tokens)@), old(lit)@),
        final(lit)@ == Seq::<u8>::empty(),
{
    if lit.len() > 0 {
        let mut taken: Vec<u8> = Vec::new();
        std::mem::swap(&mut taken, lit);
        let ghost before = tokens@;
        tokens.push(Token::Literal(taken));
        assert(tokens_view(tokens@) =~= tokens_view(before).push(TokenView::Literal(old(lit)@)));
    }
}

/// Every variable-length token must be directly followed by a literal, the
/// message or the terminator, or be the last token.
fn validate_variable_terminators(tokens: &[Token]) -> (r: Result<(), PatternError>)
    ensures
        match validate_from(tokens_view(tokens@), 0) {
            Ok(_) => r is Ok,
            Err(se) => r matches Err(e) && e.view() == se,
        },
{
    let ghost tv = tokens_view(tokens@);
    let mut idx: usize = 0;
    while idx < tokens.len()
        invariant
            tv == tokens_view(tokens@),
            idx <= tokens.len(),
            validate_from(tv, idx as int) == validate_from(tv, 0),
        decreases tokens.len() - idx,
    {
        let kind: Option<&'static str> = match &tokens[idx] {
            Token::Thread => Some("t"),
            Token::Logger { .. } => Some("c"),
            Token::SourceFile => Some("F"),
            _ => None,
        };
        if let Some(kind) = kind {
            if idx + 1 < tokens.len() {
                let anchored = match &tokens[idx + 1] {
                    Token::Literal(_) | Token::Message | Token::Newline => true,
                    _ => false,
                };
                if !anchored {
                    return Err(PatternError::AmbiguousVariableToken { kind, col: 0 });
                }
            }
        }
        idx += 1;
    }
    Ok(())
}

fn unknown_specifier_message(name: &[u8]) -> (r: String)
    ensures
        r@ == unknown_warning(name@),
{
    let other = string_of_utf8(name);
    let mut msg = "unknown specifier `%".to_owned();
    msg.append(other.as_str());
    msg.append("` ignored");
    msg
}

fn is_single(name: &[u8], b: u8) -> (r: bool)
    ensures
        r == (name@ == seq![b]),
{
    let r = name.len() == 1 && name[0] == b;
    if r {
        assert(name@ =~= seq![b]);
    }
    r
}

impl CompiledPattern {
    /// Compile `src` into a token sequence.
    ///
    /// Fails on an empty pattern, a dangling `%`, an unterminated `{`, a
    /// bad level width or logger precision, or a variable-length specifier
    /// with no literal terminator after it.
    pub fn compile(src: &str) -> (r: Result<CompiledPattern, PatternError>)
        ensures
            match spec_compile(src.spec_bytes()) {
                Ok((toks, warns)) => r matches Ok(p) && p.source@ == src@ && tokens_view(p.tokens@) == toks
                    && warnings_view(p.warnings@) == warns,
                Err(se) => r matches Err(e) && e.view() == se,
            },
    {
        let bytes = src.as_bytes();
        if bytes.len() == 0 {
            return Err(PatternError::Empty);
        }
        let ghost s = bytes@;
        let mut tokens: Vec<Token> = Vec::new();
        let mut warnings: Vec<PatternWarning> = Vec::new();
        let mut lit: Vec<u8> = Vec::new();
        let mut i: usize = 0;
        let level_word = LIT_LEVEL_WORD;
        let msg_word = LIT_MSG;
        proof {
            assert(level_word@ =~= lit_level_word());
            assert(msg_word@ =~= lit_msg());
            assert(tokens_view(tokens@) =~= Seq::<TokenView>::empty());
            assert(warnings_view(warnings@) =~= Seq::<(Seq<char>, usize)>::empty());
        }
        while i < bytes.len()
            invariant
                s == bytes@,
                s == src.spec_bytes(),
                s.len() > 0,
                level_word@ == lit_level_word(),
                msg_word@ == lit_msg(),
                i <= bytes.len(),
                spec_compile(s) == compile_from(s, i as int, tokens_view(tokens@), lit@, warnings_view(warnings@)),
            decreases bytes.len() - i,
        {
            let b = bytes[i];
            if b != 37u8 {
                lit.push(b);
                i += 1;
                continue;
            }
            let col = i;
            i += 1;
            if i >= bytes.len() {
                assert(s[col as int] == 37);
                assert(compile_from(s, col as int, tokens_view(tokens@), lit@, warnings_view(warnings@)) == Err::<(Seq<TokenView>, Seq<(Seq<char>, usize)>), PatternErrorView>(PatternErrorView::DanglingPercent));
                return Err(PatternError::DanglingPercent);
            }
            let (width, name_start) = match parse_width(bytes, i, col) {
                Ok(x) => x,
                Err(e) => return Err(e),
            };
            proof {
                lemma_run_ends(s, i + 1);
            }
            let name_end = alpha_run_end(bytes, name_start);
            let name = &bytes[name_start..name_end];
            let ghost toks_before = tokens_view(tokens@);
            let ghost lit_before = lit@;
            let ghost warns_before = warnings_view(warnings@);
            if is_single(name, 100u8) {
                flush_lit(&mut lit, &mut tokens);
                let (inner, after) = match parse_braced(bytes, name_end, col, BraceFor::Date) {
                    Ok(x) => x,
                    Err(e) => return Err(e),
                };
                let expanded = match inner {
                    Some((x, y)) => expand_named_date(&bytes[x..y]),
                    None => {
                        let fi = FMT_ISO;
                        assert(fi@ =~= fmt_iso());
                        expand_named_date(&fi)
                    },
                };
                let ghost before = tokens@;
                tokens.push(Token::Date(DateFormat::compile(&expanded)));
                assert(tokens_view(tokens@) =~= tokens_view(before).push(tokens@.last().view()));
                i = after;
            } else if bytes_eq(name, &level_word) || is_single(name, 112u8) {
                flush_lit(&mut lit, &mut tokens);
                let ghost before = tokens@;
                tokens.push(Token::Level { width });
                assert(tokens_view(tokens@) =~= tokens_view(before).push(TokenView::Level { width }));
                i = name_end;
            } else if is_single(name, 116u8) {
                flush_lit(&mut lit, &mut tokens);
                let ghost before = tokens@;
                tokens.push(Token::Thread);
                assert(tokens_view(tokens@) =~= tokens_view(before).push(TokenView::Thread));
                i = name_end;
            } else if is_single(name, 99u8) || is_single(name, 67u8) {
                flush_lit(&mut lit, &mut tokens);
                let (inner, after) = match parse_braced(bytes, name_end, col, BraceFor::Logger) {
                    Ok(x) => x,
                    Err(e) => return Err(e),
                };
                let precision = match inner {
                    Some((x, y)) => match parse_u32_bytes(&bytes[x..y]) {
                        Some(v) => Some(v),
                        None => {
                            return Err(PatternError::BadLoggerPrecision { col, found: string_of_utf8(&bytes[x..y]) });
                        },
                    },
                    None => None,
                };
                let ghost before = tokens@;
                tokens.push(Token::Logger { precision });
                assert(tokens_view(tokens@) =~= tokens_view(before).push(TokenView::Logger { precision }));
                i = after;
            } else if is_single(name, 70u8) {
                flush_lit(&mut lit, &mut tokens);
                let ghost before = tokens@;
                tokens.push(Token::SourceFile);
                assert(tokens_view(tokens@) =~= tokens_view(before).push(TokenView::SourceFile));
                i = name_end;
            } else if is_single(name, 76u8) {
                flush_lit(&mut lit, &mut tokens);
                let ghost before = tokens@;
                tokens.push(Token::SourceLine);
                assert(tokens_view(tokens@) =~= tokens_view(before).push(TokenView::SourceLine));
                i = name_end;
            } else if bytes_eq(name, &msg_word) || is_single(name, 109u8) {
                flush_lit(&mut lit, &mut tokens);
                let ghost before = tokens@;
                tokens.push(Token::Message);
                assert(tokens_view(tokens@) =~= tokens_view(before).push(TokenView::Message));
                i = name_end;
            } else if is_single(name, 110u8) {
                flush_lit(&mut lit, &mut tokens);
                let ghost before = tokens@;
                tokens.push(Token::Newline);
                assert(tokens_view(tokens@) =~= tokens_view(before).push(TokenView::Newline));
                i = name_end;
            } else if name.len() == 0 {
                if name_end < bytes.len() && bytes[name_end] == 37u8 {
                    lit.push(37u8);
                    i = name_end + 1;
                } else {
                    return Err(PatternError::DanglingPercent);
                }
            } else {
                let (_, after) = match parse_braced(bytes, name_end, col, BraceFor::Unknown) {
                    Ok(x) => x,
                    Err(e) => return Err(e),
                };
                let ghost before = warnings@;
                warnings.push(PatternWarning { message: unknown_specifier_message(name), col });
                assert(warnings_view(warnings@) =~= warnings_view(before).push((unknown_warning(name@), col)));
                i = after;
            }
        }
        flush_lit(&mut lit, &mut tokens);
        match validate_variable_terminators(tokens.as_slice()) {
            Ok(()) => {},
            Err(e) => return Err(e),
        }
        Ok(CompiledPattern { source: src.to_owned(), tokens, warnings })
    }
}

// ---------------------------------------------------------------------------
// The header parser.

fn u32_of(x: usize) -> (r: u32)
    ensures
        r == sat_u32(x as int),
{
    if x <= 0xFFFF_FFFF {
        x as u32
    } else {
        u32::MAX
    }
}

pub(crate) fn classify_level_word(word: &[u8]) -> (r: Option<Level>)
    ensures
        r == spec_level_word(word@),
{
    let (t, d, i, w, e, f, o, a) = (LIT_TRACE, LIT_DEBUG, LIT_INFO, LIT_WARN, LIT_ERROR, LIT_FATAL, LIT_OFF, LIT_ALL);
    proof {
        assert(t@ =~= crate::record::lit_trace());
        assert(d@ =~= crate::record::lit_debug());
        assert(i@ =~= lit_info());
        assert(w@ =~= lit_warn());
        assert(e@ =~= crate::record::lit_error());
        assert(f@ =~= crate::record::lit_fatal());
        assert(o@ =~= lit_off());
        assert(a@ =~= lit_all());
    }
    if bytes_eq(word, &t) {
        Some(Level::Trace)
    } else if bytes_eq(word, &d) {
        Some(Level::Debug)
    } else if bytes_eq(word, &i) {
        Some(Level::Info)
    } else if bytes_eq(word, &w) {
        Some(Level::Warn)
    } else if bytes_eq(word, &e) {
        Some(Level::Error)
    } else if bytes_eq(word, &f) {
        Some(Level::Fatal)
    } else if bytes_eq(word, &o) {
        Some(Level::Off)
    } else if bytes_eq(word, &a) {
        Some(Level::All)
    } else {
        None
    }
}

fn parse_level(buf: &[u8], width: Option<usize>) -> (r: Option<(Level, usize)>)
    ensures
        match spec_parse_level(buf@, width) {
            Some((lv, n)) => r matches Some((l2, m)) && l2 == lv && m as int == n,
            None => r is None,
        },
        r matches Some((_, k)) ==> k <= buf.len(),
{
    match width {
        Some(w) => {
            if buf.len() < w {
                return None;
            }
            let raw = &buf[0..w];
            let mut end = raw.len();
            while end > 0 && raw[end - 1] == 32u8
                invariant
                    end <= raw.len(),
                    space_trim_end(raw@, end as int) == space_trim_end(raw@, raw.len() as int),
                decreases end,
            {
                end -= 1;
            }
            assert(raw@ =~= buf@.take(w as int));
            match classify_level_word(&raw[0..end]) {
                Some(lv) => {
                    assert(raw@.take(end as int) =~= raw@.subrange(0, end as int));
                    Some((lv, w))
                },
                None => {
                    assert(raw@.take(end as int) =~= raw@.subrange(0, end as int));
                    None
                },
            }
        },
        None => {
            let j = alpha_run_end(buf, 0);
            if j == 0 {
                return None;
            }
            let word = &buf[0..j];
            assert(word@ =~= buf@.take(j as int));
            match classify_level_word(word) {
                Some(lv) => Some((lv, j)),
                None => None,
            }
        },
    }
}

impl DateFormat {
    /// Match the timestamp at the start of `buf`: one byte per atom.
    fn match_at(&self, buf: &[u8]) -> (r: Option<usize>)
        ensures
            match spec_match_at(self.atoms@, buf@) {
                Some(n) => r matches Some(m) && m as int == n,
                None => r is None,
            },
            r matches Some(m) ==> m <= buf.len(),
    {
        if buf.len() < self.atoms.len() {
            return None;
        }
        let mut i: usize = 0;
        while i < self.atoms.len()
            invariant
                buf.len() >= self.atoms.len(),
                i <= self.atoms.len(),
                forall|k: int| 0 <= k < i ==> atom_matches(self.atoms@[k], #[trigger] buf@[k]),
            decreases self.atoms.len() - i,
        {
            let b = buf[i];
            let ok = match self.atoms[i] {
                DateAtom::Digit => is_digit_byte(b),
                DateAtom::Literal(want) => b == want,
            };
            if !ok {
                assert(!atom_matches(self.atoms@[i as int], buf@[i as int]));
                return None;
            }
            i += 1;
        }
        Some(self.atoms.len())
    }
}

fn next_literal_bytes(tokens: &[Token], from: usize) -> (r: Option<&[u8]>)
    requires
        from <= tokens.len(),
    ensures
        match next_literal(tokens_view(tokens@), from as int) {
            Some(b) => r matches Some(x) && x@ == b,
            None => r is None,
        },
{
    let ghost tv = tokens_view(tokens@);
    let mut k = from;
    while k < tokens.len()
        invariant
            tv == tokens_view(tokens@),
            from <= k <= tokens.len(),
            next_literal(tv, k as int) == next_literal(tv, from as int),
        decreases tokens.len() - k,
    {
        match &tokens[k] {
            Token::Literal(b) => return Some(b.as_slice()),
            Token::Newline => return None,
            _ => {},
        }
        k += 1;
    }
    None
}

/// Bytes taken by a variable-length field: up to the first occurrence of
/// `needle` past the first byte (an empty capture never matches), or the
/// whole rest when no literal follows.
fn read_until_literal(buf: &[u8], needle: Option<&[u8]>) -> (r: Option<usize>)
    ensures
        match needle {
            Some(n) => match spec_read_until(buf@, Some(n@)) {
                Some(k) => r matches Some(m) && m as int == k,
                None => r is None,
            },
            None => r == Some(buf.len()),
        },
        r matches Some(k) ==> k <= buf.len(),
{
    match needle {
        None => Some(buf.len()),
        Some(n) => {
            if n.len() == 0 {
                return Some(0);
            }
            let mut i: usize = 1;
            while i <= buf.len() && n.len() <= buf.len() - i
                invariant
                    needle == Some(n),
                    n.len() > 0,
                    1 <= i,
                    first_occurrence_from(buf@, n@, i as int) == first_occurrence_from(buf@, n@, 1),
                decreases buf.len() + 1 - i,
            {
                if crate::bytes::bytes_occur_at(buf, n, i) {
                    return Some(i);
                }
                i += 1;
            }
            None
        },
    }
}

fn ends_with_message(tokens: &[Token]) -> (r: bool)
    ensures
        r == ends_with_message_upto(tokens_view(tokens@), tokens@.len() as int),
{
    let ghost tv = tokens_view(tokens@);
    let mut n = tokens.len();
    while n > 0
        invariant
            tv == tokens_view(tokens@),
            n <= tokens.len(),
            ends_with_message_upto(tv, n as int) == ends_with_message_upto(tv, tokens@.len() as int),
        decreases n,
    {
        match &tokens[n - 1] {
            Token::Newline => {},
            Token::Message => return true,
            _ => return false,
        }
        n -= 1;
    }
    false
}

impl CompiledPattern {
    /// Parse `line` (one physical line, without trailing newline) as a
    /// record header: `Some` with the level and field spans, or `None` when
    /// the line is a continuation of the previous record.
    pub fn try_parse_header(&self, line: &[u8]) -> (r: Option<ParsedHeader>)
        ensures
            r == spec_try_parse_header(tokens_view(self.tokens@), line@),
    {
        let ghost tv = tokens_view(self.tokens@);
        let tokens = self.tokens.as_slice();
        let mut cur: usize = 0;
        let mut fields = HeaderFields::empty();
        let mut level: Option<Level> = None;
        let mut idx: usize = 0;
        while idx < tokens.len()
            invariant
                tokens@ == self.tokens@,
                tv == tokens_view(tokens@),
                cur <= line.len(),
                idx <= tokens.len(),
                spec_try_parse_header(tv, line@) == parse_from(tv, line@, idx as int, cur as int, fields, level),
            decreases tokens.len() - idx,
        {
            assert(tv[idx as int] == tokens@[idx as int].view());
            let rest = &line[cur..line.len()];
            assert(rest@ =~= line@.skip(cur as int));
            match &tokens[idx] {
                Token::Literal(bytes) => {
                    if line.len() - cur < bytes.len() {
                        return None;
                    }
                    if !bytes_eq(&line[cur..cur + bytes.len()], bytes.as_slice()) {
                        return None;
                    }
                    cur += bytes.len();
                },
                Token::Level { width } => {
                    let start = cur;
                    match parse_level(rest, *width) {
                        None => return None,
                        Some((lv, consumed)) => {
                            cur += consumed;
                            level = Some(lv);
                            fields.level = Some((u32_of(start), u32_of(cur)));
                        },
                    }
                },
                Token::Date(fmt) => {
                    let start = cur;
                    match fmt.match_at(rest) {
                        None => return None,
                        Some(consumed) => {
                            cur += consumed;
                            fields.timestamp = Some((u32_of(start), u32_of(cur)));
                        },
                    }
                },
                Token::Thread => {
                    let next_lit = next_literal_bytes(tokens, idx + 1);
                    match read_until_literal(rest, next_lit) {
                        None => return None,
                        Some(consumed) => {
                            let start = cur;
                            cur += consumed;
                            fields.thread = Some((u32_of(start), u32_of(cur)));
                        },
                    }
                },
                Token::Logger { .. } => {
                    let next_lit = next_literal_bytes(tokens, idx + 1);
                    match read_until_literal(rest, next_lit) {
                        None => return None,
                        Some(consumed) => {
                            let start = cur;
                            cur += consumed;
                            fields.logger = Some((u32_of(start), u32_of(cur)));
                        },
                    }
                },
                Token::SourceFile => {
                    let next_lit = next_literal_bytes(tokens, idx + 1);
                    match read_until_literal(rest, next_lit) {
                        None => return None,
                        Some(consumed) => {
                            let start = cur;
                            cur += consumed;
                            if fields.logger.is_none() {
                                fields.logger = Some((u32_of(start), u32_of(cur)));
                            }
                        },
                    }
                },
                Token::SourceLine => {
                    let j = digit_run_end(line, cur);
                    if j == cur {
                        return None;
                    }
                    cur = j;
                },
                Token::Message => {
                    let start = cur;
                    cur = line.len();
                    fields.message = Some((u32_of(start), u32_of(cur)));
                },
                Token::Newline => {},
            }
            idx += 1;
        }
        if !ends_with_message(tokens) && cur != line.len() {
            return None;
        }
        Some(ParsedHeader {
            level: match level {
                Some(l) => l,
                None => Level::Unknown,
            },
            fields,
        })
    }
}

impl crate::record::RecordScanner for CompiledPattern {
    open spec fn spec_parse_header(&self, line: Seq<u8>) -> Option<ParsedHeader> {
        spec_try_parse_header(tokens_view(self.tokens@), line)
    }

    fn try_parse_header(&self, line: &[u8]) -> (r: Option<ParsedHeader>) {
        CompiledPattern::try_parse_header(self, line)
    }
}

/// Equality of two strings, compared byte by byte.
pub fn str_eq(a: &str, b: &str) -> (r: bool)
    ensures
        r == (a@ == b@),
{
    let r = bytes_eq(a.as_bytes(), b.as_bytes());
    proof {
        vstd::utf8::encode_utf8_decode_utf8(a@);
        vstd::utf8::encode_utf8_decode_utf8(b@);
    }
    r
}

/// The built-in patterns auto-detect runs against, in priority order: on a
/// tie the earlier one wins, so more specific patterns come first.
pub open spec fn spec_builtin_patterns() -> Seq<(Seq<char>, Seq<char>)> {
    seq![
        ("wsl-oink"@, "[%-5level] %d{yyyy-MM-dd HH:mm:ss.SSS} [%t] %c{1} - %msg%n"@),
        ("wsl-dev"@, "[%-5level] %d{yyyy-MM-dd HH:mm:ss.SSS} [%t] %c{1} - %msg%n"@),
        ("play-class-site"@, "%d %-5p [%t] %C{2} (%F:%L) - %m%n"@),
        ("play-absolute-site"@, "%d{ABSOLUTE} %-5p ~ (%F:%L) - %m%n"@),
        ("prod"@, "%d{yyyy-MM-dd HH:mm:ss.SSS} %level [%t] - %msg%n"@),
        ("log4j2-default"@, "%d{ISO8601} [%t] %-5level %c{36} - %msg%n"@),
        ("play-short-dash"@, "%d{HH:mm:ss,SSS} %level ~ - %msg%n"@),
        ("play-absolute"@, "%d{ABSOLUTE} %-5p ~ %m%n"@),
        ("play-short"@, "%d{HH:mm:ss,SSS} %level ~ %msg%n"@),
        ("prod-no-thread"@, "%d{yyyy-MM-dd HH:mm:ss.SSS} %level - %msg%n"@),
    ]
}

/// The built-in `(name, pattern)` pairs, in priority order.
pub fn builtin_patterns() -> (r: Vec<(&'static str, &'static str)>)
    ensures
        r@.len() == spec_builtin_patterns().len(),
        forall|i: int| 0 <= i < r@.len() ==> (r@[i].0@, r@[i].1@) == #[trigger] spec_builtin_patterns()[i],
{
    let v = vec![
        ("wsl-oink", "[%-5level] %d{yyyy-MM-dd HH:mm:ss.SSS} [%t] %c{1} - %msg%n"),
        ("wsl-dev", "[%-5level] %d{yyyy-MM-dd HH:mm:ss.SSS} [%t] %c{1} - %msg%n"),
        ("play-class-site", "%d %-5p [%t] %C{2} (%F:%L) - %m%n"),
        ("play-absolute-site", "%d{ABSOLUTE} %-5p ~ (%F:%L) - %m%n"),
        ("prod", "%d{yyyy-MM-dd HH:mm:ss.SSS} %level [%t] - %msg%n"),
        ("log4j2-default", "%d{ISO8601} [%t] %-5level %c{36} - %msg%n"),
        ("play-short-dash", "%d{HH:mm:ss,SSS} %level ~ - %msg%n"),
        ("play-absolute", "%d{ABSOLUTE} %-5p ~ %m%n"),
        ("play-short", "%d{HH:mm:ss,SSS} %level ~ %msg%n"),
        ("prod-no-thread", "%d{yyyy-MM-dd HH:mm:ss.SSS} %level - %msg%n"),
    ];
    assert forall|i: int| 0 <= i < v@.len() implies (v@[i].0@, v@[i].1@) == #[trigger] spec_builtin_patterns()[i] by {}
    v
}

/// Look up a built-in pattern source by name.
pub fn builtin_pattern(name: &str) -> (r: Option<&'static str>)
    ensures
        match r {
            Some(src) => exists|i: int|
                0 <= i < spec_builtin_patterns().len() && (#[trigger] spec_builtin_patterns()[i]).0 == name@
                    && spec_builtin_patterns()[i].1 == src@ && forall|j: int|
                    0 <= j < i ==> (#[trigger] spec_builtin_patterns()[j]).0 != name@,
            None => forall|i: int|
                0 <= i < spec_builtin_patterns().len() ==> (#[trigger] spec_builtin_patterns()[i]).0 != name@,
        },
{
    let list = builtin_patterns();
    let mut i: usize = 0;
    while i < list.len()
        invariant
            list@.len() == spec_builtin_patterns().len(),
            forall|k: int| 0 <= k < list@.len() ==> (list@[k].0@, list@[k].1@) == #[trigger] spec_builtin_patterns()[k],
            i <= list.len(),
            forall|k: int| 0 <= k < i ==> (#[trigger] spec_builtin_patterns()[k]).0 != name@,
        decreases list.len() - i,
    {
        let (n, src) = list[i];
        assert((list@[i as int].0@, list@[i as int].1@) == spec_builtin_patterns()[i as int]);
        if str_eq(n, name) {
            return Some(src);
        }
        i += 1;
    }
    None
}

/// How many of `lines` parse as headers under `toks`.
pub open spec fn count_headers(toks: Seq<TokenView>, lines: Seq<Seq<u8>>) -> nat
    decreases lines.len(),
{
    if lines.len() == 0 {
        0
    } else {
        count_headers(toks, lines.drop_last()) + if spec_try_parse_header(toks, lines.last()) is Some {
            1nat
        } else {
            0nat
        }
    }
}

impl CompiledPattern {
    /// Score this pattern against a sample of physical lines: how many
    /// parse as headers, out of how many. (The fraction of the two is the
    /// pattern's match score.)
    pub fn header_count(&self, lines: &Vec<Vec<u8>>) -> (r: (u32, u32))
        requires
            lines@.len() <= u32::MAX,
        ensures
            r.0 == count_headers(tokens_view(self.tokens@), lines@.map_values(|l: Vec<u8>| l@)),
            r.1 == lines@.len(),
    {
        let ghost tv = tokens_view(self.tokens@);
        let ghost ls = lines@.map_values(|l: Vec<u8>| l@);
        let mut total: u32 = 0;
        let mut hit: u32 = 0;
        let mut i: usize = 0;
        while i < lines.len()
            invariant
                tv == tokens_view(self.tokens@),
                ls == lines@.map_values(|l: Vec<u8>| l@),
                lines@.len() <= u32::MAX,
                i <= lines.len(),
                total == i,
                hit == count_headers(tv, ls.take(i as int)),
                hit <= i,
            decreases lines.len() - i,
        {
            assert(ls.take(i + 1).drop_last() =~= ls.take(i as int));
            assert(ls.take(i + 1).last() == lines@[i as int]@);
            total += 1;
            if self.try_parse_header(lines[i].as_slice()).is_some() {
                hit += 1;
            }
            i += 1;
        }
        assert(ls.take(i as int) =~= ls);
        (hit, total)
    }
}


/// A header count as the match score counts it: capped at `u16::MAX`.
pub open spec fn capped_hits(n: nat) -> nat {
    if n > 65535 {
        65535
    } else {
        n
    }
}

/// The capped header count of built-in pattern `i` over `lines`, or `None`
/// when the pattern does not compile.
pub open spec fn builtin_hits(i: int, lines: Seq<Seq<u8>>) -> Option<nat> {
    match spec_compile(encode_utf8(spec_builtin_patterns()[i].1)) {
        Ok((toks, _)) => Some(capped_hits(count_headers(toks, lines))),
        Err(_) => None,
    }
}

/// Built-in pattern `i` is the one auto-detect picks over `lines`: it
/// compiles, some line parses under it, no pattern scores higher and every
/// earlier pattern scores lower.
pub open spec fn detect_pick(i: int, lines: Seq<Seq<u8>>) -> bool {
    &&& 0 <= i < spec_builtin_patterns().len()
    &&& builtin_hits(i, lines) matches Some(h) && h > 0
    &&& forall|j: int|
        0 <= j < spec_builtin_patterns().len() ==> match #[trigger] builtin_hits(j, lines) {
            Some(hj) => hj <= builtin_hits(i, lines)->0 && (j < i ==> hj < builtin_hits(i, lines)->0),
            None => true,
        }
}

/// Score every built-in pattern against the sample `lines` and pick the
/// best: the earliest of those with the most header lines. `None` when no
/// line parses under any of them. Returns the name, the compiled pattern,
/// its header count and the number of lines (their ratio, with both capped
/// at `u16::MAX`, is the match score).
pub fn auto_detect(lines: &Vec<Vec<u8>>) -> (r: Option<(&'static str, CompiledPattern, u32, u32)>)
    requires
        lines@.len() <= u32::MAX,
    ensures
        ({
            let ls = lines@.map_values(|l: Vec<u8>| l@);
            &&& r is None <==> forall|j: int|
                0 <= j < spec_builtin_patterns().len() ==> !(#[trigger] builtin_hits(j, ls) matches Some(h) && h > 0)
            &&& r matches Some((name, pat, hit, total)) ==> {
                &&& total == lines@.len()
                &&& hit == count_headers(tokens_view(pat.tokens@), ls)
                &&& exists|i: int|
                    detect_pick(i, ls) && (#[trigger] spec_builtin_patterns()[i]).0 == name@
                        && spec_builtin_patterns()[i].1 == pat.source@
                        && builtin_hits(i, ls) == Some(capped_hits(hit as nat))
            }
        }),
{
    let ghost ls = lines@.map_values(|l: Vec<u8>| l@);
    let ghost n = spec_builtin_patterns().len();
    let list = builtin_patterns();
    let mut best: Option<(&'static str, CompiledPattern, u32, u32, u32)> = None;
    let ghost mut bi: int = 0;
    let mut i: usize = 0;
    while i < list.len()
        invariant
            ls == lines@.map_values(|l: Vec<u8>| l@),
            lines@.len() <= u32::MAX,
            n == spec_builtin_patterns().len(),
            list@.len() == n,
            forall|k: int| 0 <= k < list@.len() ==> (list@[k].0@, list@[k].1@) == #[trigger] spec_builtin_patterns()[k],
            i <= list.len(),
            best is None ==> forall|j: int| 0 <= j < i ==> (#[trigger] builtin_hits(j, ls)) is None,
            best matches Some((name, pat, hit, total, capped)) ==> {
                &&& 0 <= bi < i
                &&& total == lines@.len()
                &&& hit == count_headers(tokens_view(pat.tokens@), ls)
                &&& capped == capped_hits(hit as nat)
                &&& spec_builtin_patterns()[bi].0 == name@
                &&& spec_builtin_patterns()[bi].1 == pat.source@
                &&& builtin_hits(bi, ls) == Some(capped as nat)
                &&& forall|j: int| 0 <= j < i ==> match #[trigger] builtin_hits(j, ls) {
                    Some(hj) => hj <= capped && (j < bi ==> hj < capped),
                    None => true,
                }
            },
        decreases list.len() - i,
    {
        let (name, src) = list[i];
        assert((list@[i as int].0@, list@[i as int].1@) == spec_builtin_patterns()[i as int]);
        match CompiledPattern::compile(src) {
            Ok(pat) => {
                let (hit, total) = pat.header_count(lines);
                let capped: u32 = if hit > 65535 { 65535 } else { hit };
                let take = match &best {
                    None => true,
                    Some((_, _, _, _, c)) => capped > *c,
                };
                if take {
                    proof {
                        bi = i as int;
                    }
                    best = Some((name, pat, hit, total, capped));
                }
            },
            Err(_) => {},
        }
        i += 1;
    }
    match best {
        Some((name, pat, hit, total, capped)) => {
            if capped > 0 {
                proof {
                    assert(detect_pick(bi, ls));
                }
                Some((name, pat, hit, total))
            } else {
                None
            }
        },
        None => None,
    }
}

} // verus!
