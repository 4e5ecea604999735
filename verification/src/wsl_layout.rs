//! The first built-in layout, `[%-5level] %d{yyyy-MM-dd HH:mm:ss.SSS} [%t]
//! %c{1} - %msg%n`, worked through: what it compiles to, and that every
//! line it renders parses back with its level.

use vstd::prelude::*;
use crate::pattern::{
    alpha_end, brace_close, compile_from, date_atoms_from, digit_end, digits_value, lit_level_word, lit_msg,
    spec_braced, spec_builtin_patterns, spec_compile, spec_date_atoms, spec_expand_named_date, spec_flush,
    spec_parse_u32, spec_width, validate_from, DateAtom, TokenView,
};
use crate::text::utf8_or_empty;
use crate::record::{sat_u32, Level};
use crate::pattern::{parse_from, spec_try_parse_header, HeaderFields, ParsedHeader};
use crate::pattern::{spec_parse_level, space_trim_end, spec_match_at, first_occurrence_from};
use vstd::utf8::{encode_utf8, is_ascii_chars, is_ascii_chars_encode_utf8};

verus! {

/// The bytes of the first built-in layout.
pub open spec fn wsl_source() -> Seq<u8> {
    seq![91u8, 37u8, 45u8, 53u8, 108u8, 101u8, 118u8, 101u8, 108u8, 93u8, 32u8, 37u8, 100u8, 123u8, 121u8, 121u8, 121u8, 121u8, 45u8, 77u8, 77u8, 45u8, 100u8, 100u8, 32u8, 72u8, 72u8, 58u8, 109u8, 109u8, 58u8, 115u8, 115u8, 46u8, 83u8, 83u8, 83u8, 125u8, 32u8, 91u8, 37u8, 116u8, 93u8, 32u8, 37u8, 99u8, 123u8, 49u8, 125u8, 32u8, 45u8, 32u8, 37u8, 109u8, 115u8, 103u8, 37u8, 110u8]
}

/// Its date format.
pub open spec fn wsl_date_format() -> Seq<u8> {
    seq![121u8, 121u8, 121u8, 121u8, 45u8, 77u8, 77u8, 45u8, 100u8, 100u8, 32u8, 72u8, 72u8, 58u8, 109u8, 109u8, 58u8, 115u8, 115u8, 46u8, 83u8, 83u8, 83u8]
}

/// One atom per byte of the date: digits and the separators between them.
pub open spec fn wsl_date_atoms() -> Seq<DateAtom> {
    seq![DateAtom::Digit, DateAtom::Digit, DateAtom::Digit, DateAtom::Digit, DateAtom::Literal(45u8), DateAtom::Digit, DateAtom::Digit, DateAtom::Literal(45u8), DateAtom::Digit, DateAtom::Digit, DateAtom::Literal(32u8), DateAtom::Digit, DateAtom::Digit, DateAtom::Literal(58u8), DateAtom::Digit, DateAtom::Digit, DateAtom::Literal(58u8), DateAtom::Digit, DateAtom::Digit, DateAtom::Literal(46u8), DateAtom::Digit, DateAtom::Digit, DateAtom::Digit]
}

/// What the layout compiles to.
pub open spec fn wsl_tokens() -> Seq<TokenView> {
    seq![
        TokenView::Literal(seq![91u8]),
        TokenView::Level { width: Some(5) },
        TokenView::Literal(seq![93u8, 32u8]),
        TokenView::Date { raw: utf8_or_empty(wsl_date_format()), atoms: wsl_date_atoms() },
        TokenView::Literal(seq![32u8, 91u8]),
        TokenView::Thread,
        TokenView::Literal(seq![93u8, 32u8]),
        TokenView::Logger { precision: Some(1) },
        TokenView::Literal(seq![32u8, 45u8, 32u8]),
        TokenView::Message,
        TokenView::Newline,
    ]
}

proof fn lemma_wsl_date_atoms()
    ensures
        spec_date_atoms(wsl_date_format()) == wsl_date_atoms(),
        spec_expand_named_date(wsl_date_format()) == wsl_date_format(),
{
    let f = wsl_date_format();
    let a = wsl_date_atoms();
    assert(date_atoms_from(f, 23, false) =~= a.subrange(23, 23));
    assert(date_atoms_from(f, 22, false) =~= a.subrange(22, 23));
    assert(date_atoms_from(f, 21, false) =~= a.subrange(21, 23));
    assert(date_atoms_from(f, 20, false) =~= a.subrange(20, 23));
    assert(date_atoms_from(f, 19, false) =~= a.subrange(19, 23));
    assert(date_atoms_from(f, 18, false) =~= a.subrange(18, 23));
    assert(date_atoms_from(f, 17, false) =~= a.subrange(17, 23));
    assert(date_atoms_from(f, 16, false) =~= a.subrange(16, 23));
    assert(date_atoms_from(f, 15, false) =~= a.subrange(15, 23));
    assert(date_atoms_from(f, 14, false) =~= a.subrange(14, 23));
    assert(date_atoms_from(f, 13, false) =~= a.subrange(13, 23));
    assert(date_atoms_from(f, 12, false) =~= a.subrange(12, 23));
    assert(date_atoms_from(f, 11, false) =~= a.subrange(11, 23));
    assert(date_atoms_from(f, 10, false) =~= a.subrange(10, 23));
    assert(date_atoms_from(f, 9, false) =~= a.subrange(9, 23));
    assert(date_atoms_from(f, 8, false) =~= a.subrange(8, 23));
    assert(date_atoms_from(f, 7, false) =~= a.subrange(7, 23));
    assert(date_atoms_from(f, 6, false) =~= a.subrange(6, 23));
    assert(date_atoms_from(f, 5, false) =~= a.subrange(5, 23));
    assert(date_atoms_from(f, 4, false) =~= a.subrange(4, 23));
    assert(date_atoms_from(f, 3, false) =~= a.subrange(3, 23));
    assert(date_atoms_from(f, 2, false) =~= a.subrange(2, 23));
    assert(date_atoms_from(f, 1, false) =~= a.subrange(1, 23));
    assert(date_atoms_from(f, 0, false) =~= a.subrange(0, 23));
    assert(f != crate::pattern::lit_iso8601());
    assert(f != crate::pattern::lit_default());
    assert(f != crate::pattern::lit_iso8601_basic());
    assert(f != crate::pattern::lit_absolute());
    assert(f != crate::pattern::lit_date());
}



proof fn lemma_alpha_facts()
    ensures
        alpha_end(wsl_source(), 4) == 9,
        alpha_end(wsl_source(), 12) == 13,
        alpha_end(wsl_source(), 41) == 42,
        alpha_end(wsl_source(), 45) == 46,
        alpha_end(wsl_source(), 53) == 56,
        alpha_end(wsl_source(), 57) == 58,
        digit_end(wsl_source(), 3) == 4,
{
    let s = wsl_source();
    let t = wsl_tokens();
    assert(alpha_end(s, 9) == 9);
    assert(alpha_end(s, 8) == 9);
    assert(alpha_end(s, 7) == 9);
    assert(alpha_end(s, 6) == 9);
    assert(alpha_end(s, 5) == 9);
    assert(alpha_end(s, 4) == 9);
    assert(alpha_end(s, 13) == 13);
    assert(alpha_end(s, 12) == 13);
    assert(alpha_end(s, 42) == 42);
    assert(alpha_end(s, 41) == 42);
    assert(alpha_end(s, 46) == 46);
    assert(alpha_end(s, 45) == 46);
    assert(alpha_end(s, 56) == 56);
    assert(alpha_end(s, 55) == 56);
    assert(alpha_end(s, 54) == 56);
    assert(alpha_end(s, 53) == 56);
    assert(alpha_end(s, 58) == 58);
    assert(alpha_end(s, 57) == 58);
    assert(digit_end(s, 4) == 4);
    assert(digit_end(s, 3) == 4);
}

proof fn lemma_brace_facts()
    ensures
        brace_close(wsl_source(), 14) == 37,
        brace_close(wsl_source(), 47) == 48,
{
    let s = wsl_source();
    let t = wsl_tokens();
    assert(brace_close(s, 37) == 37);
    assert(brace_close(s, 36) == 37);
    assert(brace_close(s, 35) == 37);
    assert(brace_close(s, 34) == 37);
    assert(brace_close(s, 33) == 37);
    assert(brace_close(s, 32) == 37);
    assert(brace_close(s, 31) == 37);
    assert(brace_close(s, 30) == 37);
    assert(brace_close(s, 29) == 37);
    assert(brace_close(s, 28) == 37);
    assert(brace_close(s, 27) == 37);
    assert(brace_close(s, 26) == 37);
    assert(brace_close(s, 25) == 37);
    assert(brace_close(s, 24) == 37);
    assert(brace_close(s, 23) == 37);
    assert(brace_close(s, 22) == 37);
    assert(brace_close(s, 21) == 37);
    assert(brace_close(s, 20) == 37);
    assert(brace_close(s, 19) == 37);
    assert(brace_close(s, 18) == 37);
    assert(brace_close(s, 17) == 37);
    assert(brace_close(s, 16) == 37);
    assert(brace_close(s, 15) == 37);
    assert(brace_close(s, 14) == 37);
    assert(brace_close(s, 48) == 48);
    assert(brace_close(s, 47) == 48);
}

proof fn lemma_width_facts()
    ensures
        spec_width(wsl_source(), 2, 1) == Ok::<(Option<usize>, int), crate::pattern::PatternErrorView>((Some(5usize), 4)),
        spec_width(wsl_source(), 12, 11) == Ok::<(Option<usize>, int), crate::pattern::PatternErrorView>((None, 12)),
        spec_width(wsl_source(), 41, 40) == Ok::<(Option<usize>, int), crate::pattern::PatternErrorView>((None, 41)),
        spec_width(wsl_source(), 45, 44) == Ok::<(Option<usize>, int), crate::pattern::PatternErrorView>((None, 45)),
        spec_width(wsl_source(), 53, 52) == Ok::<(Option<usize>, int), crate::pattern::PatternErrorView>((None, 53)),
        spec_width(wsl_source(), 57, 56) == Ok::<(Option<usize>, int), crate::pattern::PatternErrorView>((None, 57)),
{
    let s = wsl_source();
    let t = wsl_tokens();
    lemma_alpha_facts();
    assert(s.subrange(3, 4) =~= seq![53u8]);
    assert(seq![53u8].drop_last() =~= Seq::<u8>::empty());
    assert(digits_value(Seq::<u8>::empty()) == 0);
    assert(digits_value(seq![53u8]) == 5);
    assert(spec_width(s, 2, 1) == Ok::<(Option<usize>, int), crate::pattern::PatternErrorView>((Some(5usize), 4)));
    assert(spec_width(s, 12, 11) == Ok::<(Option<usize>, int), crate::pattern::PatternErrorView>((None, 12)));
    assert(spec_width(s, 41, 40) == Ok::<(Option<usize>, int), crate::pattern::PatternErrorView>((None, 41)));
    assert(spec_width(s, 45, 44) == Ok::<(Option<usize>, int), crate::pattern::PatternErrorView>((None, 45)));
    assert(spec_width(s, 53, 52) == Ok::<(Option<usize>, int), crate::pattern::PatternErrorView>((None, 53)));
    assert(spec_width(s, 57, 56) == Ok::<(Option<usize>, int), crate::pattern::PatternErrorView>((None, 57)));
}

proof fn lemma_braced_facts()
    ensures
        spec_braced(wsl_source(), 13, 11, false) == Ok::<(Option<Seq<u8>>, int), crate::pattern::PatternErrorView>((Some(wsl_date_format()), 38)),
        spec_braced(wsl_source(), 46, 44, true) == Ok::<(Option<Seq<u8>>, int), crate::pattern::PatternErrorView>((Some(seq![49u8]), 49)),
        spec_parse_u32(seq![49u8]) == Some(1u32),
{
    let s = wsl_source();
    let t = wsl_tokens();
    lemma_brace_facts();
    assert(s.subrange(14, 37) =~= wsl_date_format());
    assert(s.subrange(47, 48) =~= seq![49u8]);
    assert(spec_braced(s, 13, 11, false) == Ok::<(Option<Seq<u8>>, int), crate::pattern::PatternErrorView>((Some(wsl_date_format()), 38)));
    assert(spec_braced(s, 46, 44, true) == Ok::<(Option<Seq<u8>>, int), crate::pattern::PatternErrorView>((Some(seq![49u8]), 49)));
    assert(seq![49u8].drop_last() =~= Seq::<u8>::empty());
    assert(digits_value(Seq::<u8>::empty()) == 0);
    assert(digits_value(seq![49u8]) == 1);
    assert(crate::bytes::all_digits(seq![49u8]));
    assert(spec_parse_u32(seq![49u8]) == Some(1u32));
}

proof fn lemma_name_facts()
    ensures
        wsl_source().subrange(4, 9) =~= lit_level_word(),
        wsl_source().subrange(12, 13) =~= seq![100u8],
        wsl_source().subrange(41, 42) =~= seq![116u8],
        wsl_source().subrange(45, 46) =~= seq![99u8],
        wsl_source().subrange(53, 56) =~= lit_msg(),
        wsl_source().subrange(57, 58) =~= seq![110u8],
{
    let s = wsl_source();
    let t = wsl_tokens();
    assert(s.subrange(4, 9) =~= lit_level_word());
    assert(s.subrange(12, 13) =~= seq![100u8]);
    assert(s.subrange(41, 42) =~= seq![116u8]);
    assert(s.subrange(45, 46) =~= seq![99u8]);
    assert(s.subrange(53, 56) =~= lit_msg());
    assert(s.subrange(57, 58) =~= seq![110u8]);
}

proof fn lemma_step_1()
    ensures
        compile_from(wsl_source(), 1, Seq::<TokenView>::empty(), seq![91u8], Seq::<(Seq<char>, usize)>::empty()) == compile_from(wsl_source(), 9, wsl_tokens().take(2), Seq::<u8>::empty(), Seq::<(Seq<char>, usize)>::empty()),
{
    let s = wsl_source();
    let t = wsl_tokens();
    lemma_alpha_facts();
    lemma_width_facts();
    lemma_braced_facts();
    lemma_name_facts();
    lemma_wsl_date_atoms();
    assert(spec_flush(Seq::<TokenView>::empty(), seq![91u8]).push(TokenView::Level { width: Some(5usize) }) =~= wsl_tokens().take(2));
}

proof fn lemma_step_11()
    ensures
        compile_from(wsl_source(), 11, wsl_tokens().take(2), seq![93u8, 32u8], Seq::<(Seq<char>, usize)>::empty()) == compile_from(wsl_source(), 38, wsl_tokens().take(4), Seq::<u8>::empty(), Seq::<(Seq<char>, usize)>::empty()),
{
    let s = wsl_source();
    let t = wsl_tokens();
    lemma_alpha_facts();
    lemma_width_facts();
    lemma_braced_facts();
    lemma_name_facts();
    lemma_wsl_date_atoms();
    assert(spec_flush(wsl_tokens().take(2), seq![93u8, 32u8]).push(TokenView::Date { raw: utf8_or_empty(wsl_date_format()), atoms: wsl_date_atoms() }) =~= wsl_tokens().take(4));
}

proof fn lemma_step_40()
    ensures
        compile_from(wsl_source(), 40, wsl_tokens().take(4), seq![32u8, 91u8], Seq::<(Seq<char>, usize)>::empty()) == compile_from(wsl_source(), 42, wsl_tokens().take(6), Seq::<u8>::empty(), Seq::<(Seq<char>, usize)>::empty()),
{
    let s = wsl_source();
    let t = wsl_tokens();
    lemma_alpha_facts();
    lemma_width_facts();
    lemma_braced_facts();
    lemma_name_facts();
    lemma_wsl_date_atoms();
    assert(spec_flush(wsl_tokens().take(4), seq![32u8, 91u8]).push(TokenView::Thread) =~= wsl_tokens().take(6));
}

proof fn lemma_step_44()
    ensures
        compile_from(wsl_source(), 44, wsl_tokens().take(6), seq![93u8, 32u8], Seq::<(Seq<char>, usize)>::empty()) == compile_from(wsl_source(), 49, wsl_tokens().take(8), Seq::<u8>::empty(), Seq::<(Seq<char>, usize)>::empty()),
{
    let s = wsl_source();
    let t = wsl_tokens();
    lemma_alpha_facts();
    lemma_width_facts();
    lemma_braced_facts();
    lemma_name_facts();
    lemma_wsl_date_atoms();
    assert(spec_flush(wsl_tokens().take(6), seq![93u8, 32u8]).push(TokenView::Logger { precision: Some(1u32) }) =~= wsl_tokens().take(8));
}

proof fn lemma_step_52()
    ensures
        compile_from(wsl_source(), 52, wsl_tokens().take(8), seq![32u8, 45u8, 32u8], Seq::<(Seq<char>, usize)>::empty()) == compile_from(wsl_source(), 56, wsl_tokens().take(10), Seq::<u8>::empty(), Seq::<(Seq<char>, usize)>::empty()),
{
    let s = wsl_source();
    let t = wsl_tokens();
    lemma_alpha_facts();
    lemma_width_facts();
    lemma_braced_facts();
    lemma_name_facts();
    lemma_wsl_date_atoms();
    assert(spec_flush(wsl_tokens().take(8), seq![32u8, 45u8, 32u8]).push(TokenView::Message) =~= wsl_tokens().take(10));
}

proof fn lemma_step_56()
    ensures
        compile_from(wsl_source(), 56, wsl_tokens().take(10), Seq::<u8>::empty(), Seq::<(Seq<char>, usize)>::empty()) == compile_from(wsl_source(), 58, wsl_tokens().take(11), Seq::<u8>::empty(), Seq::<(Seq<char>, usize)>::empty()),
{
    let s = wsl_source();
    let t = wsl_tokens();
    lemma_alpha_facts();
    lemma_width_facts();
    lemma_braced_facts();
    lemma_name_facts();
    lemma_wsl_date_atoms();
    assert(spec_flush(wsl_tokens().take(10), Seq::<u8>::empty()).push(TokenView::Newline) =~= wsl_tokens().take(11));
}

proof fn lemma_lits_0()
    ensures
        compile_from(wsl_source(), 0, Seq::<TokenView>::empty(), Seq::<u8>::empty(), Seq::<(Seq<char>, usize)>::empty()) == compile_from(wsl_source(), 1, Seq::<TokenView>::empty(), seq![91u8], Seq::<(Seq<char>, usize)>::empty()),
{
    let s = wsl_source();
    let t = wsl_tokens();
    assert(Seq::<u8>::empty().push(91u8) =~= seq![91u8]);
}

proof fn lemma_lits_9()
    ensures
        compile_from(wsl_source(), 9, wsl_tokens().take(2), Seq::<u8>::empty(), Seq::<(Seq<char>, usize)>::empty()) == compile_from(wsl_source(), 10, wsl_tokens().take(2), seq![93u8], Seq::<(Seq<char>, usize)>::empty()),
        compile_from(wsl_source(), 10, wsl_tokens().take(2), seq![93u8], Seq::<(Seq<char>, usize)>::empty()) == compile_from(wsl_source(), 11, wsl_tokens().take(2), seq![93u8, 32u8], Seq::<(Seq<char>, usize)>::empty()),
{
    let s = wsl_source();
    let t = wsl_tokens();
    assert(Seq::<u8>::empty().push(93u8) =~= seq![93u8]);
    assert(seq![93u8].push(32u8) =~= seq![93u8, 32u8]);
}

proof fn lemma_lits_38()
    ensures
        compile_from(wsl_source(), 38, wsl_tokens().take(4), Seq::<u8>::empty(), Seq::<(Seq<char>, usize)>::empty()) == compile_from(wsl_source(), 39, wsl_tokens().take(4), seq![32u8], Seq::<(Seq<char>, usize)>::empty()),
        compile_from(wsl_source(), 39, wsl_tokens().take(4), seq![32u8], Seq::<(Seq<char>, usize)>::empty()) == compile_from(wsl_source(), 40, wsl_tokens().take(4), seq![32u8, 91u8], Seq::<(Seq<char>, usize)>::empty()),
{
    let s = wsl_source();
    let t = wsl_tokens();
    assert(Seq::<u8>::empty().push(32u8) =~= seq![32u8]);
    assert(seq![32u8].push(91u8) =~= seq![32u8, 91u8]);
}

proof fn lemma_lits_42()
    ensures
        compile_from(wsl_source(), 42, wsl_tokens().take(6), Seq::<u8>::empty(), Seq::<(Seq<char>, usize)>::empty()) == compile_from(wsl_source(), 43, wsl_tokens().take(6), seq![93u8], Seq::<(Seq<char>, usize)>::empty()),
        compile_from(wsl_source(), 43, wsl_tokens().take(6), seq![93u8], Seq::<(Seq<char>, usize)>::empty()) == compile_from(wsl_source(), 44, wsl_tokens().take(6), seq![93u8, 32u8], Seq::<(Seq<char>, usize)>::empty()),
{
    let s = wsl_source();
    let t = wsl_tokens();
    assert(Seq::<u8>::empty().push(93u8) =~= seq![93u8]);
    assert(seq![93u8].push(32u8) =~= seq![93u8, 32u8]);
}

proof fn lemma_lits_49()
    ensures
        compile_from(wsl_source(), 49, wsl_tokens().take(8), Seq::<u8>::empty(), Seq::<(Seq<char>, usize)>::empty()) == compile_from(wsl_source(), 50, wsl_tokens().take(8), seq![32u8], Seq::<(Seq<char>, usize)>::empty()),
        compile_from(wsl_source(), 50, wsl_tokens().take(8), seq![32u8], Seq::<(Seq<char>, usize)>::empty()) == compile_from(wsl_source(), 51, wsl_tokens().take(8), seq![32u8, 45u8], Seq::<(Seq<char>, usize)>::empty()),
        compile_from(wsl_source(), 51, wsl_tokens().take(8), seq![32u8, 45u8], Seq::<(Seq<char>, usize)>::empty()) == compile_from(wsl_source(), 52, wsl_tokens().take(8), seq![32u8, 45u8, 32u8], Seq::<(Seq<char>, usize)>::empty()),
{
    let s = wsl_source();
    let t = wsl_tokens();
    assert(Seq::<u8>::empty().push(32u8) =~= seq![32u8]);
    assert(seq![32u8].push(45u8) =~= seq![32u8, 45u8]);
    assert(seq![32u8, 45u8].push(32u8) =~= seq![32u8, 45u8, 32u8]);
}

proof fn lemma_wsl_validates()
    ensures
        validate_from(wsl_tokens(), 0) is Ok,
{
    let s = wsl_source();
    let t = wsl_tokens();
    assert(validate_from(t, 11) is Ok);
    assert(validate_from(t, 10) is Ok);
    assert(validate_from(t, 9) is Ok);
    assert(validate_from(t, 8) is Ok);
    assert(validate_from(t, 7) is Ok);
    assert(validate_from(t, 6) is Ok);
    assert(validate_from(t, 5) is Ok);
    assert(validate_from(t, 4) is Ok);
    assert(validate_from(t, 3) is Ok);
    assert(validate_from(t, 2) is Ok);
    assert(validate_from(t, 1) is Ok);
    assert(validate_from(t, 0) is Ok);
}

/// The layout compiles to `wsl_tokens()`, with no warning.
pub proof fn lemma_wsl_compiles()
    ensures
        spec_compile(wsl_source()) == Ok::<(Seq<TokenView>, Seq<(Seq<char>, usize)>), crate::pattern::PatternErrorView>((wsl_tokens(), Seq::empty())),
{
    let t = wsl_tokens();
    lemma_lits_0();
    lemma_step_1();
    lemma_lits_9();
    lemma_step_11();
    lemma_lits_38();
    lemma_step_40();
    lemma_lits_42();
    lemma_step_44();
    lemma_lits_49();
    lemma_step_52();
    lemma_step_56();
    lemma_wsl_validates();
    assert(t.take(11) =~= t);
    assert(spec_flush(t, Seq::<u8>::empty()) == t);
}


/// The padded level keyword the layout writes for `lv`.
pub open spec fn wsl_level_word(lv: Level) -> Seq<u8> {
    match lv {
        Level::Trace => seq![84u8, 82u8, 65u8, 67u8, 69u8],
        Level::Debug => seq![68u8, 69u8, 66u8, 85u8, 71u8],
        Level::Info => seq![73u8, 78u8, 70u8, 79u8, 32u8],
        Level::Warn => seq![87u8, 65u8, 82u8, 78u8, 32u8],
        Level::Error => seq![69u8, 82u8, 82u8, 79u8, 82u8],
        _ => seq![70u8, 65u8, 84u8, 65u8, 76u8],
    }
}

/// The timestamp the rendered lines carry.
pub open spec fn wsl_date() -> Seq<u8> {
    seq![50u8, 48u8, 50u8, 54u8, 45u8, 48u8, 53u8, 45u8, 50u8, 50u8, 32u8, 49u8, 54u8, 58u8, 50u8, 56u8, 58u8, 53u8, 57u8, 46u8, 50u8, 52u8, 54u8]
}

/// A line the layout renders: `[LEVEL] 2026-05-22 16:28:59.246 [thread]
/// logger - message`.
pub open spec fn wsl_line(lv: Level, thread: Seq<u8>, logger: Seq<u8>, msg: Seq<u8>) -> Seq<u8> {
    seq![91u8] + wsl_level_word(lv) + seq![93u8, 32u8] + wsl_date() + seq![32u8, 91u8] + thread + seq![93u8, 32u8]
        + logger + seq![32u8, 45u8, 32u8] + msg
}

/// The six levels the layout renders.
pub open spec fn rendered_level(lv: Level) -> bool {
    lv == Level::Trace || lv == Level::Debug || lv == Level::Info || lv == Level::Warn || lv == Level::Error
        || lv == Level::Fatal
}

proof fn lemma_level_word(lv: Level, rest: Seq<u8>)
    requires
        rendered_level(lv),
    ensures
        spec_parse_level(wsl_level_word(lv) + rest, Some(5usize)) == Some((lv, 5int)),
{
    let w = wsl_level_word(lv);
    let raw = (w + rest).take(5);
    assert(raw =~= w);
    if lv == Level::Info || lv == Level::Warn {
        assert(space_trim_end(raw, 4) == 4);
        assert(space_trim_end(raw, 5) == 4);
        if lv == Level::Info {
            assert(raw.take(4) =~= crate::pattern::lit_info());
        } else {
            assert(raw.take(4) =~= crate::pattern::lit_warn());
            assert(raw.take(4) != crate::pattern::lit_info());
        }
    } else {
        assert(space_trim_end(raw, 5) == 5);
        assert(raw.take(5) =~= w);
        if lv == Level::Trace {
            assert(w =~= crate::record::lit_trace());
        } else if lv == Level::Debug {
            assert(w =~= crate::record::lit_debug());
            assert(w != crate::record::lit_trace());
        } else if lv == Level::Error {
            assert(w =~= crate::record::lit_error());
            assert(w != crate::record::lit_trace());
            assert(w != crate::record::lit_debug());
            assert(w != crate::pattern::lit_info());
            assert(w != crate::pattern::lit_warn());
        } else {
            assert(w =~= crate::record::lit_fatal());
            assert(w != crate::record::lit_trace());
            assert(w != crate::record::lit_debug());
            assert(w != crate::pattern::lit_info());
            assert(w != crate::pattern::lit_warn());
            assert(w != crate::record::lit_error());
        }
    }
}

proof fn lemma_date_matches(rest: Seq<u8>)
    ensures
        spec_match_at(wsl_date_atoms(), wsl_date() + rest) == Some(23int),
{
    let a = wsl_date_atoms();
    let d = wsl_date() + rest;
    assert(crate::pattern::atom_matches(a[0], d[0]));
    assert(crate::pattern::atom_matches(a[1], d[1]));
    assert(crate::pattern::atom_matches(a[2], d[2]));
    assert(crate::pattern::atom_matches(a[3], d[3]));
    assert(crate::pattern::atom_matches(a[4], d[4]));
    assert(crate::pattern::atom_matches(a[5], d[5]));
    assert(crate::pattern::atom_matches(a[6], d[6]));
    assert(crate::pattern::atom_matches(a[7], d[7]));
    assert(crate::pattern::atom_matches(a[8], d[8]));
    assert(crate::pattern::atom_matches(a[9], d[9]));
    assert(crate::pattern::atom_matches(a[10], d[10]));
    assert(crate::pattern::atom_matches(a[11], d[11]));
    assert(crate::pattern::atom_matches(a[12], d[12]));
    assert(crate::pattern::atom_matches(a[13], d[13]));
    assert(crate::pattern::atom_matches(a[14], d[14]));
    assert(crate::pattern::atom_matches(a[15], d[15]));
    assert(crate::pattern::atom_matches(a[16], d[16]));
    assert(crate::pattern::atom_matches(a[17], d[17]));
    assert(crate::pattern::atom_matches(a[18], d[18]));
    assert(crate::pattern::atom_matches(a[19], d[19]));
    assert(crate::pattern::atom_matches(a[20], d[20]));
    assert(crate::pattern::atom_matches(a[21], d[21]));
    assert(crate::pattern::atom_matches(a[22], d[22]));
    assert(forall|i: int| 0 <= i < a.len() ==> #[trigger] crate::pattern::atom_matches(a[i], d[i]));
}

proof fn lemma_first_occurrence(buf: Seq<u8>, needle: Seq<u8>, i: int, q: int)
    requires
        1 <= i <= q,
        needle.len() > 0,
        q + needle.len() <= buf.len(),
        buf.subrange(q, q + needle.len()) == needle,
        forall|p: int| i <= p < q ==> #[trigger] buf[p] != needle[0],
    ensures
        first_occurrence_from(buf, needle, i) == Some(q),
    decreases q - i,
{
    if i < q {
        assert(buf.subrange(i, i + needle.len())[0] == buf[i]);
        lemma_first_occurrence(buf, needle, i + 1, q);
    }
}


proof fn lemma_next_literals()
    ensures
        crate::pattern::next_literal(wsl_tokens(), 6) == Some(seq![93u8, 32u8]),
        crate::pattern::next_literal(wsl_tokens(), 8) == Some(seq![32u8, 45u8, 32u8]),
        crate::pattern::ends_with_message_upto(wsl_tokens(), 11),
{
    let t = wsl_tokens();
    assert(crate::pattern::ends_with_message_upto(t, 10));
}

pub open spec fn wsl_tail_l(msg: Seq<u8>) -> Seq<u8> {
    seq![32u8, 45u8, 32u8] + msg
}

pub open spec fn wsl_tail_t(logger: Seq<u8>, msg: Seq<u8>) -> Seq<u8> {
    seq![93u8, 32u8] + logger + wsl_tail_l(msg)
}

pub open spec fn wsl_tail_d(thread: Seq<u8>, logger: Seq<u8>, msg: Seq<u8>) -> Seq<u8> {
    seq![32u8, 91u8] + thread + wsl_tail_t(logger, msg)
}

proof fn lemma_line_shape(lv: Level, thread: Seq<u8>, logger: Seq<u8>, msg: Seq<u8>)
    ensures
        ({
            let line = wsl_line(lv, thread, logger, msg);
            let a = thread.len() as int;
            let c = logger.len() as int;
            &&& line.len() == 38 + a + c + msg.len()
            &&& line.subrange(0, 1) == seq![91u8]
            &&& line.skip(1) == wsl_level_word(lv) + (seq![93u8, 32u8] + wsl_date() + wsl_tail_d(thread, logger, msg))
            &&& line.subrange(6, 8) == seq![93u8, 32u8]
            &&& line.skip(8) == wsl_date() + wsl_tail_d(thread, logger, msg)
            &&& line.subrange(31, 33) == seq![32u8, 91u8]
            &&& line.skip(33) == thread + wsl_tail_t(logger, msg)
            &&& line.subrange(33 + a, 35 + a) == seq![93u8, 32u8]
            &&& line.skip(35 + a) == logger + wsl_tail_l(msg)
            &&& line.subrange(35 + a + c, 38 + a + c) == seq![32u8, 45u8, 32u8]
        }),
{
    let line = wsl_line(lv, thread, logger, msg);
    let a = thread.len() as int;
    let c = logger.len() as int;
    let w = wsl_level_word(lv);
    assert(w.len() == 5);
    let tl = wsl_tail_l(msg);
    let tt = wsl_tail_t(logger, msg);
    let td = wsl_tail_d(thread, logger, msg);
    assert(line =~= seq![91u8] + w + seq![93u8, 32u8] + wsl_date() + td);
    assert(line.subrange(0, 1) =~= seq![91u8]);
    assert(line.skip(1) =~= w + (seq![93u8, 32u8] + wsl_date() + td));
    assert(line.subrange(6, 8) =~= seq![93u8, 32u8]);
    assert(line.skip(8) =~= wsl_date() + td);
    assert(line.subrange(31, 33) =~= seq![32u8, 91u8]);
    assert(line.skip(33) =~= thread + tt);
    let bt = line.skip(33);
    assert(line.subrange(33 + a, 35 + a) =~= bt.subrange(a, a + 2));
    assert(bt.subrange(a, a + 2) =~= seq![93u8, 32u8]);
    assert(line.skip(35 + a) =~= bt.skip(a + 2));
    assert(bt.skip(a + 2) =~= logger + tl);
    let bl = line.skip(35 + a);
    assert(line.subrange(35 + a + c, 38 + a + c) =~= bl.subrange(c, c + 3));
    assert(bl.subrange(c, c + 3) =~= seq![32u8, 45u8, 32u8]);
}

proof fn lemma_field_reads(thread: Seq<u8>, logger: Seq<u8>, msg: Seq<u8>)
    requires
        thread.len() > 0,
        forall|k: int| 0 <= k < thread.len() ==> #[trigger] thread[k] != 93,
        logger.len() > 0,
        forall|k: int| 0 <= k < logger.len() ==> #[trigger] logger[k] != 32,
    ensures
        crate::pattern::spec_read_until(thread + wsl_tail_t(logger, msg), Some(seq![93u8, 32u8])) == Some(
            thread.len() as int,
        ),
        crate::pattern::spec_read_until(logger + wsl_tail_l(msg), Some(seq![32u8, 45u8, 32u8])) == Some(
            logger.len() as int,
        ),
{
    let a = thread.len() as int;
    let c = logger.len() as int;
    let bt = thread + wsl_tail_t(logger, msg);
    assert(bt.subrange(a, a + 2) =~= seq![93u8, 32u8]);
    assert forall|p: int| 1 <= p < a implies #[trigger] bt[p] != seq![93u8, 32u8][0] by {
        assert(bt[p] == thread[p]);
    }
    lemma_first_occurrence(bt, seq![93u8, 32u8], 1, a);
    let bl = logger + wsl_tail_l(msg);
    assert(bl.subrange(c, c + 3) =~= seq![32u8, 45u8, 32u8]);
    assert forall|p: int| 1 <= p < c implies #[trigger] bl[p] != seq![32u8, 45u8, 32u8][0] by {
        assert(bl[p] == logger[p]);
    }
    lemma_first_occurrence(bl, seq![32u8, 45u8, 32u8], 1, c);
}

proof fn lemma_lit_step(t: Seq<TokenView>, line: Seq<u8>, idx: int, cur: int, f: HeaderFields, lv: Option<Level>, b: Seq<u8>)
    requires
        0 <= idx < t.len(),
        t[idx] == TokenView::Literal(b),
        0 <= cur,
        cur + b.len() <= line.len(),
        line.subrange(cur, cur + b.len()) == b,
    ensures
        parse_from(t, line, idx, cur, f, lv) == parse_from(t, line, idx + 1, cur + b.len(), f, lv),
{
}

proof fn lemma_level_step(t: Seq<TokenView>, line: Seq<u8>, idx: int, cur: int, f: HeaderFields, lv: Option<Level>, l: Level, m: int)
    requires
        0 <= idx < t.len(),
        t[idx] == (TokenView::Level { width: Some(5usize) }),
        spec_parse_level(line.skip(cur), Some(5usize)) == Some((l, m)),
    ensures
        parse_from(t, line, idx, cur, f, lv) == parse_from(
            t,
            line,
            idx + 1,
            cur + m,
            HeaderFields { level: Some((sat_u32(cur), sat_u32(cur + m))), ..f },
            Some(l),
        ),
{
}

proof fn lemma_date_step(t: Seq<TokenView>, line: Seq<u8>, idx: int, cur: int, f: HeaderFields, lv: Option<Level>)
    requires
        0 <= idx < t.len(),
        t[idx] == (TokenView::Date { raw: utf8_or_empty(wsl_date_format()), atoms: wsl_date_atoms() }),
        spec_match_at(wsl_date_atoms(), line.skip(cur)) == Some(23int),
    ensures
        parse_from(t, line, idx, cur, f, lv) == parse_from(
            t,
            line,
            idx + 1,
            cur + 23,
            HeaderFields { timestamp: Some((sat_u32(cur), sat_u32(cur + 23))), ..f },
            lv,
        ),
{
}

proof fn lemma_thread_step(t: Seq<TokenView>, line: Seq<u8>, idx: int, cur: int, f: HeaderFields, lv: Option<Level>, m: int)
    requires
        0 <= idx < t.len(),
        t[idx] == TokenView::Thread,
        crate::pattern::spec_read_until(line.skip(cur), crate::pattern::next_literal(t, idx + 1)) == Some(m),
    ensures
        parse_from(t, line, idx, cur, f, lv) == parse_from(
            t,
            line,
            idx + 1,
            cur + m,
            HeaderFields { thread: Some((sat_u32(cur), sat_u32(cur + m))), ..f },
            lv,
        ),
{
}

proof fn lemma_logger_step(t: Seq<TokenView>, line: Seq<u8>, idx: int, cur: int, f: HeaderFields, lv: Option<Level>, m: int)
    requires
        0 <= idx < t.len(),
        t[idx] == (TokenView::Logger { precision: Some(1u32) }),
        crate::pattern::spec_read_until(line.skip(cur), crate::pattern::next_literal(t, idx + 1)) == Some(m),
    ensures
        parse_from(t, line, idx, cur, f, lv) == parse_from(
            t,
            line,
            idx + 1,
            cur + m,
            HeaderFields { logger: Some((sat_u32(cur), sat_u32(cur + m))), ..f },
            lv,
        ),
{
}

proof fn lemma_tail_steps(t: Seq<TokenView>, line: Seq<u8>, cur: int, f: HeaderFields, l: Level)
    requires
        t == wsl_tokens(),
    ensures
        parse_from(t, line, 9, cur, f, Some(l)) == Some(
            ParsedHeader {
                level: l,
                fields: HeaderFields { message: Some((sat_u32(cur), sat_u32(line.len() as int))), ..f },
            },
        ),
{
    lemma_next_literals();
    let f5 = HeaderFields { message: Some((sat_u32(cur), sat_u32(line.len() as int))), ..f };
    let n = line.len() as int;
    assert(parse_from(t, line, 11, n, f5, Some(l)) == Some(ParsedHeader { level: l, fields: f5 }));
    assert(parse_from(t, line, 10, n, f5, Some(l)) == parse_from(t, line, 11, n, f5, Some(l)));
}

proof fn lemma_chain(line: Seq<u8>, lv: Level, a: int, c: int)
    requires
        a > 0,
        c > 0,
        line.len() >= 38 + a + c,
        line.subrange(0, 1) == seq![91u8],
        spec_parse_level(line.skip(1), Some(5usize)) == Some((lv, 5int)),
        line.subrange(6, 8) == seq![93u8, 32u8],
        spec_match_at(wsl_date_atoms(), line.skip(8)) == Some(23int),
        line.subrange(31, 33) == seq![32u8, 91u8],
        crate::pattern::spec_read_until(line.skip(33), Some(seq![93u8, 32u8])) == Some(a),
        line.subrange(33 + a, 35 + a) == seq![93u8, 32u8],
        crate::pattern::spec_read_until(line.skip(35 + a), Some(seq![32u8, 45u8, 32u8])) == Some(c),
        line.subrange(35 + a + c, 38 + a + c) == seq![32u8, 45u8, 32u8],
    ensures
        spec_try_parse_header(wsl_tokens(), line) matches Some(h) && h.level == lv,
{
    lemma_next_literals();
    let t = wsl_tokens();
    let f0 = HeaderFields::spec_empty();
    let f1 = HeaderFields { level: Some((sat_u32(1), sat_u32(6))), ..f0 };
    let f2 = HeaderFields { timestamp: Some((sat_u32(8), sat_u32(31))), ..f1 };
    let f3 = HeaderFields { thread: Some((sat_u32(33), sat_u32(33 + a))), ..f2 };
    let f4 = HeaderFields { logger: Some((sat_u32(35 + a), sat_u32(35 + a + c))), ..f3 };
    lemma_lit_step(t, line, 0, 0, f0, None, seq![91u8]);
    lemma_level_step(t, line, 1, 1, f0, None, lv, 5);
    lemma_lit_step(t, line, 2, 6, f1, Some(lv), seq![93u8, 32u8]);
    lemma_date_step(t, line, 3, 8, f1, Some(lv));
    lemma_lit_step(t, line, 4, 31, f2, Some(lv), seq![32u8, 91u8]);
    lemma_thread_step(t, line, 5, 33, f2, Some(lv), a);
    lemma_lit_step(t, line, 6, 33 + a, f3, Some(lv), seq![93u8, 32u8]);
    lemma_logger_step(t, line, 7, 35 + a, f3, Some(lv), c);
    lemma_lit_step(t, line, 8, 35 + a + c, f4, Some(lv), seq![32u8, 45u8, 32u8]);
    lemma_tail_steps(t, line, 38 + a + c, f4, lv);
}

proof fn lemma_wsl_parse(lv: Level, thread: Seq<u8>, logger: Seq<u8>, msg: Seq<u8>)
    requires
        rendered_level(lv),
        thread.len() > 0,
        forall|k: int| 0 <= k < thread.len() ==> #[trigger] thread[k] != 93,
        logger.len() > 0,
        forall|k: int| 0 <= k < logger.len() ==> #[trigger] logger[k] != 32,
    ensures
        spec_try_parse_header(wsl_tokens(), wsl_line(lv, thread, logger, msg)) matches Some(h) && h.level == lv,
{
    lemma_line_shape(lv, thread, logger, msg);
    lemma_field_reads(thread, logger, msg);
    lemma_level_word(lv, seq![93u8, 32u8] + wsl_date() + wsl_tail_d(thread, logger, msg));
    lemma_date_matches(wsl_tail_d(thread, logger, msg));
    lemma_chain(wsl_line(lv, thread, logger, msg), lv, thread.len() as int, logger.len() as int);
}

/// Every line the first built-in layout renders, for any of the six levels
/// it writes, a thread name without `]`, a logger name without a space and
/// any message, parses as a header with that level.
pub proof fn law_wsl_line_parses(lv: Level, thread: Seq<u8>, logger: Seq<u8>, msg: Seq<u8>)
    requires
        rendered_level(lv),
        thread.len() > 0,
        forall|k: int| 0 <= k < thread.len() ==> #[trigger] thread[k] != 93,
        logger.len() > 0,
        forall|k: int| 0 <= k < logger.len() ==> #[trigger] logger[k] != 32,
    ensures
        spec_compile(encode_utf8(spec_builtin_patterns()[0].1)) matches Ok((toks, _)) && spec_try_parse_header(
            toks,
            wsl_line(lv, thread, logger, msg),
        ) matches Some(h) && h.level == lv,
{
    lemma_builtin_source();
    lemma_wsl_compiles();
    lemma_wsl_parse(lv, thread, logger, msg);
}

/// The first built-in pattern's source, as bytes, is the layout's.
proof fn lemma_builtin_source()
    ensures
        encode_utf8(spec_builtin_patterns()[0].1) == wsl_source(),
{
    reveal_strlit("[%-5level] %d{yyyy-MM-dd HH:mm:ss.SSS} [%t] %c{1} - %msg%n");
    let cs = spec_builtin_patterns()[0].1;
    assert(is_ascii_chars(cs));
    is_ascii_chars_encode_utf8(cs);
    assert(encode_utf8(cs) =~= wsl_source());
}

} // verus!
