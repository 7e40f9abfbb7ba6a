//! The lexer: source text to a flat token stream with per-token lines.
//!
//! Whitespace and line breaks are skipped (there are no newline tokens).
//! Numeric and string literals are resolved here; templates keep their
//! interpolations as pre-lexed sub-streams.

use super::token::{ends_postfix, TemplateElem, Token, TokenKind};
use crate::bignum::{all_digits, big_from_radix_digits, digit_of, digits_value};
use crate::rational::{dec_run, decimal_literal, is_dec, lemma_dec_run, same_value, Rational};
use crate::text::{
    char_from_u32, char_utf16, code_utf16, is_alphabetic, is_alphanumeric, is_whitespace, push_utf16,
    string_from_chars, string_of, string_push, alphabetic, alphanumeric,
    unicode_whitespace,
};
use vstd::prelude::*;

verus! {

/// A lexical error with the offending source line.
#[derive(Clone, Debug, PartialEq, Eq)]
pub struct LexError {
    pub message: String,
    pub line: u32,
}

/// Where a token-producing loop stops.
enum StopAt {
    /// Consume until end of input.
    Eof,
    /// Consume until the `}` that closes a template interpolation (brace depth
    /// 0); that brace is consumed but not emitted.
    InterpClose,
}

/// `t` occurs in `src` at `pos`.
pub open spec fn occurs_at(src: Seq<char>, pos: int, t: Seq<char>) -> bool {
    0 <= pos && pos + t.len() <= src.len() && src.subrange(pos, pos + t.len()) == t
}

/// The multi-character operators, longest forms first.
pub open spec fn op_table() -> Seq<(Seq<char>, TokenKind)> {
    seq![
        ("..."@, TokenKind::DotDotDot),
        ("=>"@, TokenKind::FatArrow),
        ("=="@, TokenKind::EqEq),
        ("!="@, TokenKind::BangEq),
        ("<|"@, TokenKind::LtPipe),
        ("<="@, TokenKind::Le),
        (">="@, TokenKind::Ge),
        ("::"@, TokenKind::ColonColon),
        (":="@, TokenKind::ColonEq),
        ("**:="@, TokenKind::StarStarEq),
        ("&&:="@, TokenKind::AmpAmpEq),
        ("||:="@, TokenKind::PipePipeEq),
        ("??:="@, TokenKind::QuestionQuestionEq),
        ("+:="@, TokenKind::PlusEq),
        ("-:="@, TokenKind::MinusEq),
        ("*:="@, TokenKind::StarEq),
        ("/:="@, TokenKind::SlashEq),
        ("%:="@, TokenKind::PercentEq),
        ("**"@, TokenKind::StarStar),
        ("&&"@, TokenKind::AmpAmp),
        ("||"@, TokenKind::PipePipe),
        ("|>"@, TokenKind::PipeGt),
        ("??"@, TokenKind::QuestionQuestion),
    ]
}

/// The first multi-character operator at `pos`, searching the table from `i`.
pub open spec fn first_op(src: Seq<char>, pos: int, i: int) -> Option<int>
    decreases op_table().len() - i,
{
    if i < 0 || i >= op_table().len() {
        None
    } else if occurs_at(src, pos, op_table()[i].0) {
        Some(i)
    } else {
        first_op(src, pos, i + 1)
    }
}

/// The single-character punctuation and operators.
pub open spec fn single_char(c: char) -> Option<TokenKind> {
    if c == '(' { Some(TokenKind::LParen) }
    else if c == ')' { Some(TokenKind::RParen) }
    else if c == '[' { Some(TokenKind::LBracket) }
    else if c == ']' { Some(TokenKind::RBracket) }
    else if c == '{' { Some(TokenKind::LBrace) }
    else if c == '}' { Some(TokenKind::RBrace) }
    else if c == ',' { Some(TokenKind::Comma) }
    else if c == '#' { Some(TokenKind::Hash) }
    else if c == '?' { Some(TokenKind::Question) }
    else if c == ':' { Some(TokenKind::Colon) }
    else if c == '<' { Some(TokenKind::Lt) }
    else if c == '>' { Some(TokenKind::Gt) }
    else if c == '+' { Some(TokenKind::Plus) }
    else if c == '-' { Some(TokenKind::Minus) }
    else if c == '*' { Some(TokenKind::Star) }
    else if c == '/' { Some(TokenKind::Slash) }
    else if c == '%' { Some(TokenKind::Percent) }
    else if c == '!' { Some(TokenKind::Bang) }
    else if c == '~' { Some(TokenKind::Tilde) }
    else if c == '=' { Some(TokenKind::Eq) }
    else if c == '@' { Some(TokenKind::At) }
    else if c == '^' { Some(TokenKind::Caret) }
    else if c == '|' { Some(TokenKind::Pipe) }
    else { None }
}

/// The units a one-character escape (after `\`) denotes.
pub open spec fn simple_escape(c: char) -> Option<u16> {
    if c == 'n' { Some(10u16) }
    else if c == 't' { Some(9u16) }
    else if c == 'r' { Some(13u16) }
    else if c == '0' { Some(0u16) }
    else if c == 'b' { Some(8u16) }
    else if c == 'f' { Some(12u16) }
    else if c == 'v' { Some(11u16) }
    else if c == '\\' { Some(92u16) }
    else if c == '"' { Some(34u16) }
    else if c == '\'' { Some(39u16) }
    else { None }
}

/// Where the first `}` at or after `i` stands, or the end of `s`.
pub open spec fn close_brace(s: Seq<char>, i: int) -> int
    decreases s.len() - i,
{
    if i < 0 || i >= s.len() || s[i] == '}' {
        i
    } else {
        close_brace(s, i + 1)
    }
}

/// The value of the `n` hexadecimal digits at `i`, when they are there.
pub open spec fn hex_run(s: Seq<char>, i: int, n: int) -> Option<u16> {
    if 0 <= i && i + n <= s.len() && all_digits(s.subrange(i, i + n), 16) {
        Some(digits_value(s.subrange(i, i + n), 16) as u16)
    } else {
        None
    }
}

/// The escape after a backslash, at `p`: the UTF-16 units it denotes and
/// where it ends, or `None` when it is malformed.
pub open spec fn escape_at(s: Seq<char>, p: int) -> Option<(Seq<u16>, int)> {
    if p < 0 || p >= s.len() {
        None
    } else if simple_escape(s[p]) is Some {
        Some((seq![simple_escape(s[p])->0], p + 1))
    } else if s[p] == 'x' {
        match hex_run(s, p + 1, 2) {
            Some(u) => Some((seq![u], p + 3)),
            None => None,
        }
    } else if s[p] == 'u' && p + 1 < s.len() && s[p + 1] == '{' {
        let c = close_brace(s, p + 2);
        if c < s.len() {
            match hex_u32(s.subrange(p + 2, c)) {
                Some(cp) => if cp < 0xD800 || (0xE000 <= cp && cp <= 0x10FFFF) {
                    Some((code_utf16(cp as nat), c + 1))
                } else {
                    None
                },
                None => None,
            }
        } else {
            None
        }
    } else if s[p] == 'u' {
        match hex_run(s, p + 1, 4) {
            Some(u) => Some((seq![u], p + 5)),
            None => None,
        }
    } else {
        None
    }
}

/// The character a simple backslash escape names: `\n`, `\t`, `\r`,
/// `\0`, `\\`, `\"` and `\'` what they name in Rust, and `\b`, `\f`,
/// `\v` backspace, form feed and vertical tab.
pub open spec fn escape_names(c: char, meant: char) -> bool {
    ||| c == 'n' && meant == '\n'
    ||| c == 't' && meant == '\t'
    ||| c == 'r' && meant == '\r'
    ||| c == '0' && meant == '\0'
    ||| c == '\\' && meant == '\\'
    ||| c == '"' && meant == '"'
    ||| c == '\'' && meant == '\''
    ||| c == 'b' && meant == '\x08'
    ||| c == 'f' && meant == '\x0C'
    ||| c == 'v' && meant == '\x0B'
}

/// Each simple escape denotes the one character it names, in
/// string literals and template segments alike: the escape at `p` gives that
/// character's UTF-16 unit and ends after the escape letter, so a string body
/// starting with it starts with that unit.
pub proof fn lemma_escapes_name_their_character(s: Seq<char>, p: int, meant: char)
    requires
        0 <= p,
        p + 1 < s.len(),
        s[p] == '\\',
        escape_names(s[p + 1], meant),
    ensures
        escape_at(s, p + 1) == Some((char_utf16(meant), p + 2)),
        string_body(s, p) == prepend_units(char_utf16(meant), string_body(s, p + 2)),
{
    assert('\n' as nat == 10 && '\t' as nat == 9 && '\r' as nat == 13 && '\0' as nat == 0);
    assert('\\' as nat == 92 && '"' as nat == 34 && '\'' as nat == 39);
    assert('\x08' as nat == 8 && '\x0C' as nat == 12 && '\x0B' as nat == 11);
    assert(char_utf16(meant) == seq![simple_escape(s[p + 1])->0]);
}

/// `o` with the units `u` in front.
pub open spec fn prepend_units(u: Seq<u16>, o: Option<(Seq<u16>, int)>) -> Option<(Seq<u16>, int)> {
    match o {
        Some((v, e)) => Some((u + v, e)),
        None => None,
    }
}

/// The body of a string literal from `p` (after the opening quote): the
/// UTF-16 units it denotes and where it ends (after the closing quote), or
/// `None` when it is unterminated, spans a line, or holds a bad escape.
pub open spec fn string_body(s: Seq<char>, p: int) -> Option<(Seq<u16>, int)>
    decreases s.len() - p,
{
    if p < 0 || p >= s.len() {
        None
    } else if s[p] == '"' {
        Some((seq![], p + 1))
    } else if s[p] == '\n' {
        None
    } else if s[p] == '\\' {
        match escape_at(s, p + 1) {
            Some((u, e)) => if e > p {
                prepend_units(u, string_body(s, e))
            } else {
                None
            },
            None => None,
        }
    } else {
        prepend_units(char_utf16(s[p]), string_body(s, p + 1))
    }
}

/// The value `u32::from_str_radix(s, 16)` yields: an optional `+`, then
/// hexadecimal digits whose value fits a `u32`.
pub open spec fn hex_u32(s: Seq<char>) -> Option<u32> {
    let d = if s.len() > 0 && s[0] == '+' { s.drop_first() } else { s };
    if d.len() == 0 || !all_digits(d, 16) || digits_value(d, 16) > u32::MAX {
        None
    } else {
        Some(digits_value(d, 16) as u32)
    }
}

/// Identifier start: alphabetic, never `_` or `$`.
pub open spec fn ident_start(c: char) -> bool {
    c != '_' && c != '$' && alphabetic(c)
}

/// Identifier continuation: alphanumeric, never `_` or `$`.
pub open spec fn ident_continue(c: char) -> bool {
    c != '_' && c != '$' && alphanumeric(c)
}

/// Trivia at `pos`: whitespace, or the start of a line or block comment.
pub open spec fn trivia_at(src: Seq<char>, pos: int) -> bool {
    0 <= pos < src.len() && (unicode_whitespace(src[pos]) || (src[pos] == '/' && pos + 1
        < src.len() && (src[pos + 1] == '/' || src[pos + 1] == '*')))
}

/// The number of line breaks in `s`.
pub open spec fn newlines(s: Seq<char>) -> nat
    decreases s.len(),
{
    if s.len() == 0 {
        0
    } else {
        newlines(s.drop_last()) + if s.last() == '\n' { 1nat } else { 0nat }
    }
}

proof fn lemma_newlines_step(s: Seq<char>, p: int)
    requires
        0 <= p < s.len(),
    ensures
        newlines(s.subrange(0, p + 1)) == newlines(s.subrange(0, p)) + if s[p] == '\n' { 1nat } else { 0nat },
{
    assert(s.subrange(0, p + 1).drop_last() == s.subrange(0, p));
}

proof fn lemma_newlines_bounded(s: Seq<char>)
    ensures
        newlines(s) <= s.len(),
    decreases s.len(),
{
    if s.len() > 0 {
        lemma_newlines_bounded(s.drop_last());
    }
}

proof fn lemma_newlines_mono(s: Seq<char>, a: int, b: int)
    requires
        0 <= a <= b <= s.len(),
    ensures
        newlines(s.subrange(0, a)) <= newlines(s.subrange(0, b)),
    decreases b - a,
{
    if a < b {
        lemma_newlines_mono(s, a, b - 1);
        lemma_newlines_step(s, b - 1);
    }
}

/// The operator `k` read at `p`, ending at `e`: the longest entry of the
/// operator table, then the `?.` rule, then a single character.
pub open spec fn operator_read(s: Seq<char>, p: int, e: int, k: TokenKind) -> bool {
    match first_op(s, p, 0) {
        Some(i) => k == op_table()[i].1 && e == p + op_table()[i].0.len(),
        None => if s[p] == '?' && p + 1 < s.len() && s[p + 1] == '.' {
            if p + 2 < s.len() && is_dec(s[p + 2]) {
                k == TokenKind::Question && e == p + 1
            } else {
                k == TokenKind::QuestionDot && e == p + 2
            }
        } else if s[p] == '.' {
            k == TokenKind::Dot && e == p + 1
        } else {
            single_char(s[p]) == Some(k) && e == p + 1
        },
    }
}

/// A hole read at `p`: `_` and the maximal run of digits after it, ending at
/// `e`; the index of an indexed hole is at least 1 and fits a `u32`.
pub open spec fn hole_read(s: Seq<char>, p: int, e: int, k: TokenKind) -> bool {
    let d = s.subrange(p + 1, e);
    &&& s[p] == '_'
    &&& forall|j: int| p + 1 <= j < e ==> is_dec(#[trigger] s[j])
    &&& e == s.len() || !is_dec(s[e])
    &&& if d.len() == 0 {
        k == TokenKind::Underscore
    } else {
        1 <= digits_value(d, 10) <= u32::MAX && k == TokenKind::IndexedHole(digits_value(d, 10) as u32)
    }
}

/// The digits after the `_` at `p` are none, or an index from 1 that fits a
/// `u32`.
pub open spec fn hole_index_ok(s: Seq<char>, p: int) -> bool {
    let d = s.subrange(p + 1, p + 1 + dec_run(s, p + 1));
    d.len() == 0 || 1 <= digits_value(d, 10) <= u32::MAX
}

/// The token kind `k` is what the source reads as over `s[a..e]`: a string
/// literal's decoded units, a numeral's value, an identifier's maximal
/// text, a hole, an operator by the table, or a template opened at `a`.
pub open spec fn token_read(s: Seq<char>, a: int, e: int, k: TokenKind) -> bool {
    &&& 0 <= a < e <= s.len()
    &&& match k {
        TokenKind::Str(u) => s[a] == '"' && string_body(s, a + 1) == Some((u@, e)),
        TokenKind::Number(n) => n.wf() && numeral_denotes(s, a, e, n@),
        TokenKind::Template(_) => s[a] == '`',
        TokenKind::Ident(name) => {
            &&& name@ == s.subrange(a, e)
            &&& ident_start(s[a])
            &&& forall|j: int| a <= j < e ==> ident_continue(#[trigger] s[j])
            &&& e == s.len() || !ident_continue(s[e])
        },
        TokenKind::Underscore => hole_read(s, a, e, k),
        TokenKind::IndexedHole(_) => hole_read(s, a, e, k),
        _ => operator_read(s, a, e, k),
    }
}

/// Where the last of `spans` ends, or `from` when there is none.
pub open spec fn spans_end(from: int, spans: Seq<(int, int)>) -> int {
    if spans.len() == 0 {
        from
    } else {
        spans.last().1
    }
}

/// The tokens are read, in order, from `s[from..to]`: each starts where the
/// trivia after the previous one (or after `from`) ends, spans the source it
/// reads, and carries the line it starts on.
pub open spec fn tokens_read(s: Seq<char>, from: int, to: int, toks: Seq<Token>, spans: Seq<(int, int)>) -> bool {
    &&& spans.len() == toks.len()
    &&& forall|i: int| 0 <= i < toks.len() ==> token_read(s, spans[i].0, spans[i].1, #[trigger] toks[i].kind)
    &&& forall|i: int| 0 <= i < toks.len() ==> (#[trigger] toks[i]).line == 1 + newlines(s.subrange(0, spans[i].0))
    &&& forall|i: int| 0 <= i < spans.len() ==> (#[trigger] spans[i]).0 == trivia_end(s, spans_end(from, spans.take(i)))
    &&& forall|i: int| 0 <= i < spans.len() ==> from <= (#[trigger] spans[i]).0 && spans[i].1 <= to
    &&& forall|i: int, j: int| 0 <= i < j < spans.len() ==> (#[trigger] spans[i]).1 <= (#[trigger] spans[j]).0
}

/// Each token is the one the scanner reads at its start, given whether the
/// token before it (or, for the first, `prev`) can end a postfix target: it
/// ends where the scan ends and has the scan's shape. So a numeral is read
/// whole, and a `.` before a digit starts a numeral exactly where no postfix
/// target precedes it.
pub open spec fn tokens_scanned(s: Seq<char>, toks: Seq<Token>, spans: Seq<(int, int)>, prev: bool) -> bool {
    forall|i: int|
        0 <= i < toks.len() ==> token_scan(s, spans[i].0, #[trigger] prev_at(toks, i, prev)) == Some(
            (spans[i].1, shape_of(toks[i].kind)),
        )
}

proof fn lemma_scanned_push(
    s: Seq<char>,
    toks: Seq<Token>,
    tok: Token,
    spans: Seq<(int, int)>,
    span: (int, int),
    prev: bool,
    pv: bool,
)
    requires
        spans.len() == toks.len(),
        tokens_scanned(s, toks, spans, prev),
        pv == (if toks.len() == 0 { prev } else { ends_postfix(toks.last().kind) }),
        token_scan(s, span.0, pv) == Some((span.1, shape_of(tok.kind))),
        templates_read(s, toks, spans, prev),
        tok.kind matches TokenKind::Template(es) ==> template_elems(s, span.0 + 1, pv, seq![], es@),
    ensures
        tokens_scanned(s, toks.push(tok), spans.push(span), prev),
        templates_read(s, toks.push(tok), spans.push(span), prev),
{
    let t2 = toks.push(tok);
    let s2 = spans.push(span);
    assert forall|i: int| 0 <= i < t2.len() implies token_scan(s, s2[i].0, #[trigger] prev_at(t2, i, prev)) == Some(
        (s2[i].1, shape_of(t2[i].kind)),
    ) by {
        if i < toks.len() {
            assert(t2[i] == toks[i] && s2[i] == spans[i]);
            if i > 0 {
                assert(t2[i - 1] == toks[i - 1]);
            }
            assert(prev_at(t2, i, prev) == prev_at(toks, i, prev));
        } else if i > 0 {
            assert(t2[i - 1] == toks.last());
        }
    }
    assert forall|i: int| 0 <= i < t2.len() implies (t2[i].kind matches TokenKind::Template(es) ==> template_elems(
        s,
        s2[i].0 + 1,
        #[trigger] prev_at(t2, i, prev),
        seq![],
        es@,
    )) by {
        if i < toks.len() {
            assert(t2[i] == toks[i] && s2[i] == spans[i]);
            if i > 0 {
                assert(t2[i - 1] == toks[i - 1]);
            }
            assert(prev_at(t2, i, prev) == prev_at(toks, i, prev));
        } else if i > 0 {
            assert(t2[i - 1] == toks.last());
        }
    }
}

/// Whether the token before the `i`-th (or, for the first, `prev`) can end a
/// postfix target.
pub open spec fn prev_at(toks: Seq<Token>, i: int, prev: bool) -> bool {
    if i == 0 {
        prev
    } else {
        ends_postfix(toks[i - 1].kind)
    }
}

/// A punctuation or operator kind: none that carries a literal, a name or a
/// hole.
pub open spec fn operator_kind(k: TokenKind) -> bool {
    !(k is Str || k is Number || k is Template || k is Ident || k is Underscore || k is IndexedHole)
}

proof fn lemma_operator_kinds(s: Seq<char>, p: int, e: int, k: TokenKind)
    requires
        operator_read(s, p, e, k),
    ensures
        operator_kind(k),
{
    if let Some(i) = first_op(s, p, 0) {
        lemma_first_op_range(s, p, 0);
        assert(0 <= i < 23);
    }
}

proof fn lemma_first_op_range(s: Seq<char>, p: int, i: int)
    ensures
        first_op(s, p, i) matches Some(j) ==> 0 <= j < op_table().len(),
    decreases op_table().len() - i,
{
    if !(i < 0 || i >= op_table().len()) && !occurs_at(s, p, op_table()[i].0) {
        lemma_first_op_range(s, p, i + 1);
    }
}

/// Where a line comment's text, from `i`, ends: at the next line break or
/// the end.
pub open spec fn line_end(s: Seq<char>, i: int) -> int
    decreases s.len() - i,
{
    if i < 0 || i >= s.len() || s[i] == '\n' {
        i
    } else {
        line_end(s, i + 1)
    }
}

/// Where a block comment's text, from `i`, ends: just past the next `*/`, or
/// at the end.
pub open spec fn block_end(s: Seq<char>, i: int) -> int
    decreases s.len() - i,
{
    if i < 0 || i >= s.len() {
        i
    } else if s[i] == '*' && i + 1 < s.len() && s[i + 1] == '/' {
        i + 2
    } else {
        block_end(s, i + 1)
    }
}

/// Where the trivia (whitespace and comments) starting at `p` ends.
pub open spec fn trivia_end(s: Seq<char>, p: int) -> int
    decreases s.len() - p,
{
    if p < 0 || p >= s.len() {
        p
    } else if unicode_whitespace(s[p]) {
        trivia_end(s, p + 1)
    } else if s[p] == '/' && p + 1 < s.len() && s[p + 1] == '/' {
        let e = line_end(s, p + 2);
        if p < e <= s.len() {
            trivia_end(s, e)
        } else {
            p
        }
    } else if s[p] == '/' && p + 1 < s.len() && s[p + 1] == '*' {
        let e = block_end(s, p + 2);
        if p < e <= s.len() {
            trivia_end(s, e)
        } else {
            p
        }
    } else {
        p
    }
}

proof fn lemma_line_end_after(s: Seq<char>, i: int)
    requires
        0 <= i <= s.len(),
    ensures
        i <= line_end(s, i) <= s.len(),
    decreases s.len() - i,
{
    if !(i >= s.len() || s[i] == '\n') {
        lemma_line_end_after(s, i + 1);
    }
}

proof fn lemma_block_end_after(s: Seq<char>, i: int)
    requires
        0 <= i <= s.len(),
    ensures
        i <= block_end(s, i) <= s.len(),
    decreases s.len() - i,
{
    if !(i >= s.len()) && !(s[i] == '*' && i + 1 < s.len() && s[i + 1] == '/') {
        lemma_block_end_after(s, i + 1);
    }
}

/// Token lines never decrease.
pub open spec fn lines_ordered(toks: Seq<Token>) -> bool {
    forall|a: int, b: int| 0 <= a <= b < toks.len() ==> #[trigger] toks[a].line <= #[trigger] toks[b].line
}

/// Lex a complete source string into tokens, terminated by `Eof`: each
/// token before it is read, in order and without overlap, from the source.
/// It succeeds exactly when every token of the source lexes.
pub fn lex(src: &str) -> (r: Result<Vec<Token>, LexError>)
    requires
        newlines(src@) < u32::MAX,
    ensures
        r is Ok <==> run_scan(src@, 0, 0, false, false) is Some,
        r matches Ok(toks) ==> toks@.len() >= 1 && toks@.last().kind == TokenKind::Eof
            && lines_ordered(toks@) && toks@.last().line == 1 + newlines(src@),
        r matches Ok(toks) ==> exists|spans: Seq<(int, int)>|
            tokens_read(src@, 0, src@.len() as int, toks@.drop_last(), spans) && trivia_end(src@, spans_end(0, spans))
                == src@.len() && tokens_scanned(src@, toks@.drop_last(), spans, false) && templates_read(
                src@,
                toks@.drop_last(),
                spans,
                false,
            ),
{
    let mut lexer = Lexer::new(src);
    let mut tokens = lexer.run(StopAt::Eof)?;
    let ghost before = tokens@;
    tokens.push(Token::new(TokenKind::Eof, lexer.line));
    proof {
        assert forall|a: int, b: int| 0 <= a <= b < tokens@.len() implies #[trigger] tokens@[a].line
            <= #[trigger] tokens@[b].line by {
            if b == tokens@.len() - 1 && a < b {
                assert(tokens@[a] == before[a]);
            }
        }
        assert(lexer.src@.subrange(0, lexer.pos as int) == lexer.src@);
        assert(tokens@.drop_last() == before);
    }
    Ok(tokens)
}

struct Lexer {
    src: Vec<char>,
    pos: usize,
    line: u32,
    /// Whether the last significant token can end a postfix target — drives
    /// the leading-dot number disambiguation.
    prev_postfix: bool,
}

impl Lexer {
    /// The cursor invariant: the line counts the breaks consumed so far.
    spec fn inv(&self) -> bool {
        &&& self.pos <= self.src@.len()
        &&& newlines(self.src@) < u32::MAX
        &&& self.line == 1 + newlines(self.src@.subrange(0, self.pos as int))
    }

    fn new(src: &str) -> (r: Lexer)
        requires
            newlines(src@) < u32::MAX,
        ensures
            r.inv(),
            r.src@ == src@,
            r.pos == 0,
            !r.prev_postfix,
    {
        let cs = crate::text::str_chars(src);
        assert(cs@.subrange(0, 0) =~= Seq::<char>::empty());
        Lexer { src: cs, pos: 0, line: 1, prev_postfix: false }
    }

    // ── Character cursor ─────────────────────────────────────────────────────

    fn peek(&self) -> (r: Option<char>)
        requires
            self.inv(),
        ensures
            r == if self.pos < self.src@.len() { Some(self.src@[self.pos as int]) } else { None::<char> },
    {
        if self.pos < self.src.len() {
            Some(self.src[self.pos])
        } else {
            None
        }
    }

    fn peek_at(&self, offset: usize) -> (r: Option<char>)
        requires
            self.inv(),
        ensures
            r == if self.pos + offset < self.src@.len() {
                Some(self.src@[self.pos + offset])
            } else {
                None::<char>
            },
    {
        if offset < self.src.len() - self.pos {
            Some(self.src[self.pos + offset])
        } else {
            None
        }
    }

    fn bump(&mut self) -> (r: Option<char>)
        requires
            old(self).inv(),
        ensures
            final(self).inv(),
            final(self).src == old(self).src,
            final(self).prev_postfix == old(self).prev_postfix,
            r == if old(self).pos < old(self).src@.len() {
                Some(old(self).src@[old(self).pos as int])
            } else {
                None::<char>
            },
            final(self).pos == if old(self).pos < old(self).src@.len() { old(self).pos + 1 } else { old(self).pos as int },
    {
        if self.pos < self.src.len() {
            let c = self.src[self.pos];
            proof {
                let s = self.src@;
                let p = self.pos as int;
                lemma_newlines_step(s, p);
                lemma_newlines_mono(s, p + 1, s.len() as int);
                assert(s.subrange(0, s.len() as int) == s);
            }
            self.pos = self.pos + 1;
            if c == '\n' {
                self.line = self.line + 1;
            }
            Some(c)
        } else {
            None
        }
    }

    /// Consume `n` characters.
    fn bump_n(&mut self, n: usize)
        requires
            old(self).inv(),
            old(self).pos + n <= old(self).src@.len(),
        ensures
            final(self).inv(),
            final(self).src == old(self).src,
            final(self).prev_postfix == old(self).prev_postfix,
            final(self).pos == old(self).pos + n,
    {
        let mut k: usize = 0;
        while k < n
            invariant
                self.inv(),
                self.src == old(self).src,
                self.prev_postfix == old(self).prev_postfix,
                k <= n,
                self.pos == old(self).pos + k,
                old(self).pos + n <= old(self).src@.len(),
            decreases n - k,
        {
            self.bump();
            k = k + 1;
        }
    }

    /// Whether `s` occurs at the cursor.
    fn looking_at(&self, s: &str) -> (r: bool)
        requires
            self.inv(),
        ensures
            r == occurs_at(self.src@, self.pos as int, s@),
    {
        let n = s.unicode_len();
        if n > self.src.len() - self.pos {
            return false;
        }
        let len = self.src.len();
        let mut k: usize = 0;
        while k < n
            invariant
                self.inv(),
                len == self.src@.len(),
                n == s@.len(),
                k <= n,
                self.pos + n <= self.src@.len(),
                forall|j: int| 0 <= j < k ==> self.src@[self.pos + j] == s@[j],
            decreases n - k,
        {
            if self.src[self.pos + k] != s.get_char(k) {
                assert(self.src@.subrange(self.pos as int, self.pos + n)[k as int] != s@[k as int]);
                return false;
            }
            k = k + 1;
        }
        assert(self.src@.subrange(self.pos as int, self.pos + n) =~= s@);
        true
    }

    /// If `s` occurs at the cursor, consume it and return true.
    fn eat(&mut self, s: &str) -> (r: bool)
        requires
            old(self).inv(),
        ensures
            final(self).inv(),
            final(self).src == old(self).src,
            final(self).prev_postfix == old(self).prev_postfix,
            r == occurs_at(old(self).src@, old(self).pos as int, s@),
            final(self).pos == if r { old(self).pos + s@.len() } else { old(self).pos as int },
    {
        if self.looking_at(s) {
            let n = s.unicode_len();
            self.bump_n(n);
            true
        } else {
            false
        }
    }

    fn err(&self, message: &str) -> (r: LexError)
        ensures
            r.message@ == message@,
            r.line == self.line,
    {
        LexError { message: string_of(message), line: self.line }
    }

    // ── Driver ───────────────────────────────────────────────────────────────

    #[verifier::rlimit(100)]
    #[verifier::spinoff_prover]
    fn run(&mut self, stop: StopAt) -> (r: Result<Vec<Token>, LexError>)
        requires
            old(self).inv(),
        ensures
            final(self).inv(),
            final(self).src == old(self).src,
            final(self).pos >= old(self).pos,
            r matches Ok(toks) ==> lines_ordered(toks@) && forall|i: int|
                0 <= i < toks@.len() ==> old(self).line <= #[trigger] toks@[i].line <= final(self).line,
            (r is Ok && stop is Eof) ==> final(self).pos == final(self).src@.len(),
            r matches Ok(toks) ==> exists|spans: Seq<(int, int)>|
                tokens_read(old(self).src@, old(self).pos as int, final(self).pos as int, toks@, spans) && (stop is Eof
                    ==> trivia_end(old(self).src@, spans_end(old(self).pos as int, spans)) == old(self).src@.len())
                    && tokens_scanned(old(self).src@, toks@, spans, old(self).prev_postfix)
                    && templates_read(old(self).src@, toks@, spans, old(self).prev_postfix),
            r is Ok <==> run_scan(old(self).src@, old(self).pos as int, 0, old(self).prev_postfix, stop is InterpClose) is Some,
            r is Ok ==> final(self).pos == (run_scan(
                old(self).src@,
                old(self).pos as int,
                0,
                old(self).prev_postfix,
                stop is InterpClose,
            )->0).0 && final(self).prev_postfix == (run_scan(
                old(self).src@,
                old(self).pos as int,
                0,
                old(self).prev_postfix,
                stop is InterpClose,
            )->0).1,
        decreases old(self).src@.len() - old(self).pos, 2nat,
    {
        let mut tokens: Vec<Token> = Vec::new();
        let mut brace_depth: u32 = 0;
        let ghost start_line = self.line;
        let ghost mut spans: Seq<(int, int)> = seq![];
        let ghost interp = stop is InterpClose;
        let ghost whole = run_scan(self.src@, self.pos as int, 0, self.prev_postfix, interp);
        loop
            invariant_except_break
                self.pos == spans_end(old(self).pos as int, spans),
                whole == run_scan(self.src@, self.pos as int, brace_depth as nat, self.prev_postfix, interp),
            invariant
                interp == (stop is InterpClose),
                whole == run_scan(old(self).src@, old(self).pos as int, 0, old(self).prev_postfix, interp),
                tokens_scanned(self.src@, tokens@, spans, old(self).prev_postfix),
                templates_read(self.src@, tokens@, spans, old(self).prev_postfix),
                self.prev_postfix == if tokens@.len() == 0 {
                    old(self).prev_postfix
                } else {
                    ends_postfix(tokens@.last().kind)
                },
                self.inv(),
                self.src == old(self).src,
                self.pos >= old(self).pos,
                start_line == old(self).line,
                start_line <= self.line,
                lines_ordered(tokens@),
                forall|i: int| 0 <= i < tokens@.len() ==> start_line <= #[trigger] tokens@[i].line <= self.line,
                tokens_read(self.src@, old(self).pos as int, self.pos as int, tokens@, spans),
            ensures
                self.inv(),
                self.src == old(self).src,
                self.pos >= old(self).pos,
                lines_ordered(tokens@),
                forall|i: int| 0 <= i < tokens@.len() ==> start_line <= #[trigger] tokens@[i].line <= self.line,
                (stop is Eof) ==> self.pos == self.src@.len(),
                tokens_read(self.src@, old(self).pos as int, self.pos as int, tokens@, spans),
                (stop is Eof) ==> trivia_end(self.src@, spans_end(old(self).pos as int, spans)) == self.src@.len(),
                whole == Some((self.pos as int, self.prev_postfix)),
                tokens_scanned(self.src@, tokens@, spans, old(self).prev_postfix),
                templates_read(self.src@, tokens@, spans, old(self).prev_postfix),
            decreases self.src@.len() - self.pos,
        {
            let ghost p0 = self.pos;
            self.skip_trivia();
            proof {
                lemma_newlines_mono(self.src@, p0 as int, self.pos as int);
            }
            let ghost pe = spans_end(old(self).pos as int, spans);
            match self.peek() {
                None => match stop {
                    StopAt::Eof => break,
                    StopAt::InterpClose => {
                        return Err(self.err("unterminated template interpolation"));
                    },
                },
                Some(c) => {
                    if c == '}' && matches!(stop, StopAt::InterpClose) && brace_depth == 0 {
                        let ghost p1 = self.pos;
                        self.bump();
                        proof {
                            lemma_newlines_mono(self.src@, p1 as int, self.pos as int);
                        }
                        break;
                    }
                    let ghost p1 = self.pos;
                    let ghost d0 = brace_depth as nat;
                    let ghost pv = self.prev_postfix;
                    let tok = self.next_token()?;
                    let ghost sh = shape_of(tok.kind);
                    proof {
                        lemma_newlines_mono(self.src@, p1 as int, self.pos as int);
                    }
                    match tok.kind {
                        TokenKind::LBrace => {
                            if brace_depth < u32::MAX {
                                brace_depth = brace_depth + 1;
                            }
                        },
                        TokenKind::RBrace => {
                            if brace_depth > 0 {
                                brace_depth = brace_depth - 1;
                            }
                        },
                        _ => {},
                    }
                    self.prev_postfix = tok.kind.ends_postfix_target();
                    assert(brace_depth as nat == next_depth(d0, sh));
                    assert(self.prev_postfix == (sh is Postfix || sh is Close));
                    let ghost before = tokens@;
                    let ghost before_spans = spans;
                    tokens.push(tok);
                    proof {
                        spans = spans.push((p1 as int, self.pos as int));
                        assert(spans.take(before_spans.len() as int) == before_spans);
                        assert forall|i: int| 0 <= i < before_spans.len() implies spans.take(i) == before_spans.take(i) by {
                            assert(spans.take(i) =~= before_spans.take(i));
                        }
                        assert forall|i: int| 0 <= i < tokens@.len() implies token_read(
                            self.src@,
                            spans[i].0,
                            spans[i].1,
                            #[trigger] tokens@[i].kind,
                        ) by {
                            if i < tokens@.len() - 1 {
                                assert(tokens@[i] == before[i] && spans[i] == before_spans[i]);
                            }
                        }
                        lemma_scanned_push(self.src@, before, tok, before_spans, (p1 as int, self.pos as int), old(self).prev_postfix, pv);
                        assert forall|i: int| 0 <= i < tokens@.len() implies (#[trigger] tokens@[i]).line == 1 + newlines(
                            self.src@.subrange(0, spans[i].0),
                        ) by {
                            if i < tokens@.len() - 1 {
                                assert(tokens@[i] == before[i] && spans[i] == before_spans[i]);
                            }
                        }
                        assert forall|i: int| 0 <= i < spans.len() implies (#[trigger] spans[i]).0 == trivia_end(
                            self.src@,
                            spans_end(old(self).pos as int, spans.take(i)),
                        ) by {
                            if i < spans.len() - 1 {
                                assert(spans[i] == before_spans[i]);
                            }
                        }
                        assert forall|i: int| 0 <= i < spans.len() implies old(self).pos <= (#[trigger] spans[i]).0
                            && spans[i].1 <= self.pos by {
                            if i < spans.len() - 1 {
                                assert(spans[i] == before_spans[i]);
                            }
                        }
                        assert forall|i: int, j: int| 0 <= i < j < spans.len() implies (#[trigger] spans[i]).1 <= (
                        #[trigger] spans[j]).0 by {
                            assert(spans[i] == before_spans[i]);
                            if j < spans.len() - 1 {
                                assert(spans[j] == before_spans[j]);
                            }
                        }
                        assert forall|a: int, b: int| 0 <= a <= b < tokens@.len() implies #[trigger] tokens@[a].line
                            <= #[trigger] tokens@[b].line by {
                            if b == tokens@.len() - 1 && a < b {
                                assert(tokens@[a] == before[a]);
                            }
                        }
                        assert forall|i: int| 0 <= i < tokens@.len() implies start_line <= #[trigger] tokens@[i].line
                            <= self.line by {
                            if i < tokens@.len() - 1 {
                                assert(tokens@[i] == before[i]);
                            }
                        }
                    }
                },
            }
        }
        proof {
            assert(tokens_read(old(self).src@, old(self).pos as int, self.pos as int, tokens@, spans) && (stop is Eof
                ==> trivia_end(old(self).src@, spans_end(old(self).pos as int, spans)) == old(self).src@.len())
                && tokens_scanned(old(self).src@, tokens@, spans, old(self).prev_postfix)
                && templates_read(old(self).src@, tokens@, spans, old(self).prev_postfix));
        }
        Ok(tokens)
    }

    /// Skips whitespace, line comments and block comments (an unterminated
    /// block comment runs to the end).
    fn skip_trivia(&mut self)
        requires
            old(self).inv(),
        ensures
            final(self).inv(),
            final(self).src == old(self).src,
            final(self).prev_postfix == old(self).prev_postfix,
            final(self).pos >= old(self).pos,
            !trivia_at(final(self).src@, final(self).pos as int),
            final(self).pos == trivia_end(old(self).src@, old(self).pos as int),
    {
        let ghost s = self.src@;
        loop
            invariant
                self.inv(),
                self.src == old(self).src,
                self.src@ == s,
                self.prev_postfix == old(self).prev_postfix,
                self.pos >= old(self).pos,
                trivia_end(s, old(self).pos as int) == trivia_end(s, self.pos as int),
            ensures
                self.inv(),
                self.src == old(self).src,
                self.prev_postfix == old(self).prev_postfix,
                self.pos >= old(self).pos,
                !trivia_at(self.src@, self.pos as int),
                self.pos == trivia_end(s, old(self).pos as int),
            decreases self.src@.len() - self.pos,
        {
            match self.peek() {
                Some(c) => {
                    if is_whitespace(c) {
                        self.bump();
                    } else if c == '/' && self.peek_at(1) == Some('/') {
                        let ghost p0 = self.pos as int;
                        self.bump();
                        self.bump();
                        while self.peek().is_some() && self.peek() != Some('\n')
                            invariant
                                self.pos > p0,
                                self.pos >= p0 + 2,
                                self.inv(),
                                self.src == old(self).src,
                                self.src@ == s,
                                self.prev_postfix == old(self).prev_postfix,
                                self.pos >= old(self).pos,
                                line_end(s, p0 + 2) == line_end(s, self.pos as int),
                            decreases self.src@.len() - self.pos,
                        {
                            self.bump();
                        }
                        proof {
                            lemma_line_end_after(s, p0 + 2);
                        }
                    } else if c == '/' && self.peek_at(1) == Some('*') {
                        let ghost p0 = self.pos as int;
                        self.bump();
                        self.bump();
                        loop
                            invariant_except_break
                                block_end(s, p0 + 2) == block_end(s, self.pos as int),
                            invariant
                                self.pos > p0,
                                self.pos >= p0 + 2,
                                self.inv(),
                                self.src == old(self).src,
                                self.src@ == s,
                                self.prev_postfix == old(self).prev_postfix,
                                self.pos >= old(self).pos,
                            ensures
                                self.pos > p0,
                                self.inv(),
                                self.src == old(self).src,
                                self.src@ == s,
                                self.prev_postfix == old(self).prev_postfix,
                                self.pos >= old(self).pos,
                                self.pos == block_end(s, p0 + 2),
                            decreases self.src@.len() - self.pos,
                        {
                            match self.peek() {
                                None => break,
                                Some(d) => {
                                    if d == '*' && self.peek_at(1) == Some('/') {
                                        self.bump();
                                        self.bump();
                                        break;
                                    }
                                    self.bump();
                                },
                            }
                        }
                        proof {
                            lemma_block_end_after(s, p0 + 2);
                        }
                    } else {
                        break;
                    }
                },
                None => break,
            }
        }
    }

    // ── One token ────────────────────────────────────────────────────────────

    fn next_token(&mut self) -> (r: Result<Token, LexError>)
        requires
            old(self).inv(),
            old(self).pos < old(self).src@.len(),
        ensures
            final(self).inv(),
            final(self).src == old(self).src,
            r is Ok ==> final(self).pos > old(self).pos,
            r matches Ok(t) ==> t.line == old(self).line,
            r matches Ok(t) ==> token_read(old(self).src@, old(self).pos as int, final(self).pos as int, t.kind),
            final(self).pos >= old(self).pos,
            r is Ok <==> token_scan(old(self).src@, old(self).pos as int, old(self).prev_postfix) is Some,
            r matches Ok(t) ==> final(self).pos == (token_scan(old(self).src@, old(self).pos as int, old(self).prev_postfix)->0).0
                && shape_of(t.kind) == (token_scan(old(self).src@, old(self).pos as int, old(self).prev_postfix)->0).1,
            r matches Ok(t) ==> (t.kind matches TokenKind::Template(es) ==> template_elems(
                old(self).src@,
                old(self).pos + 1,
                old(self).prev_postfix,
                seq![],
                es@,
            )),
        decreases old(self).src@.len() - old(self).pos, 1nat,
    {
        let line = self.line;
        let c = self.src[self.pos];
        if c == '"' {
            let k = self.lex_string()?;
            return Ok(Token::new(k, line));
        }
        if c == '`' {
            let k = self.lex_template()?;
            return Ok(Token::new(k, line));
        }
        if c == '_' {
            let ghost p = self.pos as int;
            let res = self.lex_hole();
            proof {
                lemma_dec_run(self.src@, p + 1, self.pos as int);
            }
            let k = res?;
            return Ok(Token::new(k, line));
        }
        if '0' <= c && c <= '9' {
            let n = self.lex_number()?;
            return Ok(Token::new(TokenKind::Number(n), line));
        }
        if is_ident_start(c) {
            let ghost p = self.pos as int;
            let k = self.lex_ident();
            proof {
                lemma_ident_end(self.src@, p, self.pos as int);
            }
            return Ok(Token::new(k, line));
        }
        let ghost p = self.pos as int;
        let ghost pf = self.prev_postfix;
        let kind = self.lex_operator()?;
        proof {
            let s = self.src@;
            if !(s[p] == '.' && first_op(s, p, 0) is None && p + 1 < s.len() && is_dec(s[p + 1]) && !pf) {
                lemma_operator_kinds(s, p, self.pos as int, kind);
            }
        }
        Ok(Token::new(kind, line))
    }

    /// The `i`-th multi-character operator.
    fn op_entry(i: usize) -> (r: (&'static str, TokenKind))
        requires
            i < op_table().len(),
        ensures
            r.0@ == op_table()[i as int].0,
            r.1 == op_table()[i as int].1,
    {
        match i {
            0 => ("...", TokenKind::DotDotDot),
            1 => ("=>", TokenKind::FatArrow),
            2 => ("==", TokenKind::EqEq),
            3 => ("!=", TokenKind::BangEq),
            4 => ("<|", TokenKind::LtPipe),
            5 => ("<=", TokenKind::Le),
            6 => (">=", TokenKind::Ge),
            7 => ("::", TokenKind::ColonColon),
            8 => (":=", TokenKind::ColonEq),
            9 => ("**:=", TokenKind::StarStarEq),
            10 => ("&&:=", TokenKind::AmpAmpEq),
            11 => ("||:=", TokenKind::PipePipeEq),
            12 => ("??:=", TokenKind::QuestionQuestionEq),
            13 => ("+:=", TokenKind::PlusEq),
            14 => ("-:=", TokenKind::MinusEq),
            15 => ("*:=", TokenKind::StarEq),
            16 => ("/:=", TokenKind::SlashEq),
            17 => ("%:=", TokenKind::PercentEq),
            18 => ("**", TokenKind::StarStar),
            19 => ("&&", TokenKind::AmpAmp),
            20 => ("||", TokenKind::PipePipe),
            21 => ("|>", TokenKind::PipeGt),
            _ => ("??", TokenKind::QuestionQuestion),
        }
    }

    proof fn lemma_op_table_nonempty()
        ensures
            op_table().len() == 23,
            forall|i: int| 0 <= i < 23 ==> (#[trigger] op_table()[i]).0.len() > 0,
    {
        reveal_strlit("...");
        reveal_strlit("=>");
        reveal_strlit("==");
        reveal_strlit("!=");
        reveal_strlit("<|");
        reveal_strlit("<=");
        reveal_strlit(">=");
        reveal_strlit("::");
        reveal_strlit(":=");
        reveal_strlit("**:=");
        reveal_strlit("&&:=");
        reveal_strlit("||:=");
        reveal_strlit("??:=");
        reveal_strlit("+:=");
        reveal_strlit("-:=");
        reveal_strlit("*:=");
        reveal_strlit("/:=");
        reveal_strlit("%:=");
        reveal_strlit("**");
        reveal_strlit("&&");
        reveal_strlit("||");
        reveal_strlit("|>");
        reveal_strlit("??");
    }

    /// Operators and punctuation, by maximal munch: the first (longest-first)
    /// table entry that occurs at the cursor; then `?.` (not formed before a
    /// digit), `.` (a leading-dot number unless it follows a postfix target),
    /// and single characters.
    fn lex_operator(&mut self) -> (r: Result<TokenKind, LexError>)
        requires
            old(self).inv(),
            old(self).pos < old(self).src@.len(),
        ensures
            final(self).inv(),
            final(self).src == old(self).src,
            r is Ok ==> final(self).pos > old(self).pos,
            final(self).pos >= old(self).pos,
            ({
                let s = old(self).src@;
                let p = old(self).pos as int;
                match first_op(s, p, 0) {
                    Some(i) => r == Ok::<TokenKind, LexError>(op_table()[i].1) && final(self).pos == p
                        + op_table()[i].0.len(),
                    None => if s[p] == '?' && p + 1 < s.len() && s[p + 1] == '.' {
                        if p + 2 < s.len() && is_dec(s[p + 2]) {
                            r == Ok::<TokenKind, LexError>(TokenKind::Question) && final(self).pos == p + 1
                        } else {
                            r == Ok::<TokenKind, LexError>(TokenKind::QuestionDot) && final(self).pos == p + 2
                        }
                    } else if s[p] == '.' {
                        if p + 1 < s.len() && is_dec(s[p + 1]) && !old(self).prev_postfix {
                            &&& (r is Ok <==> number_end(s, p) is Some)
                            &&& (r is Ok ==> final(self).pos == number_end(s, p)->0)
                            &&& (r matches Ok(k) ==> k matches TokenKind::Number(n) && n.wf() && numeral_denotes(
                                s,
                                p,
                                final(self).pos as int,
                                n@,
                            ))
                        } else {
                            r == Ok::<TokenKind, LexError>(TokenKind::Dot) && final(self).pos == p + 1
                        }
                    } else {
                        match single_char(s[p]) {
                            Some(k) => r == Ok::<TokenKind, LexError>(k) && final(self).pos == p + 1,
                            None => r is Err,
                        }
                    },
                }
            }),
    {
        let mut i: usize = 0;
        proof {
            Lexer::lemma_op_table_nonempty();
        }
        while i < 23
            invariant
                forall|j: int| 0 <= j < 23 ==> (#[trigger] op_table()[j]).0.len() > 0,
                self.inv(),
                *self == *old(self),
                i <= 23,
                op_table().len() == 23,
                first_op(self.src@, self.pos as int, 0) == first_op(self.src@, self.pos as int, i as int),
            decreases 23 - i,
        {
            let (text, kind) = Lexer::op_entry(i);
            if self.eat(text) {
                return Ok(kind);
            }
            i = i + 1;
        }
        if self.peek() == Some('?') && self.peek_at(1) == Some('.') {
            match self.peek_at(2) {
                Some(d) => {
                    if '0' <= d && d <= '9' {
                        self.bump();
                        return Ok(TokenKind::Question);
                    }
                },
                None => {},
            }
            self.bump();
            self.bump();
            return Ok(TokenKind::QuestionDot);
        }
        if self.peek() == Some('.') {
            let next_is_digit = match self.peek_at(1) {
                Some(d) => '0' <= d && d <= '9',
                None => false,
            };
            if next_is_digit && !self.prev_postfix {
                let n = self.lex_number()?;
                return Ok(TokenKind::Number(n));
            }
            self.bump();
            return Ok(TokenKind::Dot);
        }
        let c = self.bump().unwrap();
        let kind = if c == '(' { TokenKind::LParen }
            else if c == ')' { TokenKind::RParen }
            else if c == '[' { TokenKind::LBracket }
            else if c == ']' { TokenKind::RBracket }
            else if c == '{' { TokenKind::LBrace }
            else if c == '}' { TokenKind::RBrace }
            else if c == ',' { TokenKind::Comma }
            else if c == '#' { TokenKind::Hash }
            else if c == '?' { TokenKind::Question }
            else if c == ':' { TokenKind::Colon }
            else if c == '<' { TokenKind::Lt }
            else if c == '>' { TokenKind::Gt }
            else if c == '+' { TokenKind::Plus }
            else if c == '-' { TokenKind::Minus }
            else if c == '*' { TokenKind::Star }
            else if c == '/' { TokenKind::Slash }
            else if c == '%' { TokenKind::Percent }
            else if c == '!' { TokenKind::Bang }
            else if c == '~' { TokenKind::Tilde }
            else if c == '=' { TokenKind::Eq }
            else if c == '@' { TokenKind::At }
            else if c == '^' { TokenKind::Caret }
            else if c == '|' { TokenKind::Pipe }
            else if c == '&' {
                return Err(self.err("`&` is not an operator (bitwise family discarded); did you mean `&&`?"));
            } else if c == '$' {
                return Err(self.err("`$` is only valid inside template interpolation"));
            } else {
                let mut m = string_of("unexpected character `");
                string_push(&mut m, c);
                string_push(&mut m, '`');
                return Err(LexError { message: m, line: self.line });
            };
        Ok(kind)
    }

    // ── Holes and identifiers ────────────────────────────────────────────────

    /// `_` alone is the plain hole; `_` followed by digits is an indexed hole,
    /// whose index is at least 1 and fits a `u32`.
    fn lex_hole(&mut self) -> (r: Result<TokenKind, LexError>)
        requires
            old(self).inv(),
            old(self).pos < old(self).src@.len(),
            old(self).src@[old(self).pos as int] == '_',
        ensures
            final(self).inv(),
            final(self).src == old(self).src,
            final(self).pos > old(self).pos,
            ({
                let p = old(self).pos as int;
                let q = final(self).pos as int;
                let d = old(self).src@.subrange(p + 1, q);
                &&& forall|k: int| p + 1 <= k < q ==> is_dec(#[trigger] old(self).src@[k])
                &&& q == old(self).src@.len() || !is_dec(old(self).src@[q])
                &&& if d.len() == 0 {
                    r == Ok::<TokenKind, LexError>(TokenKind::Underscore)
                } else if 1 <= digits_value(d, 10) <= u32::MAX {
                    r == Ok::<TokenKind, LexError>(TokenKind::IndexedHole(digits_value(d, 10) as u32))
                } else {
                    r is Err
                }
            }),
    {
        self.bump();
        let start = self.pos;
        let mut value: u64 = 0;
        let mut overflow = false;
        while self.pos < self.src.len() && '0' <= self.src[self.pos] && self.src[self.pos] <= '9'
            invariant
                self.inv(),
                self.src == old(self).src,
                start == old(self).pos + 1,
                start <= self.pos,
                forall|k: int| start <= k < self.pos ==> is_dec(#[trigger] self.src@[k]),
                !overflow ==> value == digits_value(self.src@.subrange(start as int, self.pos as int), 10)
                    && value <= u32::MAX,
                overflow ==> digits_value(self.src@.subrange(start as int, self.pos as int), 10) > u32::MAX,
            decreases self.src@.len() - self.pos,
        {
            let c = self.src[self.pos];
            let ghost before = self.src@.subrange(start as int, self.pos as int);
            proof {
                let after = self.src@.subrange(start as int, self.pos + 1);
                assert(after.drop_last() == before);
                assert(after.last() == c);
                lemma_digits_step(before, c);
            }
            if !overflow {
                let next = value * 10 + ((c as u64) - ('0' as u64));
                if next > 4294967295 {
                    overflow = true;
                } else {
                    value = next;
                }
            }
            self.bump();
        }
        if self.pos == start {
            Ok(TokenKind::Underscore)
        } else if overflow || value == 0 {
            Err(self.err("an indexed hole `_n` needs an index from 1 that fits 32 bits"))
        } else {
            Ok(TokenKind::IndexedHole(value as u32))
        }
    }

    /// An identifier: the maximal run of identifier characters.
    fn lex_ident(&mut self) -> (r: TokenKind)
        requires
            old(self).inv(),
            old(self).pos < old(self).src@.len(),
            ident_continue(old(self).src@[old(self).pos as int]),
        ensures
            final(self).inv(),
            final(self).src == old(self).src,
            final(self).pos > old(self).pos,
            r matches TokenKind::Ident(name) && name@ == old(self).src@.subrange(
                old(self).pos as int,
                final(self).pos as int,
            ),
            forall|k: int| old(self).pos <= k < final(self).pos ==> ident_continue(#[trigger] old(self).src@[k]),
            final(self).pos == old(self).src@.len() || !ident_continue(old(self).src@[final(self).pos as int]),
    {
        let start = self.pos;
        let mut name: Vec<char> = Vec::new();
        while self.pos < self.src.len() && is_ident_continue(self.src[self.pos])
            invariant
                self.inv(),
                self.src == old(self).src,
                start == old(self).pos,
                start <= self.pos,
                name@ == self.src@.subrange(start as int, self.pos as int),
                forall|k: int| start <= k < self.pos ==> ident_continue(#[trigger] self.src@[k]),
            decreases self.src@.len() - self.pos,
        {
            name.push(self.src[self.pos]);
            assert(name@ == self.src@.subrange(start as int, self.pos + 1));
            self.bump();
        }
        TokenKind::Ident(string_from_chars(&name))
    }

    // ── Numeric literals ─────────────────────────────────────────────────────

    /// A numeric literal: `0x`/`0o`/`0b` integers, or decimals
    /// `[int][.frac][e[+|-]exp]` (`_` separators allowed inside digit runs).
    /// A literal that lexes denotes the number its text writes, separators
    /// removed.
    #[verifier::spinoff_prover]
    #[verifier::rlimit(60)]
    fn lex_number(&mut self) -> (r: Result<Rational, LexError>)
        requires
            old(self).inv(),
            old(self).pos < old(self).src@.len(),
        ensures
            final(self).inv(),
            final(self).src == old(self).src,
            final(self).pos >= old(self).pos,
            r is Ok ==> final(self).pos > old(self).pos,
            final(self).prev_postfix == old(self).prev_postfix,
            r is Ok <==> number_end(old(self).src@, old(self).pos as int) is Some,
            r is Ok ==> final(self).pos == number_end(old(self).src@, old(self).pos as int)->0,
            r matches Ok(n) ==> n.wf() && numeral_denotes(
                old(self).src@,
                old(self).pos as int,
                final(self).pos as int,
                n@,
            ),
    {
        let ghost src = self.src@;
        let ghost a = self.pos as int;
        if self.peek() == Some('0') {
            let radix: u32 = match self.peek_at(1) {
                Some(rc) => if rc == 'x' || rc == 'X' {
                    16
                } else if rc == 'o' || rc == 'O' {
                    8
                } else if rc == 'b' || rc == 'B' {
                    2
                } else {
                    0
                },
                None => 0,
            };
            assert(radix == base_radix(src, a));
            if radix != 0 {
                self.bump();
                self.bump();
                let digits = self.take_digits_with_separators(radix);
                if digits.len() == 0 {
                    return Err(self.err("missing digits after base prefix"));
                }
                let n = big_from_radix_digits(&digits, radix);
                self.reject_bigint_suffix()?;
                return Ok(Rational::from_integer(n));
            }
            match self.peek_at(1) {
                Some(d) => {
                    if '0' <= d && d <= '9' {
                        return Err(self.err("legacy octal / leading-zero literals are not allowed"));
                    }
                },
                None => {},
            }
        }
        assert(base_radix(src, a) == 0);
        let int_part = self.take_digits_with_separators(10);
        let ghost i1 = self.pos as int;
        let mut frac_part: Vec<char> = Vec::new();
        if self.peek() == Some('.') {
            match self.peek_at(1) {
                Some(d) => {
                    if '0' <= d && d <= '9' {
                        self.bump();
                        frac_part = self.take_digits_with_separators(10);
                    } else if d == '.' || is_ident_start(d) {
                    } else {
                        return Err(self.err("trailing-dot numerals are not allowed; write `5` or `5.0`"));
                    }
                },
                None => {
                    return Err(self.err("trailing-dot numerals are not allowed; write `5` or `5.0`"));
                },
            }
        }
        let ghost i2 = self.pos as int;
        let ghost dotted = i2 > i1;
        assert(dotted <==> frac_part@.len() > 0);
        proof {
            lemma_strip_concat(src.subrange(a, i1), src.subrange(i1, i2));
            assert(src.subrange(a, i1) + src.subrange(i1, i2) == src.subrange(a, i2));
            if dotted {
                lemma_strip_concat(src.subrange(i1, i1 + 1), src.subrange(i1 + 1, i2));
                assert(src.subrange(i1, i1 + 1) + src.subrange(i1 + 1, i2) == src.subrange(i1, i2));
                lemma_strip_single(src.subrange(i1, i1 + 1));
                assert(src.subrange(i1, i1 + 1) == seq!['.']);
            } else {
                assert(src.subrange(i1, i2) == Seq::<char>::empty());
            }
            assert(strip_seps(src.subrange(a, i2)) == int_part@ + (if frac_part@.len() > 0 {
                seq!['.'] + frac_part@
            } else {
                Seq::<char>::empty()
            }));
        }
        if int_part.len() == 0 && frac_part.len() == 0 {
            return Err(self.err("malformed numeric literal"));
        }
        let exp = self.lex_exponent()?;
        let ghost e = self.pos as int;
        proof {
            lemma_strip_concat(src.subrange(a, i2), src.subrange(i2, e));
            assert(src.subrange(a, i2) + src.subrange(i2, e) == src.subrange(a, e));
            if e == i2 {
                assert(src.subrange(i2, e) == Seq::<char>::empty());
            }
            assert(strip_seps(src.subrange(i2, e)) == (if exp@.len() > 0 {
                seq![src[i2]] + exp@
            } else {
                Seq::<char>::empty()
            }));
        }
        self.reject_bigint_suffix()?;
        let mut lexeme: Vec<char> = Vec::new();
        if int_part.len() == 0 {
            lexeme.push('0');
        } else {
            append_chars(&mut lexeme, &int_part);
        }
        let ghost l1 = lexeme@;
        assert(l1 == if int_part@.len() == 0 { seq!['0'] } else { int_part@ });
        if frac_part.len() > 0 {
            lexeme.push('.');
            append_chars(&mut lexeme, &frac_part);
            assert(lexeme@ == l1 + (seq!['.'] + frac_part@));
        }
        let ghost l2 = lexeme@;
        if exp.len() > 0 {
            lexeme.push('e');
            append_chars(&mut lexeme, &exp);
            assert(lexeme@ == l2 + (seq!['e'] + exp@));
        }
        proof {
            let marker = if exp@.len() > 0 { src[i2] } else { 'e' };
            lemma_numeral_text(int_part@, frac_part@, exp@, marker, strip_seps(src.subrange(a, e)), lexeme@);
        }
        match Rational::from_decimal_chars(&lexeme) {
            Some(n) => Ok(n),
            None => {
                let mut m = string_of("invalid numeric literal `");
                let mut k: usize = 0;
                while k < lexeme.len()
                    invariant
                        k <= lexeme@.len(),
                    decreases lexeme@.len() - k,
                {
                    string_push(&mut m, lexeme[k]);
                    k = k + 1;
                }
                string_push(&mut m, '`');
                Err(LexError { message: m, line: self.line })
            },
        }
    }

    /// An optional exponent `(e|E)[+|-]digits`: its sign and digits, empty
    /// where no exponent marker stands.
    fn lex_exponent(&mut self) -> (r: Result<Vec<char>, LexError>)
        requires
            old(self).inv(),
        ensures
            final(self).inv(),
            final(self).src == old(self).src,
            final(self).pos >= old(self).pos,
            final(self).prev_postfix == old(self).prev_postfix,
            r is Ok <==> exponent_end(old(self).src@, old(self).pos as int) is Some,
            r is Ok ==> final(self).pos == exponent_end(old(self).src@, old(self).pos as int)->0,
            r matches Ok(x) ==> {
                &&& forall|j: int| 0 <= j < x@.len() ==> #[trigger] x@[j] != 'E'
                &&& (x@.len() > 0 <==> final(self).pos > old(self).pos)
                &&& x@.len() > 0 ==> (old(self).src@[old(self).pos as int] == 'e' || old(self).src@[old(self).pos as int]
                    == 'E') && strip_seps(old(self).src@.subrange(old(self).pos as int, final(self).pos as int))
                    == seq![old(self).src@[old(self).pos as int]] + x@
            },
    {
        let ghost src = self.src@;
        let ghost p = self.pos as int;
        let mut exp: Vec<char> = Vec::new();
        if self.peek() == Some('e') || self.peek() == Some('E') {
            self.bump();
            if self.peek() == Some('+') || self.peek() == Some('-') {
                let sign = self.bump().unwrap();
                exp.push(sign);
            }
            let ghost q = self.pos as int;
            let exp_digits = self.take_digits_with_separators(10);
            if exp_digits.len() == 0 {
                return Err(self.err("missing exponent digits"));
            }
            let ghost signed = exp@;
            let mut k: usize = 0;
            while k < exp_digits.len()
                invariant
                    k <= exp_digits@.len(),
                    exp@ == signed + exp_digits@.subrange(0, k as int),
                decreases exp_digits@.len() - k,
            {
                exp.push(exp_digits[k]);
                assert(exp_digits@.subrange(0, k + 1) == exp_digits@.subrange(0, k as int).push(exp_digits@[k as int]));
                k = k + 1;
            }
            proof {
                let e = self.pos as int;
                assert(exp_digits@.subrange(0, exp_digits@.len() as int) == exp_digits@);
                lemma_strip_concat(src.subrange(p, q), src.subrange(q, e));
                assert(src.subrange(p, q) + src.subrange(q, e) == src.subrange(p, e));
                lemma_strip_single(src.subrange(p, p + 1));
                if q == p + 2 {
                    lemma_strip_concat(src.subrange(p, p + 1), src.subrange(p + 1, q));
                    assert(src.subrange(p, p + 1) + src.subrange(p + 1, q) == src.subrange(p, q));
                    lemma_strip_single(src.subrange(p + 1, q));
                } else {
                    assert(src.subrange(p, q) == src.subrange(p, p + 1));
                }
                assert forall|j: int| 0 <= j < exp@.len() implies #[trigger] exp@[j] != 'E' by {
                    if j >= signed.len() {
                        assert(exp@[j] == exp_digits@[j - signed.len()]);
                        assert(digit_of(exp_digits@[j - signed.len()]) < 10);
                    }
                }
            }
        }
        Ok(exp)
    }

    /// Consume digits valid in `radix`, skipping `_` separators; the digits
    /// without separators.
    fn take_digits_with_separators(&mut self, radix: u32) -> (r: Vec<char>)
        requires
            old(self).inv(),
            2 <= radix <= 36,
        ensures
            final(self).inv(),
            final(self).src == old(self).src,
            final(self).prev_postfix == old(self).prev_postfix,
            final(self).pos >= old(self).pos,
            all_digits(r@, radix as nat),
            r@.len() <= final(self).pos - old(self).pos,
            r@ == strip_seps(old(self).src@.subrange(old(self).pos as int, final(self).pos as int)),
            old(self).pos < old(self).src@.len() && digit_of(old(self).src@[old(self).pos as int]) < radix
                ==> r@.len() > 0,
            final(self).pos == final(self).src@.len() || (final(self).src@[final(self).pos as int] != '_'
                && digit_of(final(self).src@[final(self).pos as int]) >= radix),
            final(self).pos == digits_end(old(self).src@, old(self).pos as int, radix as nat),
    {
        let mut out: Vec<char> = Vec::new();
        loop
            invariant
                self.inv(),
                self.src == old(self).src,
                self.prev_postfix == old(self).prev_postfix,
                self.pos >= old(self).pos,
                2 <= radix <= 36,
                all_digits(out@, radix as nat),
                out@.len() <= self.pos - old(self).pos,
                out@ == strip_seps(self.src@.subrange(old(self).pos as int, self.pos as int)),
                old(self).pos < old(self).src@.len() && digit_of(old(self).src@[old(self).pos as int]) < radix
                    && self.pos > old(self).pos ==> out@.len() > 0,
                digits_end(self.src@, self.pos as int, radix as nat) == digits_end(
                    self.src@,
                    old(self).pos as int,
                    radix as nat,
                ),
            ensures
                self.inv(),
                self.src == old(self).src,
                self.prev_postfix == old(self).prev_postfix,
                self.pos >= old(self).pos,
                all_digits(out@, radix as nat),
                out@.len() <= self.pos - old(self).pos,
                out@ == strip_seps(self.src@.subrange(old(self).pos as int, self.pos as int)),
                old(self).pos < old(self).src@.len() && digit_of(old(self).src@[old(self).pos as int]) < radix
                    && self.pos > old(self).pos ==> out@.len() > 0,
                self.pos == self.src@.len() || (self.src@[self.pos as int] != '_' && digit_of(
                    self.src@[self.pos as int],
                ) >= radix),
                self.pos == digits_end(self.src@, old(self).pos as int, radix as nat),
            decreases self.src@.len() - self.pos,
        {
            match self.peek() {
                None => break,
                Some(c) => {
                    let ghost from = old(self).pos as int;
                    let ghost before = self.src@.subrange(from, self.pos as int);
                    assert(self.src@.subrange(from, self.pos + 1) == before.push(c));
                    assert(before.push(c).drop_last() == before);
                    if c == '_' {
                        self.bump();
                    } else if char_digit(c) < radix {
                        out.push(c);
                        self.bump();
                    } else {
                        break;
                    }
                },
            }
        }
        out
    }

    fn reject_bigint_suffix(&self) -> (r: Result<(), LexError>)
        requires
            self.inv(),
        ensures
            r is Err <==> (self.pos < self.src@.len() && self.src@[self.pos as int] == 'n'),
    {
        if self.peek() == Some('n') {
            return Err(self.err("BigInt `n` suffix is not supported (numbers are exact rationals)"));
        }
        Ok(())
    }

    // ── String literals ──────────────────────────────────────────────────────

    /// A string literal (the opening quote at the current position): the
    /// UTF-16 units its body denotes.
    fn lex_string(&mut self) -> (r: Result<TokenKind, LexError>)
        requires
            old(self).inv(),
            old(self).pos < old(self).src@.len(),
        ensures
            final(self).inv(),
            final(self).src == old(self).src,
            final(self).pos > old(self).pos,
            r is Ok <==> string_body(old(self).src@, old(self).pos + 1) is Some,
            ({
                let b = string_body(old(self).src@, old(self).pos + 1);
                r matches Ok(k) ==> k matches TokenKind::Str(u) && u@ == (b->0).0 && final(self).pos == (b->0).1
            }),
    {
        let ghost s = self.src@;
        let ghost whole = string_body(s, self.pos + 1);
        self.bump();
        let mut units: Vec<u16> = Vec::new();
        proof {
            assert(units@ + seq![] == units@);
        }
        loop
            invariant
                self.inv(),
                self.src == old(self).src,
                self.src@ == s,
                self.pos > old(self).pos,
                whole == string_body(s, old(self).pos + 1),
                whole == prepend_units(units@, string_body(s, self.pos as int)),
            decreases self.src@.len() - self.pos,
        {
            let ghost at = self.pos as int;
            match self.peek() {
                None => {
                    return Err(self.err("unterminated string literal"));
                },
                Some(c) => {
                    if c == '"' {
                        self.bump();
                        assert(units@ + seq![] == units@);
                        return Ok(TokenKind::Str(units));
                    } else if c == '\n' {
                        return Err(self.err("a string literal may not span lines (use a template)"));
                    } else if c == '\\' {
                        self.bump();
                        let ghost before = units@;
                        let res = self.lex_escape(&mut units);
                        proof {
                            if escape_at(s, at + 1) is Some {
                                lemma_escape_end(s, at + 1);
                                lemma_prepend_assoc(before, (escape_at(s, at + 1)->0).0, string_body(s, self.pos as int));
                            }
                        }
                        res?;
                    } else {
                        self.bump();
                        let ghost before = units@;
                        push_utf16(&mut units, c);
                        proof {
                            lemma_prepend_assoc(before, char_utf16(c), string_body(s, self.pos as int));
                        }
                    }
                },
            }
        }
    }

    // ── Template literals ────────────────────────────────────────────────────

    fn lex_template(&mut self) -> (r: Result<TokenKind, LexError>)
        requires
            old(self).inv(),
            old(self).pos < old(self).src@.len(),
        ensures
            final(self).inv(),
            final(self).src == old(self).src,
            final(self).pos > old(self).pos,
            r matches Ok(k) ==> k is Template,
            r is Ok <==> template_scan(old(self).src@, old(self).pos + 1, old(self).prev_postfix) is Some,
            r matches Ok(k) ==> (k matches TokenKind::Template(es) && template_elems(
                old(self).src@,
                old(self).pos + 1,
                old(self).prev_postfix,
                seq![],
                es@,
            )),
            r is Ok ==> final(self).pos == (template_scan(old(self).src@, old(self).pos + 1, old(self).prev_postfix)->0).0
                && final(self).prev_postfix == (template_scan(
                old(self).src@,
                old(self).pos + 1,
                old(self).prev_postfix,
            )->0).1,
        decreases old(self).src@.len() - old(self).pos, 0nat,
    {
        let ghost whole = template_scan(self.src@, self.pos + 1, self.prev_postfix);
        self.bump();
        let mut elems: Vec<TemplateElem> = Vec::new();
        let mut seg: Vec<u16> = Vec::new();
        proof {
            assert forall|rest: Seq<TemplateElem>|
                #[trigger] template_elems(self.src@, self.pos as int, self.prev_postfix, seg@, rest) implies template_elems(
                old(self).src@,
                old(self).pos + 1,
                old(self).prev_postfix,
                seq![],
                elems@ + rest,
            ) by {
                assert(elems@ + rest =~= rest);
            }
        }
        loop
            invariant
                self.inv(),
                self.src == old(self).src,
                self.pos > old(self).pos,
                whole == template_scan(old(self).src@, old(self).pos + 1, old(self).prev_postfix),
                whole == template_scan(self.src@, self.pos as int, self.prev_postfix),
                forall|rest: Seq<TemplateElem>|
                    #[trigger] template_elems(self.src@, self.pos as int, self.prev_postfix, seg@, rest)
                        ==> template_elems(
                        old(self).src@,
                        old(self).pos + 1,
                        old(self).prev_postfix,
                        seq![],
                        elems@ + rest,
                    ),
            decreases self.src@.len() - self.pos,
        {
            let ghost p = self.pos as int;
            let ghost s = self.src@;
            let ghost pv = self.prev_postfix;
            let ghost seg0 = seg@;
            let ghost elems0 = elems@;
            match self.peek() {
                None => {
                    return Err(self.err("unterminated template literal"));
                },
                Some(c) => {
                    if c == '`' {
                        self.bump();
                        if seg.len() > 0 {
                            elems.push(TemplateElem::Str(seg));
                        }
                        proof {
                            let tail = elems@.skip(elems0.len() as int);
                            assert(elems@ =~= elems0 + tail);
                            assert(template_elems(s, p, pv, seg0, tail));
                        }
                        return Ok(TokenKind::Template(elems));
                    } else if c == '\\' {
                        self.bump();
                        if self.peek() == Some('`') {
                            self.bump();
                            push_utf16(&mut seg, '`');
                        } else if self.peek() == Some('$') {
                            self.bump();
                            push_utf16(&mut seg, '$');
                        } else {
                            let res = self.lex_escape(&mut seg);
                            proof {
                                if escape_at(self.src@, p + 1) is Some {
                                    lemma_escape_end(self.src@, p + 1);
                                }
                            }
                            res?;
                        }
                        proof {
                            assert forall|rest: Seq<TemplateElem>|
                                #[trigger] template_elems(s, self.pos as int, pv, seg@, rest) implies template_elems(
                                s,
                                old(self).pos + 1,
                                old(self).prev_postfix,
                                seq![],
                                elems@ + rest,
                            ) by {
                                assert(template_elems(s, p, pv, seg0, rest));
                            }
                        }
                    } else if c == '$' && self.peek_at(1) == Some('{') {
                        self.bump();
                        self.bump();
                        if seg.len() > 0 {
                            elems.push(TemplateElem::Str(seg));
                            seg = Vec::new();
                        }
                        let ghost elems1 = elems@;
                        let interp = self.run(StopAt::InterpClose)?;
                        proof {
                            let sp = choose|sp: Seq<(int, int)>|
                                tokens_read(s, p + 2, self.pos as int, interp@, sp) && (false ==> trivia_end(
                                    s,
                                    spans_end(p + 2, sp),
                                ) == s.len()) && tokens_scanned(s, interp@, sp, pv);
                            assert(tokens_read(s, p + 2, self.pos as int, interp@, sp) && tokens_scanned(s, interp@, sp, pv));
                            assert(interp_read(s, p + 2, self.pos as int, interp@, pv));
                        }
                        let ghost iv = interp@;
                        elems.push(TemplateElem::Interp(interp));
                        proof {
                            let h: int = if seg0.len() == 0 { 0 } else { 1 };
                            let head = elems1.skip(elems0.len() as int);
                            assert(elems1 =~= elems0 + head);
                            assert(head.len() == h);
                            assert forall|rest: Seq<TemplateElem>|
                                #[trigger] template_elems(s, self.pos as int, self.prev_postfix, seg@, rest) implies template_elems(
                                s,
                                old(self).pos + 1,
                                old(self).prev_postfix,
                                seq![],
                                elems@ + rest,
                            ) by {
                                let r2 = head + seq![elems@.last()] + rest;
                                assert(r2.skip(h + 1) =~= rest);
                                assert(r2[h] == elems@.last());
                                assert(seg@ =~= Seq::<u16>::empty());
                                assert(template_elems(s, p, pv, seg0, r2));
                                assert(elems0 + r2 =~= elems@ + rest);
                            }
                        }
                    } else {
                        self.bump();
                        push_utf16(&mut seg, c);
                        proof {
                            assert forall|rest: Seq<TemplateElem>|
                                #[trigger] template_elems(s, self.pos as int, pv, seg@, rest) implies template_elems(
                                s,
                                old(self).pos + 1,
                                old(self).prev_postfix,
                                seq![],
                                elems@ + rest,
                            ) by {
                                assert(template_elems(s, p, pv, seg0, rest));
                            }
                        }
                    }
                },
            }
        }
    }

    /// One escape sequence (the backslash already consumed): appends the units
    /// it denotes.
    fn lex_escape(&mut self, out: &mut Vec<u16>) -> (r: Result<(), LexError>)
        requires
            old(self).inv(),
        ensures
            final(self).inv(),
            final(self).src == old(self).src,
            final(self).pos >= old(self).pos,
            final(self).prev_postfix == old(self).prev_postfix,
            r is Ok <==> escape_at(old(self).src@, old(self).pos as int) is Some,
            ({
                let e = escape_at(old(self).src@, old(self).pos as int);
                r is Ok ==> final(out)@ == old(out)@ + (e->0).0 && final(self).pos == (e->0).1
            }),
    {
        let ghost s = self.src@;
        let ghost p = self.pos as int;
        let c = match self.bump() {
            None => {
                return Err(self.err("unterminated escape sequence"));
            },
            Some(c) => c,
        };
        let ghost e = escape_at(s, p);
        proof {
            if simple_escape(c) is Some {
                assert(old(out)@.push(simple_escape(c)->0) == old(out)@ + seq![simple_escape(c)->0]);
            }
        }
        if c == 'n' {
            out.push(10);
        } else if c == 't' {
            out.push(9);
        } else if c == 'r' {
            out.push(13);
        } else if c == '0' {
            out.push(0);
        } else if c == 'b' {
            out.push(8);
        } else if c == 'f' {
            out.push(12);
        } else if c == 'v' {
            out.push(11);
        } else if c == '\\' {
            out.push(92);
        } else if c == '"' {
            out.push(34);
        } else if c == '\'' {
            out.push(39);
        } else if c == 'x' {
            let hi = self.hex_digits(2)?;
            out.push(hi as u16);
            assert(out@ == old(out)@ + seq![hi as u16]);
        } else if c == 'u' {
            if self.peek() == Some('{') {
                self.bump();
                let mut hex: Vec<char> = Vec::new();
                loop
                    invariant
                        self.inv(),
                        self.src == old(self).src,
                        self.prev_postfix == old(self).prev_postfix,
                        self.src@ == s,
                        0 <= p,
                        p + 2 <= self.pos <= s.len(),
                        hex@ == s.subrange(p + 2, self.pos as int),
                        forall|k: int| p + 2 <= k < self.pos ==> #[trigger] s[k] != '}',
                    ensures
                        self.inv(),
                        self.src == old(self).src,
                        self.prev_postfix == old(self).prev_postfix,
                        self.src@ == s,
                        0 <= p,
                        p + 2 <= self.pos <= s.len(),
                        hex@ == s.subrange(p + 2, self.pos as int),
                        forall|k: int| p + 2 <= k < self.pos ==> #[trigger] s[k] != '}',
                        self.pos == s.len() || s[self.pos as int] == '}',
                    decreases self.src@.len() - self.pos,
                {
                    match self.peek() {
                        None => break,
                        Some(ch) => {
                            if ch == '}' {
                                break;
                            }
                            assert(s.subrange(p + 2, self.pos + 1) == s.subrange(p + 2, self.pos as int).push(ch));
                            hex.push(ch);
                            self.bump();
                        },
                    }
                }
                proof {
                    lemma_close_brace(s, p + 2, self.pos as int);
                }
                if self.peek() != Some('}') {
                    return Err(self.err("unterminated `\\u{...}` escape"));
                }
                self.bump();
                let cp = match u32_from_hex(&hex) {
                    Some(v) => v,
                    None => {
                        return Err(self.err("invalid `\\u{...}` escape"));
                    },
                };
                let ch = match char_from_u32(cp) {
                    Some(ch) => ch,
                    None => {
                        return Err(self.err("invalid Unicode scalar in escape"));
                    },
                };
                push_utf16(out, ch);
                assert(ch as nat == cp as nat);
                assert(out@ == old(out)@ + code_utf16(cp as nat));
            } else {
                let unit = self.hex_digits(4)?;
                out.push(unit as u16);
                assert(out@ == old(out)@ + seq![unit as u16]);
            }
        } else {
            let mut m = string_of("unknown escape `\\");
            string_push(&mut m, c);
            string_push(&mut m, '`');
            return Err(LexError { message: m, line: self.line });
        }
        Ok(())
    }

    /// Exactly `n` hexadecimal digits, as a number.
    fn hex_digits(&mut self, n: usize) -> (r: Result<u32, LexError>)
        requires
            old(self).inv(),
            n <= 4,
        ensures
            final(self).inv(),
            final(self).src == old(self).src,
            final(self).pos >= old(self).pos,
            final(self).prev_postfix == old(self).prev_postfix,
            r matches Ok(v) ==> final(self).pos == old(self).pos + n && all_digits(
                old(self).src@.subrange(old(self).pos as int, old(self).pos + n),
                16,
            ) && v == digits_value(old(self).src@.subrange(old(self).pos as int, old(self).pos + n), 16),
            r is Err ==> !(old(self).pos + n <= old(self).src@.len() && all_digits(
                old(self).src@.subrange(old(self).pos as int, old(self).pos + n),
                16,
            )),
    {
        let start = self.pos;
        let mut value: u32 = 0;
        let mut k: usize = 0;
        proof {
            reveal_with_fuel(pow16, 5);
            assert(self.src@.subrange(start as int, start as int) =~= Seq::<char>::empty());
        }
        while k < n
            invariant
                self.inv(),
                self.src == old(self).src,
                self.prev_postfix == old(self).prev_postfix,
                start == old(self).pos,
                self.pos == start + k,
                k <= n,
                n <= 4,
                start + k <= self.src@.len(),
                all_digits(self.src@.subrange(start as int, start + k), 16),
                value == digits_value(self.src@.subrange(start as int, start + k), 16),
                value < pow16(k as nat),
                pow16(0) == 1 && pow16(1) == 16 && pow16(2) == 256 && pow16(3) == 4096 && pow16(4) == 65536,
            decreases n - k,
        {
            let c = match self.peek() {
                None => {
                    return Err(self.err("unterminated hex escape"));
                },
                Some(c) => c,
            };
            let d = char_digit(c);
            if d >= 16 {
                proof {
                    if start + n <= self.src@.len() {
                        assert(self.src@.subrange(start as int, start + n)[k as int] == c);
                    }
                }
                let mut m = string_of("invalid hex digit `");
                string_push(&mut m, c);
                string_push(&mut m, '`');
                m.append(" in escape");
                return Err(LexError { message: m, line: self.line });
            }
            proof {
                let before = self.src@.subrange(start as int, start + k);
                let after = self.src@.subrange(start as int, start + k + 1);
                assert(after.drop_last() == before);
                assert(after.last() == c);
                assert(value * 16 + d < pow16((k + 1) as nat)) by (nonlinear_arith)
                    requires
                        value < pow16(k as nat),
                        d < 16,
                        pow16((k + 1) as nat) == pow16(k as nat) * 16,
                ;
            }
            value = value * 16 + d;
            self.bump();
            k = k + 1;
        }
        Ok(value)
    }
}

proof fn lemma_close_brace(s: Seq<char>, i: int, j: int)
    requires
        0 <= i <= j <= s.len(),
        forall|k: int| i <= k < j ==> #[trigger] s[k] != '}',
        j == s.len() || s[j] == '}',
    ensures
        close_brace(s, i) == j,
    decreases j - i,
{
    if i < j {
        lemma_close_brace(s, i + 1, j);
    }
}

proof fn lemma_prepend_assoc(a: Seq<u16>, b: Seq<u16>, o: Option<(Seq<u16>, int)>)
    ensures
        prepend_units(a, prepend_units(b, o)) == prepend_units(a + b, o),
{
    if let Some((v, e)) = o {
        assert(a + (b + v) == (a + b) + v);
    }
}

proof fn lemma_close_brace_after(s: Seq<char>, i: int)
    ensures
        close_brace(s, i) >= i,
    decreases s.len() - i,
{
    if !(i < 0 || i >= s.len() || s[i] == '}') {
        lemma_close_brace_after(s, i + 1);
    }
}

/// An escape ends past its first character.
proof fn lemma_escape_end(s: Seq<char>, p: int)
    requires
        escape_at(s, p) is Some,
    ensures
        (escape_at(s, p)->0).1 > p,
{
    lemma_close_brace_after(s, p + 2);
}

/// `16^k` for the small exponents of hex escapes.
spec fn pow16(k: nat) -> nat
    decreases k,
{
    if k == 0 {
        1
    } else {
        pow16((k - 1) as nat) * 16
    }
}

proof fn lemma_digits_step(before: Seq<char>, c: char)
    requires
        all_digits(before, 10),
        is_dec(c),
    ensures
        digits_value(before.push(c), 10) == digits_value(before, 10) * 10 + (c as nat - '0' as nat),
{
    assert(before.push(c).drop_last() == before);
}

/// The digit `c` denotes (36 when it is not a digit of any base up to 36).
fn char_digit(c: char) -> (r: u32)
    ensures
        r == digit_of(c),
{
    if '0' <= c && c <= '9' {
        (c as u32) - ('0' as u32)
    } else if 'a' <= c && c <= 'z' {
        (c as u32) - ('a' as u32) + 10
    } else if 'A' <= c && c <= 'Z' {
        (c as u32) - ('A' as u32) + 10
    } else {
        36
    }
}

/// `u32::from_str_radix(s, 16)`: an optional `+`, then hexadecimal digits
/// whose value fits a `u32`.
fn u32_from_hex(s: &Vec<char>) -> (r: Option<u32>)
    ensures
        r == hex_u32(s@),
{
    let start: usize = if s.len() > 0 && s[0] == '+' { 1 } else { 0 };
    let ghost d = if s@.len() > 0 && s@[0] == '+' { s@.drop_first() } else { s@ };
    assert(d == s@.subrange(start as int, s@.len() as int));
    if start == s.len() {
        return None;
    }
    let mut value: u64 = 0;
    let mut i = start;
    while i < s.len()
        invariant
            start <= i <= s@.len(),
            d == s@.subrange(start as int, s@.len() as int),
            d == (if s@.len() > 0 && s@[0] == '+' { s@.drop_first() } else { s@ }),
            all_digits(s@.subrange(start as int, i as int), 16),
            value == digits_value(s@.subrange(start as int, i as int), 16),
            value <= u32::MAX,
        decreases s@.len() - i,
    {
        let dv = char_digit(s[i]);
        proof {
            let before = s@.subrange(start as int, i as int);
            let after = s@.subrange(start as int, i + 1);
            assert(after.drop_last() == before);
            assert(after.last() == s@[i as int]);
        }
        if dv >= 16 {
            assert(d[i - start] == s@[i as int]);
            assert(digit_of(d[i - start]) >= 16);
            assert(!all_digits(d, 16));
            return None;
        }
        let next = value * 16 + dv as u64;
        if next > 4294967295 {
            proof {
                assert(s@.subrange(start as int, i + 1) == d.subrange(0, i + 1 - start));
                assert(digits_value(s@.subrange(start as int, i + 1), 16) == next);
                if all_digits(d, 16) {
                    lemma_hex_monotone(d, (i + 1 - start) as int);
                }
            }
            return None;
        }
        value = next;
        i = i + 1;
    }
    assert(s@.subrange(start as int, i as int) == d);
    Some(value as u32)
}

proof fn lemma_hex_monotone(s: Seq<char>, i: int)
    requires
        0 <= i <= s.len(),
    ensures
        all_digits(s, 16) ==> digits_value(s.subrange(0, i), 16) <= digits_value(s, 16),
    decreases s.len() - i,
{
    if i < s.len() {
        lemma_hex_monotone(s, i + 1);
        assert(s.subrange(0, i + 1).drop_last() == s.subrange(0, i));
    } else {
        assert(s.subrange(0, i) == s);
    }
}

/// Append `src` to `dst`.
/// `s` without its `_` digit separators.
pub open spec fn strip_seps(s: Seq<char>) -> Seq<char>
    decreases s.len(),
{
    if s.len() == 0 {
        s
    } else if s.last() == '_' {
        strip_seps(s.drop_last())
    } else {
        strip_seps(s.drop_last()).push(s.last())
    }
}

/// Where a run of digits in `radix`, `_` separators among them, that starts
/// at `p` ends.
pub open spec fn digits_end(s: Seq<char>, p: int, radix: nat) -> int
    decreases s.len() - p,
{
    if p < 0 || p >= s.len() || (s[p] != '_' && digit_of(s[p]) >= radix) {
        p
    } else {
        digits_end(s, p + 1, radix)
    }
}

/// Where an optional exponent `(e|E)[+|-]digits` at `p` ends, or `None`
/// when its marker stands without digits.
pub open spec fn exponent_end(s: Seq<char>, p: int) -> Option<int> {
    if 0 <= p < s.len() && (s[p] == 'e' || s[p] == 'E') {
        let q = if p + 1 < s.len() && (s[p + 1] == '+' || s[p + 1] == '-') { p + 2 } else { p + 1 };
        let d = digits_end(s, q, 10);
        if strip_seps(s.subrange(q, d)).len() == 0 {
            None
        } else {
            Some(d)
        }
    } else {
        Some(p)
    }
}

/// Where the numeral at `a` ends, or `None` when it does not lex: a base
/// prefix without digits, a leading zero before a digit, a trailing dot, no
/// digits at all, an exponent marker without digits, a BigInt `n` suffix,
/// or a decimal text that denotes no number.
pub open spec fn number_end(s: Seq<char>, a: int) -> Option<int> {
    let radix = base_radix(s, a);
    if radix != 0 {
        let d = digits_end(s, a + 2, radix);
        if strip_seps(s.subrange(a + 2, d)).len() == 0 || (d < s.len() && s[d] == 'n') {
            None
        } else {
            Some(d)
        }
    } else if 0 <= a && a + 1 < s.len() && s[a] == '0' && is_dec(s[a + 1]) {
        None
    } else {
        let i1 = digits_end(s, a, 10);
        let dot = i1 < s.len() && s[i1] == '.';
        if dot && (i1 + 1 >= s.len() || !(is_dec(s[i1 + 1]) || s[i1 + 1] == '.' || ident_start(s[i1 + 1]))) {
            None
        } else {
            let i2 = if dot && is_dec(s[i1 + 1]) { digits_end(s, i1 + 1, 10) } else { i1 };
            if strip_seps(s.subrange(a, i1)).len() == 0 && i2 == i1 {
                None
            } else {
                match exponent_end(s, i2) {
                    None => None,
                    Some(e) => if (e < s.len() && s[e] == 'n') || decimal_literal(
                        numeral_text(strip_seps(s.subrange(a, e))),
                    ) is None {
                        None
                    } else {
                        Some(e)
                    },
                }
            }
        }
    }
}

/// What the lexer's driver needs of a token: whether it opens or closes a
/// brace, or else whether it can end a postfix target.
pub enum Shape {
    Open,
    Close,
    Postfix,
    Plain,
}

/// The shape of a token kind.
pub open spec fn shape_of(k: TokenKind) -> Shape {
    if k is LBrace {
        Shape::Open
    } else if k is RBrace {
        Shape::Close
    } else if ends_postfix(k) {
        Shape::Postfix
    } else {
        Shape::Plain
    }
}

/// Where the maximal run of identifier characters from `i` ends.
pub open spec fn ident_end(s: Seq<char>, i: int) -> int
    decreases s.len() - i,
{
    if i < 0 || i >= s.len() || !ident_continue(s[i]) {
        i
    } else {
        ident_end(s, i + 1)
    }
}

/// An operator or punctuation token at `p`: where it ends and its shape, or
/// `None` for a character that starts no token (a leading-dot numeral that
/// does not lex included).
pub open spec fn operator_scan(s: Seq<char>, p: int, prev: bool) -> Option<(int, Shape)> {
    match first_op(s, p, 0) {
        Some(i) => Some((p + op_table()[i].0.len(), shape_of(op_table()[i].1))),
        None => if s[p] == '?' && p + 1 < s.len() && s[p + 1] == '.' {
            if p + 2 < s.len() && is_dec(s[p + 2]) {
                Some((p + 1, Shape::Plain))
            } else {
                Some((p + 2, Shape::Plain))
            }
        } else if s[p] == '.' {
            if p + 1 < s.len() && is_dec(s[p + 1]) && !prev {
                match number_end(s, p) {
                    Some(e) => Some((e, Shape::Postfix)),
                    None => None,
                }
            } else {
                Some((p + 1, Shape::Plain))
            }
        } else {
            match single_char(s[p]) {
                Some(k) => Some((p + 1, shape_of(k))),
                None => None,
            }
        },
    }
}

/// The token at `q` (after `prev`, whether the previous token can end a
/// postfix target): where it ends and its shape, or `None` when it does not
/// lex.
pub open spec fn token_scan(s: Seq<char>, q: int, prev: bool) -> Option<(int, Shape)>
    decreases s.len() - q, 1int,
{
    if q < 0 || q >= s.len() {
        None
    } else if s[q] == '"' {
        match string_body(s, q + 1) {
            Some((_, e)) => Some((e, Shape::Postfix)),
            None => None,
        }
    } else if s[q] == '`' {
        match template_scan(s, q + 1, prev) {
            Some((e, _)) => Some((e, Shape::Postfix)),
            None => None,
        }
    } else if s[q] == '_' {
        if hole_index_ok(s, q) {
            Some((q + 1 + dec_run(s, q + 1), Shape::Postfix))
        } else {
            None
        }
    } else if is_dec(s[q]) {
        match number_end(s, q) {
            Some(e) => Some((e, Shape::Postfix)),
            None => None,
        }
    } else if ident_start(s[q]) {
        Some((ident_end(s, q), Shape::Postfix))
    } else {
        operator_scan(s, q, prev)
    }
}

/// The body of a template literal from `p` (after the backtick): where it
/// ends, after the closing backtick, and the postfix flag its last
/// interpolation leaves; or `None` when it is unterminated or a part does
/// not lex.
pub open spec fn template_scan(s: Seq<char>, p: int, prev: bool) -> Option<(int, bool)>
    decreases s.len() - p, 0int,
{
    if p < 0 || p >= s.len() {
        None
    } else if s[p] == '`' {
        Some((p + 1, prev))
    } else if s[p] == '\\' {
        if p + 1 < s.len() && (s[p + 1] == '`' || s[p + 1] == '$') {
            template_scan(s, p + 2, prev)
        } else {
            match escape_at(s, p + 1) {
                Some((_, e)) => if p < e <= s.len() {
                    template_scan(s, e, prev)
                } else {
                    None
                },
                None => None,
            }
        }
    } else if s[p] == '$' && p + 1 < s.len() && s[p + 1] == '{' {
        match run_scan(s, p + 2, 0, prev, true) {
            Some((e, pr)) => if p < e <= s.len() {
                template_scan(s, e, pr)
            } else {
                None
            },
            None => None,
        }
    } else {
        template_scan(s, p + 1, prev)
    }
}

/// The tokens of an interpolation, read from `s[from..to]` after a token
/// whose postfix flag is `prev`.
pub open spec fn interp_read(s: Seq<char>, from: int, to: int, toks: Seq<Token>, prev: bool) -> bool {
    exists|spans: Seq<(int, int)>| tokens_read(s, from, to, toks, spans) && tokens_scanned(s, toks, spans, prev)
}

/// The elements of a template body from `p` up to its closing backtick:
/// literal runs (the run so far, `seg`, in front; escapes decoded, a
/// backslash before a backtick or `$` keeping that character) and, for each
/// `${...}`, the tokens of the interpolation. A run is an element only where
/// it is not empty.
pub open spec fn template_elems(s: Seq<char>, p: int, prev: bool, seg: Seq<u16>, es: Seq<TemplateElem>) -> bool
    decreases s.len() - p,
{
    if p < 0 || p >= s.len() {
        false
    } else if s[p] == '`' {
        if seg.len() == 0 {
            es.len() == 0
        } else {
            es.len() == 1 && (es[0] matches TemplateElem::Str(u) && u@ == seg)
        }
    } else if s[p] == '\\' {
        if p + 1 < s.len() && (s[p + 1] == '`' || s[p + 1] == '$') {
            template_elems(s, p + 2, prev, seg + char_utf16(s[p + 1]), es)
        } else {
            match escape_at(s, p + 1) {
                Some((u, e)) => p < e <= s.len() && template_elems(s, e, prev, seg + u, es),
                None => false,
            }
        }
    } else if s[p] == '$' && p + 1 < s.len() && s[p + 1] == '{' {
        let h: int = if seg.len() == 0 { 0 } else { 1 };
        match run_scan(s, p + 2, 0, prev, true) {
            Some((e, pr)) => {
                &&& p < e <= s.len()
                &&& es.len() > h
                &&& seg.len() > 0 ==> (es[0] matches TemplateElem::Str(u) && u@ == seg)
                &&& es[h] matches TemplateElem::Interp(v) && interp_read(s, p + 2, e, v@, prev)
                &&& template_elems(s, e, pr, seq![], es.skip(h + 1))
            },
            None => false,
        }
    } else {
        template_elems(s, p + 1, prev, seg + char_utf16(s[p]), es)
    }
}

/// Each template token holds the elements its source reads as.
pub open spec fn templates_read(s: Seq<char>, toks: Seq<Token>, spans: Seq<(int, int)>, prev: bool) -> bool {
    forall|i: int|
        0 <= i < toks.len() ==> (toks[i].kind matches TokenKind::Template(es) ==> template_elems(
            s,
            spans[i].0 + 1,
            #[trigger] prev_at(toks, i, prev),
            seq![],
            es@,
        ))
}

/// The brace depth after a token of shape `sh` (saturating at the `u32`
/// limits).
pub open spec fn next_depth(d: nat, sh: Shape) -> nat {
    match sh {
        Shape::Open => if d < u32::MAX { d + 1 } else { d },
        Shape::Close => if d > 0 { (d - 1) as nat } else { 0 },
        _ => d,
    }
}

/// A token stream from `p`, at brace depth `depth`: to the end of input, or
/// (`interp`) through the `}` that closes a template interpolation at depth
/// zero. Where it ends and the postfix flag of its last token, or `None`
/// when a token does not lex or an interpolation is unterminated.
pub open spec fn run_scan(s: Seq<char>, p: int, depth: nat, prev: bool, interp: bool) -> Option<(int, bool)>
    decreases s.len() - p, 2int,
{
    if p < 0 || p > s.len() {
        None
    } else {
        let q = trivia_end(s, p);
        if q < p || q > s.len() {
            None
        } else if q == s.len() {
            if interp {
                None
            } else {
                Some((q, prev))
            }
        } else if interp && s[q] == '}' && depth == 0 {
            Some((q + 1, prev))
        } else {
            match token_scan(s, q, prev) {
                Some((e, sh)) => if q < e <= s.len() {
                    run_scan(s, e, next_depth(depth, sh), sh is Postfix || sh is Close, interp)
                } else {
                    None
                },
                None => None,
            }
        }
    }
}

proof fn lemma_ident_end(s: Seq<char>, start: int, end: int)
    requires
        0 <= start <= end <= s.len(),
        forall|k: int| start <= k < end ==> ident_continue(#[trigger] s[k]),
        end == s.len() || !ident_continue(s[end]),
    ensures
        ident_end(s, start) == end,
    decreases end - start,
{
    if start < end {
        lemma_ident_end(s, start + 1, end);
    }
}

/// The radix a `0x`/`0o`/`0b` prefix at `a` selects, or 0 where none stands.
pub open spec fn base_radix(s: Seq<char>, a: int) -> nat {
    if 0 <= a && a + 1 < s.len() && s[a] == '0' {
        let c = s[a + 1];
        if c == 'x' || c == 'X' {
            16
        } else if c == 'o' || c == 'O' {
            8
        } else if c == 'b' || c == 'B' {
            2
        } else {
            0
        }
    } else {
        0
    }
}

/// The exponent marker written lower-case.
pub open spec fn exp_lower(c: char) -> char {
    if c == 'E' {
        'e'
    } else {
        c
    }
}

/// The canonical text of a decimal numeral written `t` (separators removed):
/// a bare leading `.` gains a `0`, and the exponent marker is lower-case.
pub open spec fn numeral_text(t: Seq<char>) -> Seq<char> {
    let u = t.map_values(|c: char| exp_lower(c));
    if t.len() > 0 && t[0] == '.' {
        seq!['0'] + u
    } else {
        u
    }
}

/// The numeral written at `src[a..e]` denotes the fraction `n`: a prefixed
/// integer the value of its digits in its radix, a decimal the value of its
/// canonical text.
pub open spec fn numeral_denotes(src: Seq<char>, a: int, e: int, n: (int, int)) -> bool {
    if base_radix(src, a) != 0 {
        n == (digits_value(strip_seps(src.subrange(a + 2, e)), base_radix(src, a)) as int, 1int)
    } else {
        let lit = decimal_literal(numeral_text(strip_seps(src.subrange(a, e))));
        lit is Some && same_value(n, lit->0)
    }
}

proof fn lemma_strip_concat(x: Seq<char>, y: Seq<char>)
    ensures
        strip_seps(x + y) == strip_seps(x) + strip_seps(y),
    decreases y.len(),
{
    if y.len() == 0 {
        assert(x + y == x);
        assert(strip_seps(x) + strip_seps(y) == strip_seps(x));
    } else {
        lemma_strip_concat(x, y.drop_last());
        assert((x + y).drop_last() == x + y.drop_last());
        assert((x + y).last() == y.last());
        if y.last() != '_' {
            assert(strip_seps(x) + strip_seps(y.drop_last()).push(y.last()) == (strip_seps(x) + strip_seps(
                y.drop_last(),
            )).push(y.last()));
        }
    }
}

proof fn lemma_strip_single(x: Seq<char>)
    requires
        x.len() == 1,
    ensures
        strip_seps(x) == if x[0] == '_' { Seq::<char>::empty() } else { x },
{
    assert(x.drop_last().len() == 0);
    assert(strip_seps(x.drop_last()) == Seq::<char>::empty());
    assert(Seq::<char>::empty().push(x[0]) == x);
}

/// The lexeme assembled from a decimal literal's parts is the canonical text
/// of what the source wrote.
proof fn lemma_numeral_text(
    int_part: Seq<char>,
    frac: Seq<char>,
    exp: Seq<char>,
    marker: char,
    text: Seq<char>,
    lexeme: Seq<char>,
)
    requires
        all_digits(int_part, 10),
        all_digits(frac, 10),
        forall|j: int| 0 <= j < exp.len() ==> #[trigger] exp[j] != 'E',
        marker == 'e' || marker == 'E',
        int_part.len() > 0 || frac.len() > 0,
        text == int_part + (if frac.len() > 0 { seq!['.'] + frac } else { Seq::<char>::empty() }) + (
        if exp.len() > 0 {
            seq![marker] + exp
        } else {
            Seq::<char>::empty()
        }),
        lexeme == (if int_part.len() == 0 { seq!['0'] } else { int_part }) + (if frac.len() > 0 {
            seq!['.'] + frac
        } else {
            Seq::<char>::empty()
        }) + (if exp.len() > 0 { seq!['e'] + exp } else { Seq::<char>::empty() }),
    ensures
        lexeme == numeral_text(text),
{
    let d = if frac.len() > 0 { seq!['.'] + frac } else { Seq::<char>::empty() };
    let x = if exp.len() > 0 { seq!['e'] + exp } else { Seq::<char>::empty() };
    let u = text.map_values(|c: char| exp_lower(c));
    assert forall|j: int| 0 <= j < int_part.len() implies #[trigger] int_part[j] != 'E' && int_part[j] != '.' by {
        assert(digit_of(int_part[j]) < 10);
    }
    assert forall|j: int| 0 <= j < frac.len() implies #[trigger] frac[j] != 'E' by {
        assert(digit_of(frac[j]) < 10);
    }
    assert(u =~= int_part + d + x);
    if int_part.len() == 0 {
        assert(text[0] == '.');
    } else {
        assert(text[0] == int_part[0]);
    }
}

fn append_chars(dst: &mut Vec<char>, src: &Vec<char>)
    ensures
        final(dst)@ == old(dst)@ + src@,
{
    let mut k: usize = 0;
    while k < src.len()
        invariant
            k <= src@.len(),
            dst@ == old(dst)@ + src@.subrange(0, k as int),
        decreases src@.len() - k,
    {
        dst.push(src[k]);
        assert(src@.subrange(0, k + 1) == src@.subrange(0, k as int).push(src@[k as int]));
        k = k + 1;
    }
    assert(src@.subrange(0, src@.len() as int) == src@);
}

/// Identifier start: alphabetic, never `_` or `$`.
fn is_ident_start(c: char) -> (r: bool)
    ensures
        r == ident_start(c),
{
    c != '_' && c != '$' && is_alphabetic(c)
}

/// Identifier continuation: alphanumeric, never `_` or `$`.
fn is_ident_continue(c: char) -> (r: bool)
    ensures
        r == ident_continue(c),
{
    c != '_' && c != '$' && is_alphanumeric(c)
}

} // verus!
