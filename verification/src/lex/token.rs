//! Tokens — the lexer's output.
//!
//! Literals are resolved during lexing, so `Number` already carries an exact
//! [`Rational`] and `Str` already carries UTF-16 code units. Every token
//! records its source line.

use crate::rational::Rational;
use vstd::prelude::*;

verus! {

/// A lexed token with its source line (1-based).
#[derive(Debug, PartialEq)]
pub struct Token {
    pub kind: TokenKind,
    pub line: u32,
}

impl Token {
    pub fn new(kind: TokenKind, line: u32) -> (r: Token)
        ensures
            r.kind == kind,
            r.line == line,
    {
        Token { kind, line }
    }
}

/// One element of a template literal: a literal segment (UTF-16) or an
/// interpolation, kept as a pre-lexed token stream.
#[derive(Debug, PartialEq)]
pub enum TemplateElem {
    Str(Vec<u16>),
    Interp(Vec<Token>),
}

#[derive(Debug, PartialEq)]
pub enum TokenKind {
    /// A numeric literal, resolved to an exact rational.
    Number(Rational),
    /// A string literal with escapes resolved to UTF-16.
    Str(Vec<u16>),
    /// A template literal; segments and interpolations interleaved.
    Template(Vec<TemplateElem>),
    /// An identifier (contextual keywords and `true`/`false`/`null` included).
    Ident(String),
    /// The plain hole / wildcard `_`.
    Underscore,
    /// An indexed hole `_n`.
    IndexedHole(u32),
    LParen,
    RParen,
    LBracket,
    RBracket,
    LBrace,
    RBrace,
    Comma,
    Dot,
    DotDotDot,
    FatArrow,
    ColonColon,
    PipeGt,
    LtPipe,
    Hash,
    Question,
    Colon,
    QuestionDot,
    QuestionQuestion,
    PipePipe,
    AmpAmp,
    EqEq,
    BangEq,
    Lt,
    Le,
    Gt,
    Ge,
    Plus,
    Minus,
    Star,
    Slash,
    Percent,
    StarStar,
    Bang,
    Tilde,
    Eq,
    At,
    Caret,
    Pipe,
    ColonEq,
    PlusEq,
    MinusEq,
    StarEq,
    SlashEq,
    PercentEq,
    StarStarEq,
    AmpAmpEq,
    PipePipeEq,
    QuestionQuestionEq,
    /// End of input.
    Eof,
}

/// Whether a token kind can end a postfix target (`a.5` is member access,
/// `? .5` a number).
pub open spec fn ends_postfix(k: TokenKind) -> bool {
    k is Ident || k is Number || k is Str || k is Template || k is Underscore || k is IndexedHole
        || k is RParen || k is RBracket || k is RBrace
}

impl TokenKind {
    /// Whether this token can end a postfix target.
    pub fn ends_postfix_target(&self) -> (r: bool)
        ensures
            r == ends_postfix(*self),
    {
        match self {
            TokenKind::Ident(_) | TokenKind::Number(_) | TokenKind::Str(_) | TokenKind::Template(_)
            | TokenKind::Underscore | TokenKind::IndexedHole(_) | TokenKind::RParen
            | TokenKind::RBracket | TokenKind::RBrace => true,
            _ => false,
        }
    }
}

/// Structural equality of token kinds: literals and names by their views.
pub open spec fn kind_deq(a: TokenKind, b: TokenKind) -> bool
    decreases a,
{
    match a {
        TokenKind::Number(n) => (b matches TokenKind::Number(m) && m@ == n@),
        TokenKind::Str(u) => (b matches TokenKind::Str(v) && v@ == u@),
        TokenKind::Template(es) => (b matches TokenKind::Template(fs) && elems_deq(es@, fs@)),
        TokenKind::Ident(x) => (b matches TokenKind::Ident(y) && y@ == x@),
        _ => b == a,
    }
}

pub open spec fn elems_deq(a: Seq<TemplateElem>, b: Seq<TemplateElem>) -> bool
    decreases a,
{
    a.len() == b.len() && forall|i: int| 0 <= i < a.len() ==> elem_deq(#[trigger] a[i], b[i])
}

/// Structural equality of template elements.
pub open spec fn elem_deq(a: TemplateElem, b: TemplateElem) -> bool
    decreases a,
{
    match a {
        TemplateElem::Str(u) => (b matches TemplateElem::Str(v) && v@ == u@),
        TemplateElem::Interp(ts) => (b matches TemplateElem::Interp(us) && tokens_deq(ts@, us@)),
    }
}

pub open spec fn tokens_deq(a: Seq<Token>, b: Seq<Token>) -> bool
    decreases a,
{
    a.len() == b.len() && forall|i: int| 0 <= i < a.len() ==> token_deq(#[trigger] a[i], b[i])
}

/// Structural equality of tokens.
pub open spec fn token_deq(a: Token, b: Token) -> bool
    decreases a,
{
    b.line == a.line && kind_deq(a.kind, b.kind)
}

/// A copy of a token kind.
pub fn clone_kind(k: &TokenKind) -> (r: TokenKind)
    ensures
        kind_deq(*k, r),
    decreases k,
{
    match k {
        TokenKind::Number(n) => TokenKind::Number(n.clone()),
        TokenKind::Str(u) => TokenKind::Str(crate::text::clone_units(u)),
        TokenKind::Template(elems) => {
            let mut out: Vec<TemplateElem> = Vec::new();
            let mut i: usize = 0;
            while i < elems.len()
                invariant
                    i <= elems@.len(),
                    *k == TokenKind::Template(*elems),
                    out@.len() == i,
                    forall|j: int| 0 <= j < i ==> elem_deq(#[trigger] elems@[j], out@[j]),
                decreases elems@.len() - i,
            {
                proof {
                    broadcast use vstd::std_specs::vec::axiom_vec_index_decreases;
                    assert(decreases_to!(*elems => elems[i as int]));
                    assert(decreases_to!(*k => k->Template_0));
                    assert(decreases_to!(*k => elems[i as int]));
                }
                out.push(clone_elem(&elems[i]));
                i = i + 1;
            }
            TokenKind::Template(out)
        },
        TokenKind::Ident(s) => TokenKind::Ident(s.clone()),
        TokenKind::Underscore => TokenKind::Underscore,
        TokenKind::IndexedHole(n) => TokenKind::IndexedHole(*n),
        TokenKind::LParen => TokenKind::LParen,
        TokenKind::RParen => TokenKind::RParen,
        TokenKind::LBracket => TokenKind::LBracket,
        TokenKind::RBracket => TokenKind::RBracket,
        TokenKind::LBrace => TokenKind::LBrace,
        TokenKind::RBrace => TokenKind::RBrace,
        TokenKind::Comma => TokenKind::Comma,
        TokenKind::Dot => TokenKind::Dot,
        TokenKind::DotDotDot => TokenKind::DotDotDot,
        TokenKind::FatArrow => TokenKind::FatArrow,
        TokenKind::ColonColon => TokenKind::ColonColon,
        TokenKind::PipeGt => TokenKind::PipeGt,
        TokenKind::LtPipe => TokenKind::LtPipe,
        TokenKind::Hash => TokenKind::Hash,
        TokenKind::Question => TokenKind::Question,
        TokenKind::Colon => TokenKind::Colon,
        TokenKind::QuestionDot => TokenKind::QuestionDot,
        TokenKind::QuestionQuestion => TokenKind::QuestionQuestion,
        TokenKind::PipePipe => TokenKind::PipePipe,
        TokenKind::AmpAmp => TokenKind::AmpAmp,
        TokenKind::EqEq => TokenKind::EqEq,
        TokenKind::BangEq => TokenKind::BangEq,
        TokenKind::Lt => TokenKind::Lt,
        TokenKind::Le => TokenKind::Le,
        TokenKind::Gt => TokenKind::Gt,
        TokenKind::Ge => TokenKind::Ge,
        TokenKind::Plus => TokenKind::Plus,
        TokenKind::Minus => TokenKind::Minus,
        TokenKind::Star => TokenKind::Star,
        TokenKind::Slash => TokenKind::Slash,
        TokenKind::Percent => TokenKind::Percent,
        TokenKind::StarStar => TokenKind::StarStar,
        TokenKind::Bang => TokenKind::Bang,
        TokenKind::Tilde => TokenKind::Tilde,
        TokenKind::Eq => TokenKind::Eq,
        TokenKind::At => TokenKind::At,
        TokenKind::Caret => TokenKind::Caret,
        TokenKind::Pipe => TokenKind::Pipe,
        TokenKind::ColonEq => TokenKind::ColonEq,
        TokenKind::PlusEq => TokenKind::PlusEq,
        TokenKind::MinusEq => TokenKind::MinusEq,
        TokenKind::StarEq => TokenKind::StarEq,
        TokenKind::SlashEq => TokenKind::SlashEq,
        TokenKind::PercentEq => TokenKind::PercentEq,
        TokenKind::StarStarEq => TokenKind::StarStarEq,
        TokenKind::AmpAmpEq => TokenKind::AmpAmpEq,
        TokenKind::PipePipeEq => TokenKind::PipePipeEq,
        TokenKind::QuestionQuestionEq => TokenKind::QuestionQuestionEq,
        TokenKind::Eof => TokenKind::Eof,
    }
}

/// A copy of a template element.
pub fn clone_elem(e: &TemplateElem) -> (r: TemplateElem)
    ensures
        elem_deq(*e, r),
    decreases e,
{
    match e {
        TemplateElem::Str(u) => TemplateElem::Str(crate::text::clone_units(u)),
        TemplateElem::Interp(toks) => {
            let mut out: Vec<Token> = Vec::new();
            let mut i: usize = 0;
            while i < toks.len()
                invariant
                    i <= toks@.len(),
                    *e == TemplateElem::Interp(*toks),
                    out@.len() == i,
                    forall|j: int| 0 <= j < i ==> token_deq(#[trigger] toks@[j], out@[j]),
                decreases toks@.len() - i,
            {
                proof {
                    broadcast use vstd::std_specs::vec::axiom_vec_index_decreases;
                    assert(decreases_to!(*toks => toks[i as int]));
                    assert(decreases_to!(*e => e->Interp_0));
                    assert(decreases_to!(*e => toks[i as int]));
                }
                out.push(clone_token(&toks[i]));
                i = i + 1;
            }
            TemplateElem::Interp(out)
        },
    }
}

/// A copy of a token.
pub fn clone_token(t: &Token) -> (r: Token)
    ensures
        token_deq(*t, r),
    decreases t,
{
    Token { kind: clone_kind(&t.kind), line: t.line }
}

impl Clone for TokenKind {
    fn clone(&self) -> (r: Self)
        ensures
            kind_deq(*self, r),
    {
        clone_kind(self)
    }
}

impl Clone for TemplateElem {
    fn clone(&self) -> (r: Self)
        ensures
            elem_deq(*self, r),
    {
        clone_elem(self)
    }
}

impl Clone for Token {
    fn clone(&self) -> (r: Self)
        ensures
            token_deq(*self, r),
    {
        clone_token(self)
    }
}

} // verus!
