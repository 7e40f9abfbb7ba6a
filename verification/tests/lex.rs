use next::lex::lexer::lex;
use next::lex::token::TokenKind::{
    Bang, Caret, Colon, ColonColon, ColonEq, Dot, DotDotDot, FatArrow, IndexedHole, LBrace, LBracket, LParen, Le, Lt, LtPipe, Minus, PipeGt, PipePipe, Plus, PlusEq, Question, QuestionDot, QuestionQuestionEq, RBrace, RBracket, RParen, StarStar, StarStarEq, Tilde, Underscore,
};
use next::lex::token::{TemplateElem, Token, TokenKind};
use next::rational::Rational;

/// Lex to token kinds, dropping the trailing `Eof`.
fn kinds(src: &str) -> Vec<TokenKind> {
    let mut toks = lex(src).expect("lex ok");
    assert_eq!(toks.pop().map(|t| t.kind), Some(TokenKind::Eof));
    toks.into_iter().map(|t| t.kind).collect()
}

fn num(s: &str) -> TokenKind {
    TokenKind::Number(Rational::from_decimal(s).unwrap())
}

fn whole(n: i64) -> TokenKind {
    TokenKind::Number(Rational::from(n))
}

fn ident(s: &str) -> TokenKind {
    TokenKind::Ident(s.to_string())
}

fn s(text: &str) -> Vec<u16> {
    text.encode_utf16().collect()
}

#[test]
fn slice_lexing_t2() {
    assert_eq!(kinds("1...3"), vec![whole(1), DotDotDot, whole(3)]);
    assert_eq!(kinds("t[-2...]"), vec![ident("t"), LBracket, Minus, whole(2), DotDotDot, RBracket]);
}

#[test]
fn question_dot_digit_lookahead_t1() {
    assert_eq!(kinds("a ?.5 : b"), vec![ident("a"), Question, num("0.5"), Colon, ident("b")]);
    assert_eq!(kinds("a?.b"), vec![ident("a"), QuestionDot, ident("b")]);
}

#[test]
fn member_access_vs_leading_dot_number() {
    assert_eq!(kinds("a.b"), vec![ident("a"), Dot, ident("b")]);
    assert_eq!(kinds("x + .5"), vec![ident("x"), Plus, num("0.5")]);
}

#[test]
fn numeric_bans() {
    assert!(lex("5.").is_err(), "dangling trailing-dot must error");
    assert!(lex("5. + 1").is_err(), "trailing-dot before an operator must error");
    assert!(lex("017").is_err(), "legacy octal must error");
    assert!(lex("123n").is_err(), "BigInt suffix must error");
}

#[test]
fn number_then_member_access_is_not_trailing_dot() {
    assert_eq!(kinds("5.foo"), vec![whole(5), Dot, ident("foo")]);
}

#[test]
fn numeric_forms() {
    assert_eq!(kinds("0xff"), vec![whole(255)]);
    assert_eq!(kinds("0o17"), vec![whole(15)]);
    assert_eq!(kinds("0b1010"), vec![whole(10)]);
    assert_eq!(kinds("1_000"), vec![whole(1000)]);
    assert_eq!(kinds("0.1"), vec![num("0.1")]);
    assert_eq!(kinds("1e3"), vec![whole(1000)]);
    assert_eq!(kinds("5.0"), vec![whole(5)]);
    assert_eq!(kinds("0"), vec![whole(0)]);
}

#[test]
fn maximal_munch_operators() {
    assert_eq!(kinds("**:="), vec![StarStarEq]);
    assert_eq!(kinds("??:="), vec![QuestionQuestionEq]);
    assert_eq!(kinds("+:="), vec![PlusEq]);
    assert_eq!(kinds(":="), vec![ColonEq]);
    assert_eq!(kinds("=>"), vec![FatArrow]);
    assert_eq!(kinds("::"), vec![ColonColon]);
    assert_eq!(kinds("<|"), vec![LtPipe]);
    assert_eq!(kinds("|>"), vec![PipeGt]);
    assert_eq!(kinds("<="), vec![Le]);
    assert_eq!(kinds("**"), vec![StarStar]);
    assert_eq!(kinds("a < b"), vec![ident("a"), Lt, ident("b")]);
}

#[test]
fn unary_stack_and_power() {
    assert_eq!(kinds("!~x"), vec![Bang, Tilde, ident("x")]);
    assert_eq!(kinds("-x ** 2"), vec![Minus, ident("x"), StarStar, whole(2)]);
    assert_eq!(kinds("2 ** -3"), vec![whole(2), StarStar, Minus, whole(3)]);
}

#[test]
fn holes_and_pattern_glyphs() {
    assert_eq!(kinds("_"), vec![Underscore]);
    assert_eq!(kinds("_1"), vec![IndexedHole(1)]);
    assert_eq!(kinds("^_2"), vec![Caret, IndexedHole(2)]);
    assert_eq!(
        kinds("#([..._1])"),
        vec![TokenKind::Hash, LParen, LBracket, DotDotDot, IndexedHole(1), RBracket, RParen]
    );
}

#[test]
fn strings_with_escapes() {
    assert_eq!(kinds(r#""a\nb""#), vec![TokenKind::Str(s("a\nb"))]);
    assert_eq!(kinds(r#""tab\tend""#), vec![TokenKind::Str(s("tab\tend"))]);
    assert_eq!(kinds(r#""quote\"in""#), vec![TokenKind::Str(s("quote\"in"))]);
    assert_eq!(kinds(r#""\u{1F600}""#), vec![TokenKind::Str(s("😀"))]);
    assert!(lex("\"line\nbreak\"").is_err(), "raw newline in string must error");
}

#[test]
fn template_with_interpolation() {
    let toks = lex("`hi ${x} there`").unwrap();
    let elems = match &toks[0].kind {
        TokenKind::Template(elems) => elems,
        other => panic!("expected template, got {:?}", other),
    };
    assert_eq!(elems.len(), 3);
    assert_eq!(elems[0], TemplateElem::Str(s("hi ")));
    match &elems[1] {
        TemplateElem::Interp(inner) => assert_eq!(inner, &vec![Token::new(ident("x"), 1)]),
        other => panic!("expected interpolation, got {:?}", other),
    }
    assert_eq!(elems[2], TemplateElem::Str(s(" there")));
}

#[test]
fn template_brace_depth_aware_interpolation() {
    let toks = lex("`v=${ {a: 1} }`").unwrap();
    let elems = match &toks[0].kind {
        TokenKind::Template(elems) => elems,
        _ => panic!("expected template"),
    };
    assert_eq!(elems[0], TemplateElem::Str(s("v=")));
    match &elems[1] {
        TemplateElem::Interp(inner) => {
            let ks: Vec<&TokenKind> = inner.iter().map(|t| &t.kind).collect();
            assert_eq!(ks, vec![&LBrace, &ident("a"), &Colon, &whole(1), &RBrace]);
        }
        other => panic!("expected interpolation, got {:?}", other),
    }
}

#[test]
fn comments_skipped_and_lines_tracked() {
    let toks = lex("a // comment\n/* block */ b").unwrap();
    assert_eq!((&toks[0].kind, toks[0].line), (&ident("a"), 1));
    assert_eq!((&toks[1].kind, toks[1].line), (&ident("b"), 2));
    assert_eq!(toks[2].kind, TokenKind::Eof);
}

#[test]
fn worked_parse_token_shapes() {
    assert_eq!(kinds("a |> f |> g"), vec![ident("a"), PipeGt, ident("f"), PipeGt, ident("g")]);
    assert_eq!(kinds("~count || fallback"), vec![Tilde, ident("count"), PipePipe, ident("fallback")]);
    assert_eq!(kinds("u?.name.first"), vec![ident("u"), QuestionDot, ident("name"), Dot, ident("first")]);
}

#[test]
fn an_unterminated_block_comment_runs_to_the_end() {
    assert_eq!(kinds("a /* never closed"), vec![ident("a")]);
}

#[test]
fn empty_source_is_just_eof() {
    let toks = lex("").unwrap();
    assert_eq!(toks.len(), 1);
    assert_eq!(toks[0].kind, TokenKind::Eof);
}

#[test]
fn an_exponent_marker_needs_digits() {
    assert!(lex("1e").is_err());
    assert!(lex("1e+").is_err());
    assert!(lex("1e_").is_err());
    assert!(lex("1e5").is_ok());
    assert!(lex("1E-2").is_ok());
}

#[test]
fn errors_inside_template_interpolations_fail_the_whole_lex() {
    assert!(lex("`a${1e}b`").is_err());
    assert!(lex("`a${ & }b`").is_err());
    assert!(lex("`a${x}b").is_err());
    assert!(lex("`a${x").is_err());
    assert!(lex("`a${ {x} }b`").is_ok());
}

#[test]
fn a_bigint_suffix_and_a_missing_base_digit_do_not_lex() {
    assert!(lex("10n").is_err());
    assert!(lex("0x").is_err());
    assert!(lex("0x_").is_err());
    assert!(lex("0xfn").is_err());
    assert!(lex("0xf").is_ok());
}

#[test]
fn an_indexed_hole_needs_an_index_from_one() {
    assert!(lex("_0").is_err());
    assert!(lex("_00").is_err());
    assert!(lex("_4294967296").is_err());
    assert!(lex("_4294967295").is_ok());
    assert!(lex("_").is_ok());
}
