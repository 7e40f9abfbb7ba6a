use next::ast::{Expr, TemplatePart};
use next::desugar::Desugarer;
use next::interner::Interner;
use next::normalize::{fold_segments, normalize_expr};
use next::rational::Rational;
use next::surface::{BinOp, PipeDir, SArg, SArrow, SArrowBody, SAccessForm, SElem, SExpr, SParam, STemplatePart, UnOp};

fn id(s: &str) -> SExpr {
    SExpr::Ident(s.to_string())
}

fn whole(n: i64) -> SExpr {
    SExpr::Number(Rational::from(n))
}

fn bin(op: BinOp, l: SExpr, r: SExpr) -> SExpr {
    SExpr::Binary { op, left: Box::new(l), right: Box::new(r) }
}

fn neg(x: SExpr) -> SExpr {
    SExpr::Unary { op: UnOp::Neg, operand: Box::new(x) }
}

fn call(f: SExpr, args: Vec<SExpr>) -> SExpr {
    SExpr::Call { callee: Box::new(f), args: args.into_iter().map(SArg::Expr).collect() }
}

fn arrow(params: &[&str], body: SExpr) -> SExpr {
    SExpr::Arrow(SArrow {
        params: params.iter().map(|p| SParam::Ident(p.to_string())).collect(),
        body: Box::new(SArrowBody::Expr(body)),
    })
}

fn seg(s: &str) -> STemplatePart {
    STemplatePart::Str(s.encode_utf16().collect())
}

fn norm_with(interner: &mut Interner, e: &SExpr) -> Expr {
    let kernel = Desugarer::new(interner).expr(e).unwrap();
    normalize_expr(&kernel, interner)
}

fn normalize_surface(e: &SExpr) -> Expr {
    let mut interner = Interner::new();
    norm_with(&mut interner, e)
}

/// Do two spellings share a normal form? One interner, so minted constants
/// compare by handle.
fn same_normal_form(a: &SExpr, b: &SExpr) -> bool {
    let mut interner = Interner::new();
    let x = norm_with(&mut interner, a);
    let y = norm_with(&mut interner, b);
    x == y
}

#[test]
fn literal_template_folds_to_a_constant() {
    // `hello`
    assert!(matches!(normalize_surface(&SExpr::Template(vec![seg("hello")])), Expr::Const(_)));
    // ``
    assert!(matches!(normalize_surface(&SExpr::Template(vec![])), Expr::Const(_)));
}

#[test]
fn interpolated_template_stays_a_template_with_folded_segments() {
    // `a${1}b${2}c`
    let e = SExpr::Template(vec![
        seg("a"),
        STemplatePart::Interp(whole(1)),
        seg("b"),
        STemplatePart::Interp(whole(2)),
        seg("c"),
    ]);
    match normalize_surface(&e) {
        Expr::Template(parts) => {
            let mut prev_was_segment = false;
            for p in &parts {
                let is_seg = matches!(p, TemplatePart::Segment(_));
                assert!(!(is_seg && prev_was_segment), "adjacent segments not folded");
                prev_was_segment = is_seg;
            }
            assert!(parts.iter().any(|p| matches!(p, TemplatePart::Interp(_))));
        }
        other => panic!("expected a template, got {:?}", other),
    }
}

#[test]
fn fold_segments_merges_adjacent() {
    let s = |t: &str| TemplatePart::Segment(t.to_string());
    let folded = fold_segments(vec![s("a"), s("b"), s("c")]);
    assert_eq!(folded, vec![s("abc")]);
}

#[test]
fn normalize_is_identity_when_no_rule_applies() {
    // (n) => [n, n.field, g(n)]
    let e = arrow(
        &["n"],
        SExpr::Tuple(vec![
            SElem::Expr(id("n")),
            SElem::Expr(SExpr::Access {
                target: Box::new(id("n")),
                form: SAccessForm::Field("field".into()),
                total: false,
            }),
            SElem::Expr(call(id("g"), vec![id("n")])),
        ]),
    );
    let mut interner = Interner::new();
    let kernel = Desugarer::new(&mut interner).expr(&e).unwrap();
    let normalized = normalize_expr(&kernel, &mut interner);
    assert_eq!(kernel, normalized);
}

#[test]
fn the_arithmetic_slice_governs_the_lowered_form() {
    // (a, b) => a + b   ==   (a, b) => b + a
    assert!(same_normal_form(
        &arrow(&["a", "b"], bin(BinOp::Add, id("a"), id("b"))),
        &arrow(&["a", "b"], bin(BinOp::Add, id("b"), id("a")))
    ));
    // (a) => a + 1 + 2   ==   (a) => a + 3
    assert!(same_normal_form(
        &arrow(&["a"], bin(BinOp::Add, bin(BinOp::Add, id("a"), whole(1)), whole(2))),
        &arrow(&["a"], bin(BinOp::Add, id("a"), whole(3)))
    ));
    // (x) => x + x   ==   (x) => 2 * x
    assert!(same_normal_form(
        &arrow(&["x"], bin(BinOp::Add, id("x"), id("x"))),
        &arrow(&["x"], bin(BinOp::Mul, whole(2), id("x")))
    ));
    // (x, y) => 2 * x + 3 * y   ==   (x, y) => 3 * y + 2 * x
    assert!(same_normal_form(
        &arrow(&["x", "y"], bin(BinOp::Add, bin(BinOp::Mul, whole(2), id("x")), bin(BinOp::Mul, whole(3), id("y")))),
        &arrow(&["x", "y"], bin(BinOp::Add, bin(BinOp::Mul, whole(3), id("y")), bin(BinOp::Mul, whole(2), id("x"))))
    ));
    // (x, y) => -x + y   ==   (x, y) => y - x
    assert!(same_normal_form(
        &arrow(&["x", "y"], bin(BinOp::Add, neg(id("x")), id("y"))),
        &arrow(&["x", "y"], bin(BinOp::Sub, id("y"), id("x")))
    ));
}

#[test]
fn the_permanent_exclusions_do_not_fire() {
    // (x) => x + 0   !=   (x) => x
    assert!(!same_normal_form(&arrow(&["x"], bin(BinOp::Add, id("x"), whole(0))), &arrow(&["x"], id("x"))));
    // (f, x) => 0 * f(x)   !=   (f, x) => 0
    assert!(!same_normal_form(
        &arrow(&["f", "x"], bin(BinOp::Mul, whole(0), call(id("f"), vec![id("x")]))),
        &arrow(&["f", "x"], whole(0))
    ));
    // (x) => x - x   !=   (x) => 0
    assert!(!same_normal_form(&arrow(&["x"], bin(BinOp::Sub, id("x"), id("x"))), &arrow(&["x"], whole(0))));
    // (x) => -x + x   ==   (x) => x - x
    assert!(same_normal_form(
        &arrow(&["x"], bin(BinOp::Add, neg(id("x")), id("x"))),
        &arrow(&["x"], bin(BinOp::Sub, id("x"), id("x")))
    ));
}

#[test]
fn anchored_operands_keep_their_order() {
    // p() - q() + p()  keeps its call order: the calls are anchored
    let e = arrow(
        &[],
        bin(BinOp::Add, bin(BinOp::Sub, call(id("p"), vec![]), call(id("q"), vec![])), call(id("p"), vec![])),
    );
    let swapped = arrow(
        &[],
        bin(BinOp::Add, bin(BinOp::Sub, call(id("p"), vec![]), call(id("p"), vec![])), call(id("q"), vec![])),
    );
    assert!(!same_normal_form(&e, &swapped));
}

#[test]
fn constants_fold_in_products() {
    // (x) => 2 * x * 3   ==   (x) => 6 * x
    assert!(same_normal_form(
        &arrow(&["x"], bin(BinOp::Mul, bin(BinOp::Mul, whole(2), id("x")), whole(3))),
        &arrow(&["x"], bin(BinOp::Mul, whole(6), id("x")))
    ));
    // a pure literal product is a constant
    let mut interner = Interner::new();
    let e = norm_with(&mut interner, &bin(BinOp::Mul, whole(2), whole(3)));
    let six = interner.integer(6);
    assert_eq!(e, Expr::Const(six));
}

#[test]
fn pipes_normalize_like_calls() {
    let mut interner = Interner::new();
    let a = norm_with(
        &mut interner,
        &SExpr::Pipe { dir: PipeDir::Forward, left: Box::new(id("x")), right: Box::new(id("f")) },
    );
    let b = norm_with(&mut interner, &call(id("f"), vec![id("x")]));
    assert_eq!(a, b);
}

/// Normalizing a normal form changes nothing.
fn idempotent(e: &SExpr) -> bool {
    let mut interner = Interner::new();
    let once = norm_with(&mut interner, e);
    let twice = normalize_expr(&once, &mut interner);
    once == twice
}

#[test]
fn normalization_is_idempotent_on_arithmetic() {
    let x = || id("x");
    let y = || id("y");
    let f = || id("f");
    let cases = vec![
        bin(BinOp::Add, x(), x()),
        bin(BinOp::Add, bin(BinOp::Add, x(), whole(2)), bin(BinOp::Mul, whole(3), x())),
        bin(BinOp::Sub, bin(BinOp::Add, y(), x()), whole(4)),
        bin(BinOp::Sub, bin(BinOp::Add, x(), x()), x()),
        bin(BinOp::Sub, x(), x()),
        bin(BinOp::Add, bin(BinOp::Mul, whole(2), y()), bin(BinOp::Mul, x(), whole(5))),
        bin(BinOp::Add, call(f(), vec![x()]), bin(BinOp::Add, whole(1), x())),
        bin(BinOp::Mul, bin(BinOp::Mul, y(), whole(2)), bin(BinOp::Mul, x(), whole(3))),
        bin(BinOp::Add, neg(x()), bin(BinOp::Sub, whole(1), y())),
        bin(BinOp::Add, bin(BinOp::Add, whole(1), whole(2)), whole(3)),
        bin(BinOp::Sub, bin(BinOp::Mul, whole(2), x()), bin(BinOp::Mul, whole(2), x())),
        bin(BinOp::Add, bin(BinOp::Mul, x(), y()), bin(BinOp::Mul, y(), x())),
        SExpr::Template(vec![seg("a"), STemplatePart::Interp(bin(BinOp::Add, x(), x())), seg("b"), seg("c")]),
        arrow(&["z"], bin(BinOp::Add, id("z"), bin(BinOp::Add, id("z"), whole(1)))),
    ];
    for c in &cases {
        assert!(idempotent(c), "not idempotent: {:?}", c);
    }
}

#[test]
fn a_combined_bare_compound_base_is_flattened_on_a_second_pass() {
    // `[1] + 3*(x+y) - 2*(x+y)` combines to `[1] + (x + y)`; normalizing that
    // again flattens the bare `(x + y)` into the chain: `([1] + x) + y`.
    let x = || id("x");
    let y = || id("y");
    let t = SExpr::Tuple(vec![SElem::Expr(whole(1))]);
    let e = bin(
        BinOp::Sub,
        bin(BinOp::Add, t, bin(BinOp::Mul, whole(3), bin(BinOp::Add, x(), y()))),
        bin(BinOp::Mul, whole(2), bin(BinOp::Add, x(), y())),
    );
    let mut interner = Interner::new();
    let once = norm_with(&mut interner, &e);
    let twice = normalize_expr(&once, &mut interner);
    match &once {
        Expr::PrimOp { args, .. } => {
            assert!(matches!(args[0], Expr::TupleCons(_)));
            assert!(matches!(args[1], Expr::PrimOp { .. }));
        }
        _ => panic!("expected a sum"),
    }
    match &twice {
        Expr::PrimOp { args, .. } => {
            assert!(matches!(args[0], Expr::PrimOp { .. }));
            assert!(matches!(args[1], Expr::Ref(_)));
        }
        _ => panic!("expected a sum"),
    }
    assert!(once != twice);
}
