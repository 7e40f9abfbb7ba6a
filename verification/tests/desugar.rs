use next::ast::{
    ActKind, Arg, Arm, BindingRef, Element, Expr, Field, Item, MatchItem, Module, Pat, PatElem, PrimOp, Ref, SlotRef,
};
use next::desugar::Desugarer;
use next::interner::Interner;
use next::rational::Rational;
use next::surface::{
    BinOp, Hole, MutOp, PipeDir, SArg, SArm, SArrow, SArrowBody, SAt, SBindTarget, SBinding, SElem, SExpr, SParam,
    SPath, SPathSeg, SPattern, SProgram, SStmt, UnOp,
};
use next::value::ValueData;

// ── Surface builders (the shapes the grammar produces) ──────────────────────

fn id(s: &str) -> SExpr {
    SExpr::Ident(s.to_string())
}

fn whole(n: i64) -> SExpr {
    SExpr::Number(Rational::from(n))
}

fn dec(s: &str) -> SExpr {
    SExpr::Number(Rational::from_decimal(s).unwrap())
}

fn text(s: &str) -> SExpr {
    SExpr::Str(s.encode_utf16().collect())
}

fn bin(op: BinOp, l: SExpr, r: SExpr) -> SExpr {
    SExpr::Binary { op, left: Box::new(l), right: Box::new(r) }
}

fn un(op: UnOp, x: SExpr) -> SExpr {
    SExpr::Unary { op, operand: Box::new(x) }
}

fn call(f: SExpr, args: Vec<SExpr>) -> SExpr {
    SExpr::Call { callee: Box::new(f), args: args.into_iter().map(SArg::Expr).collect() }
}

fn pipe(dir: PipeDir, l: SExpr, r: SExpr) -> SExpr {
    SExpr::Pipe { dir, left: Box::new(l), right: Box::new(r) }
}

fn arrow(params: &[&str], body: SExpr) -> SExpr {
    SExpr::Arrow(SArrow {
        params: params.iter().map(|p| SParam::Ident(p.to_string())).collect(),
        body: Box::new(SArrowBody::Expr(body)),
    })
}

fn arrow_block(params: &[&str], body: Vec<SStmt>) -> SExpr {
    SExpr::Arrow(SArrow {
        params: params.iter().map(|p| SParam::Ident(p.to_string())).collect(),
        body: Box::new(SArrowBody::Block(body)),
    })
}

fn arm(pattern: SPattern, result: SExpr) -> SArm {
    SArm { pattern: Some(pattern), guard: None, result }
}

fn at(op: &str, name: &str, value: SExpr) -> SStmt {
    SStmt::At(SAt::Binding {
        op: op.to_string(),
        binding: SBinding { target: SBindTarget::Name(name.to_string()), value, exported: false },
    })
}

fn mutation(root: &str, segments: Vec<SPathSeg>, op: MutOp, value: SExpr) -> SStmt {
    SStmt::Mutation { path: SPath { root: root.to_string(), segments }, op, value }
}

fn program(statements: Vec<SStmt>) -> SProgram {
    SProgram { header: None, statements }
}

fn lower_with(interner: &mut Interner, e: &SExpr) -> Expr {
    Desugarer::new(interner).expr(e).unwrap()
}

fn lower(e: &SExpr) -> Expr {
    let mut interner = Interner::new();
    lower_with(&mut interner, e)
}

fn lower_program(p: &SProgram) -> Module {
    let mut interner = Interner::new();
    Desugarer::new(&mut interner).program(p).unwrap()
}

fn match_items(e: &Expr) -> &[MatchItem] {
    match e {
        Expr::Match(m) => &m.items,
        other => panic!("expected Match, got {:?}", other),
    }
}

fn mutate_body(m: &Module) -> &MatchItem {
    match &m.items[0] {
        Item::ActBind(ab) => match &*ab.lambda.body {
            Expr::Match(inner) => &inner.items[0],
            other => panic!("expected block body, got {:?}", other),
        },
        other => panic!("expected act bind, got {:?}", other),
    }
}

// ── Desugar-equivalence rows ─────────────────────────────────────────────────

#[test]
fn pipes_are_application() {
    // x |> f  ==  f <| x  ==  f(x)
    let mut i = Interner::new();
    let forward = lower_with(&mut i, &pipe(PipeDir::Forward, id("x"), id("f")));
    let backward = lower_with(&mut i, &pipe(PipeDir::Backward, id("f"), id("x")));
    let direct = lower_with(&mut i, &call(id("f"), vec![id("x")]));
    assert_eq!(forward, direct);
    assert_eq!(backward, direct);
}

#[test]
fn pipe_chain_matches_nested_calls() {
    // a |> f |> g  ==  g(f(a))
    let mut i = Interner::new();
    let chain = pipe(PipeDir::Forward, pipe(PipeDir::Forward, id("a"), id("f")), id("g"));
    let nested = call(id("g"), vec![call(id("f"), vec![id("a")])]);
    assert_eq!(lower_with(&mut i, &chain), lower_with(&mut i, &nested));
}

#[test]
fn conjunction_desugars_to_match() {
    // a && b
    let e = lower(&bin(BinOp::And, id("a"), id("b")));
    let items = match_items(&e);
    assert_eq!(items.len(), 2);
    if let MatchItem::Arm(arm0) = &items[0] {
        assert!(matches!(arm0.result, Expr::Ref(_)));
    } else {
        panic!("expected arm");
    }
}

#[test]
fn disjunction_desugars_to_match() {
    let e = lower(&bin(BinOp::Or, id("a"), id("b")));
    assert_eq!(match_items(&e).len(), 2);
}

#[test]
fn ternary_desugars_to_bool_match() {
    let e = lower(&SExpr::Ternary { cond: Box::new(id("c")), then: Box::new(text("t")), els: Box::new(text("e")) });
    assert_eq!(match_items(&e).len(), 2);
}

#[test]
fn not_desugars_to_match() {
    assert_eq!(match_items(&lower(&un(UnOp::Not, id("x")))).len(), 2);
}

#[test]
fn double_negation_loosen_is_falsy_test() {
    // !~x
    let e = lower(&un(UnOp::Not, un(UnOp::Loosen, id("x"))));
    let items = match_items(&e);
    assert_eq!(items.len(), 3);
    assert!(matches!(items[2], MatchItem::Arm(Arm { pattern: Some(Pat::Wild), .. })));
}

#[test]
fn nullish_vs_escaped_or_differ_on_false() {
    // a ?? b  versus  ~a || b
    let nullish = lower(&bin(BinOp::NullOr, id("a"), id("b")));
    let escaped = lower(&bin(BinOp::Or, un(UnOp::Loosen, id("a")), id("b")));
    assert_eq!(match_items(&nullish).len(), 2, "?? tests null only");
    assert_eq!(match_items(&escaped).len(), 3, "~|| tests false and null");
    assert_ne!(nullish, escaped);
    if let MatchItem::Arm(a) = &match_items(&nullish)[0] {
        assert!(matches!(&a.pattern, Some(Pat::Const(v)) if matches!(v.data(), ValueData::Null)));
    }
}

#[test]
fn escaped_and_propagates_falsy() {
    // ~a && b
    let e = lower(&bin(BinOp::And, un(UnOp::Loosen, id("a")), id("b")));
    assert_eq!(match_items(&e).len(), 3);
}

// ── Arrows, hasks, blocks ────────────────────────────────────────────────────

#[test]
fn arrow_is_a_pure_lambda_over_the_argument_tuple() {
    // x => x
    match lower(&arrow(&["x"], id("x"))) {
        Expr::Lambda(l) => {
            assert_eq!(l.act_kind, ActKind::Pure);
            assert_eq!(l.params, Pat::Tuple(vec![PatElem::Pat(Pat::Bind("x".into()))]));
            assert!(matches!(*l.body, Expr::Ref(_)));
        }
        other => panic!("expected lambda, got {:?}", other),
    }
}

#[test]
fn arrow_two_params() {
    // (a, b) => a
    match lower(&arrow(&["a", "b"], id("a"))) {
        Expr::Lambda(l) => assert_eq!(
            l.params,
            Pat::Tuple(vec![PatElem::Pat(Pat::Bind("a".into())), PatElem::Pat(Pat::Bind("b".into()))])
        ),
        other => panic!("expected lambda, got {:?}", other),
    }
}

#[test]
fn hask_anon_hole() {
    // # _ + 1
    match lower(&SExpr::Hask(Box::new(bin(BinOp::Add, SExpr::Hole(Hole::Anon), whole(1))))) {
        Expr::Lambda(l) => {
            assert!(matches!(l.params, Pat::Tuple(ref v) if v.len() == 1));
            assert!(matches!(*l.body, Expr::PrimOp { op: PrimOp::Add, .. }));
        }
        other => panic!("expected lambda, got {:?}", other),
    }
}

#[test]
fn hask_two_anon_holes_in_order() {
    // # f(_, _)
    let e = SExpr::Hask(Box::new(call(id("f"), vec![SExpr::Hole(Hole::Anon), SExpr::Hole(Hole::Anon)])));
    match lower(&e) {
        Expr::Lambda(l) => assert!(matches!(l.params, Pat::Tuple(ref v) if v.len() == 2)),
        other => panic!("expected lambda, got {:?}", other),
    }
}

#[test]
fn hask_indexed_holes_reuse() {
    // # _1 + _1
    let e = SExpr::Hask(Box::new(bin(BinOp::Add, SExpr::Hole(Hole::Indexed(1)), SExpr::Hole(Hole::Indexed(1)))));
    match lower(&e) {
        Expr::Lambda(l) => assert!(matches!(l.params, Pat::Tuple(ref v) if v.len() == 1)),
        other => panic!("expected lambda, got {:?}", other),
    }
}

#[test]
fn hask_rest_hole_as_one_tuple() {
    // #([..._1])
    let e = SExpr::Hask(Box::new(SExpr::Grouping(Box::new(SExpr::Tuple(vec![SElem::Spread(SExpr::Hole(
        Hole::Indexed(1),
    ))])))));
    match lower(&e) {
        Expr::Lambda(l) => {
            assert_eq!(l.params, Pat::Tuple(vec![PatElem::Rest(Some("%hrest0".into()))]));
            match *l.body {
                Expr::TupleCons(ref elems) => {
                    assert!(matches!(elems[0], Element::Spread(Expr::Ref(_))));
                }
                ref other => panic!("expected tuple cons, got {:?}", other),
            }
        }
        other => panic!("expected lambda, got {:?}", other),
    }
}

#[test]
fn nested_hask_opens_fresh_scope() {
    // # f(# _ + 1, _)
    let inner = SExpr::Hask(Box::new(bin(BinOp::Add, SExpr::Hole(Hole::Anon), whole(1))));
    let e = SExpr::Hask(Box::new(call(id("f"), vec![inner, SExpr::Hole(Hole::Anon)])));
    match lower(&e) {
        Expr::Lambda(outer) => assert!(matches!(outer.params, Pat::Tuple(ref v) if v.len() == 1)),
        other => panic!("expected lambda, got {:?}", other),
    }
}

#[test]
fn block_body_is_scrutinee_less_match() {
    // n => { => n }
    match lower(&arrow_block(&["n"], vec![SStmt::ElseArm { result: id("n") }])) {
        Expr::Lambda(l) => match *l.body {
            Expr::Match(ref m) => {
                assert!(m.scrutinee.is_none());
                assert!(matches!(m.items[0], MatchItem::Arm(Arm { pattern: None, guard: None, .. })));
            }
            ref other => panic!("expected match body, got {:?}", other),
        },
        other => panic!("expected lambda, got {:?}", other),
    }
}

// ── Match arms: alternation and pins ─────────────────────────────────────────

#[test]
fn alternation_expands_to_multiple_arms() {
    // v :: { 1 | 2 | 3 => "s"; _ => "o" }
    let e = SExpr::Match {
        scrutinee: Box::new(id("v")),
        arms: vec![
            arm(
                SPattern::Alt(vec![
                    SPattern::Number(Rational::from(1)),
                    SPattern::Number(Rational::from(2)),
                    SPattern::Number(Rational::from(3)),
                ]),
                text("s"),
            ),
            arm(SPattern::Wild, text("o")),
        ],
    };
    assert_eq!(match_items(&lower(&e)).len(), 4);
}

#[test]
fn pin_becomes_equality_guard() {
    // v :: { ^target => "hit"; _ => "o" }
    let e = SExpr::Match {
        scrutinee: Box::new(id("v")),
        arms: vec![arm(SPattern::Pin("target".into()), text("hit")), arm(SPattern::Wild, text("o"))],
    };
    let lowered = lower(&e);
    if let MatchItem::Arm(a) = &match_items(&lowered)[0] {
        assert!(matches!(a.pattern, Some(Pat::Bind(_))));
        assert!(matches!(a.guard, Some(Expr::PrimOp { op: PrimOp::Eq, .. })));
    } else {
        panic!("expected arm");
    }
}

// ── Mutation ─────────────────────────────────────────────────────────────────

#[test]
fn simple_assign_is_write() {
    // @mutate setX = (v) => { x := 5 }
    let m = lower_program(&program(vec![at(
        "mutate",
        "setX",
        arrow_block(&["v"], vec![mutation("x", vec![], MutOp::Assign, whole(5))]),
    )]));
    assert!(matches!(
        mutate_body(&m),
        MatchItem::Stmt(Expr::Write { slot: SlotRef::Name(n), .. }) if n == "x"
    ));
}

#[test]
fn compound_assign_reads_then_writes() {
    // @mutate inc = () => { count +:= 1 }
    let m = lower_program(&program(vec![at(
        "mutate",
        "inc",
        arrow_block(&[], vec![mutation("count", vec![], MutOp::Add, whole(1))]),
    )]));
    match mutate_body(&m) {
        MatchItem::Stmt(Expr::Write { slot: SlotRef::Name(n), value }) => {
            assert_eq!(n, "count");
            assert!(matches!(**value, Expr::PrimOp { op: PrimOp::Add, .. }));
        }
        other => panic!("expected write, got {:?}", other),
    }
}

#[test]
fn field_path_assign_is_functional_update() {
    // @mutate f = () => { a.b := v }
    let m = lower_program(&program(vec![at(
        "mutate",
        "f",
        arrow_block(&[], vec![mutation("a", vec![SPathSeg::Field("b".into())], MutOp::Assign, id("v"))]),
    )]));
    match mutate_body(&m) {
        MatchItem::Stmt(Expr::Write { slot: SlotRef::Name(n), value }) => {
            assert_eq!(n, "a");
            match &**value {
                Expr::RecordCons(fields) => {
                    assert!(matches!(fields[0], Field::Spread(_)));
                    assert!(matches!(&fields[1], Field::Field { key, .. } if key == "b"));
                }
                other => panic!("expected record update, got {:?}", other),
            }
        }
        other => panic!("expected write, got {:?}", other),
    }
}

// ── Top-level declarations ───────────────────────────────────────────────────

#[test]
fn state_and_mutable_become_slot_decls() {
    // @state count = 0 ; @mutable temp = 1
    let m = lower_program(&program(vec![at("state", "count", whole(0)), at("mutable", "temp", whole(1))]));
    assert!(matches!(&m.items[0], Item::SlotDecl(s) if s.reactive && s.name == "count"));
    assert!(matches!(&m.items[1], Item::SlotDecl(s) if !s.reactive && s.name == "temp"));
}

#[test]
fn effect_becomes_act_bind() {
    // @effect log = (msg) => { }
    let m = lower_program(&program(vec![at("effect", "log", arrow_block(&["msg"], vec![]))]));
    match &m.items[0] {
        Item::ActBind(ab) => {
            assert_eq!(ab.kind, ActKind::Effect);
            assert_eq!(ab.lambda.act_kind, ActKind::Effect);
        }
        other => panic!("expected act bind, got {:?}", other),
    }
}

#[test]
fn reactive_layer_is_fenced() {
    // @computed total = 0
    let mut interner = Interner::new();
    let prog = program(vec![at("computed", "total", whole(0))]);
    assert!(Desugarer::new(&mut interner).program(&prog).is_err());
}

// ── Interning through desugar ────────────────────────────────────────────────

fn find_half(e: &Expr) -> Option<&next::value::ValueRef> {
    match e {
        Expr::Const(v) => match v.data() {
            ValueData::Number(n) if *n == Rational::from_decimal("0.5").unwrap() => Some(v),
            _ => None,
        },
        Expr::PrimOp { args, .. } => args.iter().find_map(find_half),
        _ => None,
    }
}

#[test]
fn constants_intern_across_desugar() {
    // 0.5  and  1 / 2 == 0.5
    let mut i = Interner::new();
    let a = lower_with(&mut i, &dec("0.5"));
    let b = lower_with(&mut i, &bin(BinOp::Eq, bin(BinOp::Div, whole(1), whole(2)), dec("0.5")));
    let va = match &a {
        Expr::Const(v) => v,
        _ => panic!("expected a constant"),
    };
    let vb = find_half(&b).expect("0.5 present in b");
    assert!(va.ptr_eq(vb), "equal constants share one interned pointer");
}

#[test]
fn equal_programs_lower_equal() {
    // f(g(a))  ==  a |> g |> f
    let mut i = Interner::new();
    let nested = call(id("f"), vec![call(id("g"), vec![id("a")])]);
    let chain = pipe(PipeDir::Forward, pipe(PipeDir::Forward, id("a"), id("g")), id("f"));
    assert_eq!(lower_with(&mut i, &nested), lower_with(&mut i, &chain));
}

#[test]
fn an_unknown_privileged_operator_is_refused() {
    let mut interner = Interner::new();
    let prog = program(vec![at("bogus", "x", whole(0))]);
    let r = Desugarer::new(&mut interner).program(&prog);
    assert!(r.is_err());
}

fn ref_name(e: &Expr) -> String {
    match e {
        Expr::Ref(Ref::Immutable(BindingRef::Name(n))) => n.clone(),
        other => panic!("expected a name reference, got {:?}", other),
    }
}

#[test]
fn hask_parameters_are_named_by_index_filler_first() {
    // # f(_2): `_2` takes %h0 when it is met; the unused first position gets
    // a fresh %h1 when the hask closes.
    let e = SExpr::Hask(Box::new(call(id("f"), vec![SExpr::Hole(Hole::Indexed(2))])));
    match lower(&e) {
        Expr::Lambda(l) => {
            assert_eq!(
                l.params,
                Pat::Tuple(vec![PatElem::Pat(Pat::Bind("%h1".into())), PatElem::Pat(Pat::Bind("%h0".into()))])
            );
            match *l.body {
                Expr::Apply { ref args, .. } => match &args[0] {
                    Arg::Expr(x) => assert_eq!(ref_name(x), "%h0"),
                    other => panic!("unexpected {:?}", other),
                },
                ref other => panic!("expected an application, got {:?}", other),
            }
        }
        other => panic!("expected lambda, got {:?}", other),
    }
}

#[test]
fn hask_swapped_indices_bind_by_position() {
    // # f(_2, _1): the first argument reads parameter 2, the second parameter 1.
    let e = SExpr::Hask(Box::new(call(id("f"), vec![SExpr::Hole(Hole::Indexed(2)), SExpr::Hole(Hole::Indexed(1))])));
    match lower(&e) {
        Expr::Lambda(l) => {
            let names: Vec<String> = match &l.params {
                Pat::Tuple(v) => v
                    .iter()
                    .map(|p| match p {
                        PatElem::Pat(Pat::Bind(n)) => n.clone(),
                        other => panic!("unexpected {:?}", other),
                    })
                    .collect(),
                other => panic!("unexpected {:?}", other),
            };
            match *l.body {
                Expr::Apply { ref args, .. } => {
                    let a0 = match &args[0] {
                        Arg::Expr(x) => ref_name(x),
                        other => panic!("unexpected {:?}", other),
                    };
                    let a1 = match &args[1] {
                        Arg::Expr(x) => ref_name(x),
                        other => panic!("unexpected {:?}", other),
                    };
                    assert_eq!(a0, names[1]);
                    assert_eq!(a1, names[0]);
                }
                ref other => panic!("expected an application, got {:?}", other),
            }
        }
        other => panic!("expected lambda, got {:?}", other),
    }
}
