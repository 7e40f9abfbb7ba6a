//! The lowering catalog, stated: which kernel term each surface form becomes
//! ([`lowers`] and its companions), which surface programs lower at all
//! ([`ok`]), and what holes a hask body registers ([`holes`]).
//!
//! Constants are stated by their interned keys, synthetic binders by their
//! `%` prefix. Where the desugarer copies an already-lowered term (a shared arm
//! result, the right operand of `~a || b`) the copies are structurally equal
//! ([`expr_deq`]).

use crate::ast::{prim_compares, prim_computes, expr_deq, guard_deq, ActKind, Arg, AccessForm, BindTarget, BindingRef, Element, Expr, Field, Item, Lambda, Match, MatchItem, Arm, Bind, Module, Pat, PatElem, PatField, PrimOp, Ref, SlotRef, TemplatePart};
use crate::rational::same_value;
use crate::surface::{op_compares, op_computes, BinOp, Hole, MutOp, PipeDir, SArg, SArm, SArrow, SArrowBody, SAt, SAccessForm, SBindTarget, SBinding, SElem, SExpr, SField, SParam, SPatElem, SPatField, SPath, SPathSeg, SPattern, SProgram, SStmt, STemplatePart, UnOp};
use crate::text::{dot_joined, utf16_lossy};
use crate::value::ValueKey;
use vstd::prelude::*;

verus! {

// ── Small shapes ─────────────────────────────────────────────────────────────

/// A name the desugarer generated: it starts with `%`, which no surface
/// identifier contains.
pub open spec fn synthetic(n: Seq<char>) -> bool {
    n.len() > 0 && n[0] == '%'
}

pub open spec fn const_bool(k: Expr, b: bool) -> bool {
    k matches Expr::Const(v) && v.key() == ValueKey::Boolean(b)
}

pub open spec fn const_null(k: Expr) -> bool {
    k matches Expr::Const(v) && v.key() == ValueKey::Null
}

pub open spec fn pat_bool(p: Option<Pat>, b: bool) -> bool {
    p matches Some(Pat::Const(v)) && v.key() == ValueKey::Boolean(b)
}

pub open spec fn pat_null(p: Option<Pat>) -> bool {
    p matches Some(Pat::Const(v)) && v.key() == ValueKey::Null
}

/// `k` reads the immutable binding named `n`.
pub open spec fn name_ref(k: Expr, n: Seq<char>) -> bool {
    k matches Expr::Ref(Ref::Immutable(BindingRef::Name(s))) && s@ == n
}

/// `k` reads a synthetic binding.
pub open spec fn synthetic_ref(k: Expr) -> bool {
    k matches Expr::Ref(Ref::Immutable(BindingRef::Name(s))) && synthetic(s@)
}

/// `k` is a `Match` with a scrutinee and `n` unguarded arms.
pub open spec fn arms_match(k: Expr, n: nat) -> bool {
    &&& k matches Expr::Match(m)
    &&& m.scrutinee is Some
    &&& m.items@.len() == n
    &&& forall|i: int| 0 <= i < n ==> (#[trigger] m.items@[i] matches MatchItem::Arm(a) && a.guard is None)
}

/// The scrutinee of a `Match`.
pub open spec fn scrut(k: Expr) -> Expr {
    *k->Match_0.scrutinee->Some_0
}

/// The pattern of arm `i` of a `Match`.
pub open spec fn arm_pat(k: Expr, i: int) -> Option<Pat> {
    k->Match_0.items@[i]->Arm_0.pattern
}

/// The result of arm `i` of a `Match`.
pub open spec fn arm_res(k: Expr, i: int) -> Expr {
    k->Match_0.items@[i]->Arm_0.result
}

/// `Match(c, [true => t, false => f])`.
pub open spec fn bool_match_shape(k: Expr) -> bool {
    arms_match(k, 2) && pat_bool(arm_pat(k, 0), true) && pat_bool(arm_pat(k, 1), false)
}

/// `Match(c, [false => x, null => y, _ => z])`: the falsy-set test.
pub open spec fn falsy_match_shape(k: Expr) -> bool {
    &&& arms_match(k, 3)
    &&& pat_bool(arm_pat(k, 0), false)
    &&& pat_null(arm_pat(k, 1))
    &&& arm_pat(k, 2) == Some(Pat::Wild)
}

/// `Match(c, [null => b, v => v])` with `v` synthetic: the `??` form.
pub open spec fn null_or_shape(k: Expr) -> bool {
    &&& arms_match(k, 2)
    &&& pat_null(arm_pat(k, 0))
    &&& arm_pat(k, 1) matches Some(Pat::Bind(v)) && synthetic(v@) && name_ref(arm_res(k, 1), v@)
}

/// The kernel operation of a strict binary operator.
pub open spec fn prim_of(op: BinOp) -> PrimOp {
    match op {
        BinOp::Eq => PrimOp::Eq,
        BinOp::Ne => PrimOp::Ne,
        BinOp::Lt => PrimOp::Lt,
        BinOp::Le => PrimOp::Le,
        BinOp::Gt => PrimOp::Gt,
        BinOp::Ge => PrimOp::Ge,
        BinOp::Add => PrimOp::Add,
        BinOp::Sub => PrimOp::Sub,
        BinOp::Mul => PrimOp::Mul,
        BinOp::Div => PrimOp::Div,
        BinOp::Rem => PrimOp::Rem,
        _ => PrimOp::Pow,
    }
}

/// A comparison or arithmetic operator lowers to a kernel primitive that
/// means the same on every pair of numbers: the primitive a binary node
/// lowers to agrees with the surface operator wherever the operator is
/// defined (so `0 >= 0` stays true and `1 - 2` stays `-1`).
pub proof fn lemma_binary_lowering_keeps_meaning(op: BinOp, p: (int, int), q: (int, int))
    ensures
        op_compares(op, p, q) is Some ==> prim_compares(prim_of(op), p, q) == op_compares(op, p, q),
        op_computes(op, p, q) is Some ==> prim_computes(prim_of(op), p, q) == op_computes(op, p, q),
{
}

/// The same, read off a lowering: a strict binary node `l op r` lowers to a
/// primitive node whose operator means what `op` means on numbers.
pub proof fn lemma_lowered_binary_means_the_same(l: SExpr, r: SExpr, op: BinOp, k: Expr, p: (int, int), q: (int, int))
    requires
        op_compares(op, p, q) is Some || op_computes(op, p, q) is Some,
        lowers_binary(SExpr::Binary { op, left: Box::new(l), right: Box::new(r) }, k),
    ensures
        k is PrimOp,
        op_compares(op, p, q) is Some ==> prim_compares(k->PrimOp_op, p, q) == op_compares(op, p, q),
        op_computes(op, p, q) is Some ==> prim_computes(k->PrimOp_op, p, q) == op_computes(op, p, q),
{
    lemma_binary_lowering_keeps_meaning(op, p, q);
}

/// The kernel operation of an arithmetic compound assignment.
pub open spec fn prim_of_mut(op: MutOp) -> PrimOp {
    match op {
        MutOp::Add => PrimOp::Add,
        MutOp::Sub => PrimOp::Sub,
        MutOp::Mul => PrimOp::Mul,
        MutOp::Div => PrimOp::Div,
        MutOp::Rem => PrimOp::Rem,
        _ => PrimOp::Pow,
    }
}

/// `k` is the binary primitive `op(a, b)`.
pub open spec fn prim2(k: Expr, op: PrimOp) -> bool {
    k matches Expr::PrimOp { op: o, args } && o == op && args@.len() == 2
}

pub open spec fn prim_arg(k: Expr, i: int) -> Expr {
    k->PrimOp_args@[i]
}

/// Whether a surface expression lowers to a function (an arrow or a hask,
/// possibly parenthesized).
pub open spec fn yields_lambda(e: SExpr) -> bool
    decreases e,
{
    match e {
        SExpr::Arrow(_) => true,
        SExpr::Hask(_) => true,
        SExpr::Grouping(inner) => yields_lambda(*inner),
        _ => false,
    }
}

// ── Holes of a hask scope ────────────────────────────────────────────────────

/// What the holes of one hask scope add up to: plain `_` holes counted, indexed
/// `_n` holes by their largest index, the first rest hole's kind, and whether
/// two rest holes of different kinds occurred.
pub ghost struct HoleSum {
    pub anon: nat,
    pub idx: bool,
    pub max: nat,
    pub rest: Option<Hole>,
    pub clash: bool,
}

pub open spec fn no_holes() -> HoleSum {
    HoleSum { anon: 0, idx: false, max: 0, rest: None, clash: false }
}

/// The holes of `a` followed by those of `b`.
pub open spec fn combine(a: HoleSum, b: HoleSum) -> HoleSum {
    HoleSum {
        anon: a.anon + b.anon,
        idx: a.idx || b.idx,
        max: if a.max >= b.max { a.max } else { b.max },
        rest: if a.rest is Some { a.rest } else { b.rest },
        clash: a.clash || b.clash || (a.rest is Some && b.rest is Some && a.rest != b.rest),
    }
}

/// A plain hole in value position.
pub open spec fn hole_use(h: Hole) -> HoleSum {
    match h {
        Hole::Anon => HoleSum { anon: 1, idx: false, max: 0, rest: None, clash: false },
        Hole::Indexed(n) => HoleSum { anon: 0, idx: true, max: n as nat, rest: None, clash: false },
    }
}

/// A hole spread as the rest of the arguments.
pub open spec fn rest_use(h: Hole) -> HoleSum {
    HoleSum { anon: 0, idx: false, max: 0, rest: Some(h), clash: false }
}

/// The fixed (non-rest) parameter count the holes ask for.
pub open spec fn fixed_params(u: HoleSum) -> nat {
    if u.idx { u.max } else { u.anon }
}

/// The position a rest hole `..._n` takes, or the fixed count.
pub open spec fn rest_position(u: HoleSum) -> nat {
    match u.rest {
        Some(Hole::Indexed(n)) => if n == 0 { 0 } else { (n - 1) as nat },
        _ => fixed_params(u),
    }
}

/// The holes of a hask body admit a parameter list: no clashing rests, no
/// mix of `_` and `_n`, and an indexed rest not before a fixed hole.
pub open spec fn hask_ok(u: HoleSum) -> bool {
    &&& !u.clash
    &&& !(u.anon > 0 && u.idx)
    &&& fixed_params(u) <= rest_position(u)
}

/// The parameter pattern a hask with holes `u` gets: one synthetic binder per
/// fixed position, then a synthetic rest when a rest hole occurred.
pub open spec fn hask_params(u: HoleSum, q: Pat) -> bool {
    let n = rest_position(u);
    &&& q matches Pat::Tuple(es)
    &&& es@.len() == n + if u.rest is Some { 1int } else { 0int }
    &&& forall|i: int| 0 <= i < n ==> (#[trigger] es@[i] matches PatElem::Pat(Pat::Bind(x)) && synthetic(x@))
    &&& u.rest is Some ==> (es@[n as int] matches PatElem::Rest(Some(x)) && synthetic(x@))
}

pub open spec fn holes(e: SExpr) -> HoleSum
    decreases e, 0nat,
{
    match e {
        SExpr::Template(ps) => holes_template(ps@),
        SExpr::Hole(h) => hole_use(h),
        SExpr::Grouping(inner) => holes(*inner),
        SExpr::Tuple(es) => holes_elems(es@),
        SExpr::Record(fs) => holes_fields(fs@),
        SExpr::Block(ss) => holes_stmts(ss@),
        SExpr::Arrow(a) => holes_arrow(a),
        SExpr::Match { scrutinee, arms } => combine(holes(*scrutinee), holes_arms(arms@)),
        SExpr::Pipe { dir, left, right } => match dir {
            PipeDir::Forward => combine(holes(*right), holes(*left)),
            PipeDir::Backward => combine(holes(*left), holes(*right)),
        },
        SExpr::Ternary { cond, then, els } => combine(combine(holes(*cond), holes(*then)), holes(*els)),
        SExpr::Binary { left, right, .. } => combine(holes(*left), holes(*right)),
        SExpr::Unary { operand, .. } => holes(*operand),
        SExpr::Access { target, form, .. } => combine(holes(*target), holes_access(form)),
        SExpr::Call { callee, args } => combine(holes(*callee), holes_args(args@)),
        _ => no_holes(),
    }
}

pub open spec fn holes_opt(e: Option<Box<SExpr>>) -> HoleSum
    decreases e, 0nat,
{
    match e {
        Some(x) => holes(*x),
        None => no_holes(),
    }
}

pub open spec fn holes_access(f: SAccessForm) -> HoleSum
    decreases f, 0nat,
{
    match f {
        SAccessForm::Index(x) => holes(*x),
        SAccessForm::Slice { lo, hi } => combine(holes_opt(lo), holes_opt(hi)),
        _ => no_holes(),
    }
}

pub open spec fn holes_part(p: STemplatePart) -> HoleSum
    decreases p, 0nat,
{
    match p {
        STemplatePart::Interp(x) => holes(x),
        _ => no_holes(),
    }
}

pub open spec fn holes_template(ps: Seq<STemplatePart>) -> HoleSum
    decreases ps, 0nat,
{
    if ps.len() == 0 {
        no_holes()
    } else {
        combine(holes_template(ps.drop_last()), holes_part(ps.last()))
    }
}

pub open spec fn holes_elem(el: SElem) -> HoleSum
    decreases el, 0nat,
{
    match el {
        SElem::Expr(x) => holes(x),
        SElem::Spread(x) => match x {
            SExpr::Hole(h) => rest_use(h),
            _ => holes(x),
        },
    }
}

pub open spec fn holes_elems(es: Seq<SElem>) -> HoleSum
    decreases es, 0nat,
{
    if es.len() == 0 {
        no_holes()
    } else {
        combine(holes_elems(es.drop_last()), holes_elem(es.last()))
    }
}

pub open spec fn holes_arg(a: SArg) -> HoleSum
    decreases a, 0nat,
{
    match a {
        SArg::Expr(x) => holes(x),
        SArg::Spread(x) => match x {
            SExpr::Hole(h) => rest_use(h),
            _ => holes(x),
        },
    }
}

pub open spec fn holes_args(es: Seq<SArg>) -> HoleSum
    decreases es, 0nat,
{
    if es.len() == 0 {
        no_holes()
    } else {
        combine(holes_args(es.drop_last()), holes_arg(es.last()))
    }
}

pub open spec fn holes_field(f: SField) -> HoleSum
    decreases f, 0nat,
{
    match f {
        SField::KeyValue(_, v) => holes(v),
        SField::Computed(k, v) => combine(holes(k), holes(v)),
        SField::Spread(x) => holes(x),
        _ => no_holes(),
    }
}

pub open spec fn holes_fields(fs: Seq<SField>) -> HoleSum
    decreases fs, 0nat,
{
    if fs.len() == 0 {
        no_holes()
    } else {
        combine(holes_fields(fs.drop_last()), holes_field(fs.last()))
    }
}

pub open spec fn holes_arrow(a: SArrow) -> HoleSum
    decreases a, 0nat,
{
    match *a.body {
        SArrowBody::Expr(x) => holes(x),
        SArrowBody::Block(ss) => holes_stmts(ss@),
    }
}

pub open spec fn holes_guard_opt(g: Option<SExpr>) -> HoleSum
    decreases g, 0nat,
{
    match g {
        Some(x) => holes(x),
        None => no_holes(),
    }
}

/// An arm lowers its result, then its guard.
pub open spec fn holes_arm(a: SArm) -> HoleSum
    decreases a, 0nat,
{
    combine(holes(a.result), holes_guard_opt(a.guard))
}

pub open spec fn holes_arms(arms: Seq<SArm>) -> HoleSum
    decreases arms, 0nat,
{
    if arms.len() == 0 {
        no_holes()
    } else {
        combine(holes_arms(arms.drop_last()), holes_arm(arms.last()))
    }
}

/// A mutation lowers the assigned value, then the slice bounds.
pub open spec fn holes_mutation(s: SStmt) -> HoleSum
    decreases s, 0nat,
{
    match s {
        SStmt::Mutation { path, value, .. } => if path.segments@.len() == 1 && path.segments@[0] is Slice {
            combine(
                combine(
                    holes(value),
                    match path.segments@[0]->Slice_lo {
                        Some(x) => holes(x),
                        None => no_holes(),
                    },
                ),
                match path.segments@[0]->Slice_hi {
                    Some(x) => holes(x),
                    None => no_holes(),
                },
            )
        } else {
            holes(value)
        },
        _ => no_holes(),
    }
}

pub open spec fn holes_stmt(s: SStmt) -> HoleSum
    decreases s, 1nat,
{
    match s {
        SStmt::Binding(b) => holes(b.value),
        SStmt::Expr(x) => holes(x),
        SStmt::Mutation { .. } => holes_mutation(s),
        SStmt::WhenArm { guard, result } => combine(holes(guard), holes(result)),
        SStmt::ElseArm { result } => holes(result),
        _ => no_holes(),
    }
}

pub open spec fn holes_stmts(ss: Seq<SStmt>) -> HoleSum
    decreases ss, 0nat,
{
    if ss.len() == 0 {
        no_holes()
    } else {
        combine(holes_stmts(ss.drop_last()), holes_stmt(ss.last()))
    }
}


// ── Patterns ─────────────────────────────────────────────────────────────────

/// Whether a surface pattern lowers at all: pins and alternation only stand at
/// the top of an arm.
pub open spec fn ok_pat(p: SPattern) -> bool
    decreases p,
{
    match p {
        SPattern::Tuple(es) => forall|i: int| 0 <= i < es@.len() ==> ok_pat_elem(#[trigger] es@[i]),
        SPattern::Record(fs, _) => forall|i: int| 0 <= i < fs@.len() ==> ok_pat_field(#[trigger] fs@[i]),
        SPattern::Pin(_) => false,
        SPattern::PinHole(_) => false,
        SPattern::Alt(_) => false,
        _ => true,
    }
}

pub open spec fn ok_pat_elem(e: SPatElem) -> bool
    decreases e,
{
    match e {
        SPatElem::Pat(p) => ok_pat(p),
        SPatElem::Rest(_) => true,
    }
}

pub open spec fn ok_pat_field(f: SPatField) -> bool
    decreases f,
{
    match f {
        SPatField::Field(_, Some(p)) => ok_pat(p),
        _ => true,
    }
}

pub open spec fn ok_pat_elems(es: Seq<SPatElem>) -> bool {
    forall|i: int| 0 <= i < es.len() ==> ok_pat_elem(#[trigger] es[i])
}

pub open spec fn ok_pat_fields(fs: Seq<SPatField>) -> bool {
    forall|i: int| 0 <= i < fs.len() ==> ok_pat_field(#[trigger] fs[i])
}

/// Whether a surface pattern binds a name (record shorthand and captured
/// rests bind; pins compare).
pub open spec fn binds(p: SPattern) -> bool
    decreases p,
{
    match p {
        SPattern::Bind(_) => true,
        SPattern::Tuple(es) => exists|i: int| 0 <= i < es@.len() && elem_binds(#[trigger] es@[i]),
        SPattern::Record(fs, _) => exists|i: int| 0 <= i < fs@.len() && field_binds(#[trigger] fs@[i]),
        SPattern::Alt(alts) => exists|i: int| 0 <= i < alts@.len() && binds(#[trigger] alts@[i]),
        _ => false,
    }
}

pub open spec fn elem_binds(e: SPatElem) -> bool
    decreases e,
{
    match e {
        SPatElem::Pat(p) => binds(p),
        SPatElem::Rest(n) => n is Some,
    }
}

pub open spec fn field_binds(f: SPatField) -> bool
    decreases f,
{
    match f {
        SPatField::Field(_, None) => true,
        SPatField::Field(_, Some(p)) => binds(p),
        SPatField::Rest(n) => n is Some,
    }
}

/// The kernel pattern of a surface pattern.
pub open spec fn lowers_pat(p: SPattern, q: Pat) -> bool
    decreases p,
{
    match p {
        SPattern::Number(n) => (q matches Pat::Const(v) && v.key() matches ValueKey::Number(x) && same_value(x, n@)),
        SPattern::Str(u) => (q matches Pat::Const(v) && v.key() == ValueKey::Str(u@)),
        SPattern::Prelude(name) => if name@ == "true"@ {
            pat_bool(Some(q), true)
        } else if name@ == "false"@ {
            pat_bool(Some(q), false)
        } else {
            pat_null(Some(q))
        },
        SPattern::Bind(n) => (q matches Pat::Bind(m) && m@ == n@),
        SPattern::Wild => q is Wild,
        SPattern::Contract(n) => (q matches Pat::Contract(Ref::Immutable(BindingRef::Name(m))) && m@ == n@),
        SPattern::Tuple(es) => (q matches Pat::Tuple(qs) && qs@.len() == es@.len()
            && forall|i: int| 0 <= i < es@.len() ==> lowers_pat_elem(#[trigger] es@[i], qs@[i])),
        SPattern::Record(fs, exact) => (q matches Pat::Record { fields: qs, exact: x } && x == exact
            && qs@.len() == fs@.len() && forall|i: int| 0 <= i < fs@.len() ==> lowers_pat_field(#[trigger] fs@[i], qs@[i])),
        _ => false,
    }
}

pub open spec fn lowers_pat_elem(p: SPatElem, q: PatElem) -> bool
    decreases p,
{
    match p {
        SPatElem::Pat(x) => (q matches PatElem::Pat(y) && lowers_pat(x, y)),
        SPatElem::Rest(n) => q == PatElem::Rest(n),
    }
}

pub open spec fn lowers_pat_field(p: SPatField, q: PatField) -> bool
    decreases p,
{
    match p {
        SPatField::Field(key, Some(x)) => (q matches PatField::Field { key: k, pat } && k@ == key@ && lowers_pat(x, pat)),
        SPatField::Field(key, None) => (q matches PatField::Field { key: k, pat: Pat::Bind(m) } && k@ == key@ && m@ == key@),
        SPatField::Rest(n) => q == PatField::Rest(n),
    }
}

pub open spec fn lowers_pat_elems(ps: Seq<SPatElem>, qs: Seq<PatElem>) -> bool {
    qs.len() == ps.len() && forall|i: int| 0 <= i < ps.len() ==> lowers_pat_elem(#[trigger] ps[i], qs[i])
}

pub open spec fn lowers_pat_fields(ps: Seq<SPatField>, qs: Seq<PatField>) -> bool {
    qs.len() == ps.len() && forall|i: int| 0 <= i < ps.len() ==> lowers_pat_field(#[trigger] ps[i], qs[i])
}

/// Arrow parameters: a pattern over the whole argument tuple.
pub open spec fn ok_param(p: SParam) -> bool {
    match p {
        SParam::Tuple(es) => ok_pat_elems(es@),
        SParam::Record(fs, _) => ok_pat_fields(fs@),
        _ => true,
    }
}

pub open spec fn lowers_param(p: SParam, q: PatElem) -> bool {
    match p {
        SParam::Ident(n) => (q matches PatElem::Pat(Pat::Bind(m)) && m@ == n@),
        SParam::Tuple(es) => (q matches PatElem::Pat(Pat::Tuple(qs)) && lowers_pat_elems(es@, qs@)),
        SParam::Record(fs, exact) => (q matches PatElem::Pat(Pat::Record { fields: qs, exact: x }) && x == exact
            && lowers_pat_fields(fs@, qs@)),
        SParam::Rest(n) => (q matches PatElem::Rest(Some(m)) && m@ == n@),
    }
}

pub open spec fn ok_params(ps: Seq<SParam>) -> bool {
    forall|i: int| 0 <= i < ps.len() ==> ok_param(#[trigger] ps[i])
}

pub open spec fn lowers_params(ps: Seq<SParam>, q: Pat) -> bool {
    q matches Pat::Tuple(qs) && qs@.len() == ps.len() && forall|i: int| 0 <= i < ps.len() ==> lowers_param(#[trigger] ps[i], qs@[i])
}

/// A binding target (a name or an irrefutable pattern).
pub open spec fn ok_target(t: SBindTarget) -> bool {
    match t {
        SBindTarget::Name(_) => true,
        SBindTarget::Tuple(es) => ok_pat_elems(es@),
        SBindTarget::Record(fs, _) => ok_pat_fields(fs@),
    }
}

pub open spec fn lowers_target(t: SBindTarget, k: BindTarget) -> bool {
    match t {
        SBindTarget::Name(n) => (k matches BindTarget::Name(m) && m@ == n@),
        SBindTarget::Tuple(es) => (k matches BindTarget::Pattern(Pat::Tuple(qs)) && lowers_pat_elems(es@, qs@)),
        SBindTarget::Record(fs, exact) => (k matches BindTarget::Pattern(Pat::Record { fields: qs, exact: x })
            && x == exact && lowers_pat_fields(fs@, qs@)),
    }
}

/// How many kernel arms a surface arm expands to.
pub open spec fn arm_count(a: SArm) -> nat {
    match a.pattern {
        Some(SPattern::Alt(alts)) => alts@.len(),
        _ => 1,
    }
}

/// The `i`-th alternative of an arm pattern.
pub open spec fn alt_at(p: SPattern, i: int) -> SPattern {
    match p {
        SPattern::Alt(alts) => alts@[i],
        _ => p,
    }
}

/// The arm pattern is admissible: binding-free alternatives, and each
/// alternative a top-level pin or a lowerable pattern.
pub open spec fn ok_arm_pat(p: SPattern) -> bool {
    p is Pin || ok_pat(p)
}

pub open spec fn ok_arm_pattern(p: Option<SPattern>) -> bool {
    match p {
        None => true,
        Some(SPattern::Alt(alts)) => forall|i: int| 0 <= i < alts@.len() ==> !binds(#[trigger] alts@[i]) && ok_arm_pat(alts@[i]),
        Some(q) => ok_arm_pat(q),
    }
}

/// `k` is `tmp == name`.
pub open spec fn pin_eq(k: Expr, tmp: Seq<char>, name: Seq<char>) -> bool {
    prim2(k, PrimOp::Eq) && name_ref(prim_arg(k, 0), tmp) && name_ref(prim_arg(k, 1), name)
}

/// The pattern `xp` and guard `xg` of the kernel arm for the alternative `p`
/// under the (copied) arm guard `g`: a pin binds a synthetic temporary and
/// adds an equality guard, joined to `g` by `&&`; any other alternative lowers
/// as a pattern and keeps `g`.
pub open spec fn lowers_alt(p: SPattern, g: Option<Expr>, xp: Option<Pat>, xg: Option<Expr>) -> bool {
    match p {
        SPattern::Pin(name) => {
            &&& xp matches Some(Pat::Bind(t))
            &&& synthetic(t@)
            &&& xg matches Some(gk)
            &&& match g {
                None => pin_eq(gk, t@, name@),
                Some(b) => bool_match_shape(gk) && pin_eq(scrut(gk), t@, name@) && expr_deq(b, arm_res(gk, 0))
                    && const_bool(arm_res(gk, 1), false),
            }
        },
        _ => (xp matches Some(q) && lowers_pat(p, q) && guard_deq(g, xg)),
    }
}

// ── Which surface programs lower ─────────────────────────────────────────────

/// Whether `e` lowers (`h`: inside a hask).
pub open spec fn ok_expr(e: SExpr, h: bool) -> bool
    decreases e, 0nat,
{
    match e {
        SExpr::Template(ps) => forall|i: int| 0 <= i < ps@.len() ==> ok_part(#[trigger] ps@[i], h),
        SExpr::Hole(_) => h,
        SExpr::Grouping(inner) => ok_expr(*inner, h),
        SExpr::Tuple(es) => forall|i: int| 0 <= i < es@.len() ==> ok_elem(#[trigger] es@[i], h),
        SExpr::Record(fs) => forall|i: int| 0 <= i < fs@.len() ==> ok_field(#[trigger] fs@[i], h),
        SExpr::Block(ss) => forall|i: int| 0 <= i < ss@.len() ==> ok_block_stmt(#[trigger] ss@[i], h),
        SExpr::Arrow(a) => ok_arrow(a, h),
        SExpr::Hask(body) => ok_expr(*body, true) && hask_ok(holes(*body)),
        SExpr::Match { scrutinee, arms } => ok_expr(*scrutinee, h) && forall|i: int| 0 <= i < arms@.len() ==> ok_arm(
            #[trigger] arms@[i],
            h,
        ),
        SExpr::Pipe { left, right, .. } => ok_expr(*left, h) && ok_expr(*right, h),
        SExpr::Ternary { cond, then, els } => ok_expr(*cond, h) && ok_expr(*then, h) && ok_expr(*els, h),
        SExpr::Binary { left, right, .. } => ok_expr(*left, h) && ok_expr(*right, h),
        SExpr::Unary { operand, .. } => ok_expr(*operand, h),
        SExpr::Access { target, form, .. } => ok_expr(*target, h) && ok_access(form, h),
        SExpr::Call { callee, args } => ok_expr(*callee, h) && forall|i: int| 0 <= i < args@.len() ==> ok_arg(
            #[trigger] args@[i],
            h,
        ),
        _ => true,
    }
}

pub open spec fn ok_opt(e: Option<Box<SExpr>>, h: bool) -> bool
    decreases e, 0nat,
{
    match e {
        Some(x) => ok_expr(*x, h),
        None => true,
    }
}

pub open spec fn ok_access(f: SAccessForm, h: bool) -> bool
    decreases f, 0nat,
{
    match f {
        SAccessForm::Index(x) => ok_expr(*x, h),
        SAccessForm::Slice { lo, hi } => ok_opt(lo, h) && ok_opt(hi, h),
        _ => true,
    }
}

pub open spec fn ok_part(p: STemplatePart, h: bool) -> bool
    decreases p, 0nat,
{
    match p {
        STemplatePart::Interp(x) => ok_expr(x, h),
        _ => true,
    }
}

pub open spec fn ok_elem(e: SElem, h: bool) -> bool
    decreases e, 0nat,
{
    match e {
        SElem::Expr(x) => ok_expr(x, h),
        SElem::Spread(x) => ok_expr(x, h),
    }
}

pub open spec fn ok_arg(a: SArg, h: bool) -> bool
    decreases a, 0nat,
{
    match a {
        SArg::Expr(x) => ok_expr(x, h),
        SArg::Spread(x) => ok_expr(x, h),
    }
}

pub open spec fn ok_field(f: SField, h: bool) -> bool
    decreases f, 0nat,
{
    match f {
        SField::KeyValue(_, v) => ok_expr(v, h),
        SField::Computed(k, v) => ok_expr(k, h) && ok_expr(v, h),
        SField::Spread(x) => ok_expr(x, h),
        _ => true,
    }
}

pub open spec fn ok_arrow(a: SArrow, h: bool) -> bool
    decreases a, 0nat,
{
    ok_params(a.params@) && match *a.body {
        SArrowBody::Expr(x) => ok_expr(x, h),
        SArrowBody::Block(ss) => forall|i: int| 0 <= i < ss@.len() ==> ok_block_stmt(#[trigger] ss@[i], h),
    }
}

pub open spec fn ok_arm(a: SArm, h: bool) -> bool
    decreases a, 0nat,
{
    &&& ok_expr(a.result, h)
    &&& match a.guard {
        Some(g) => ok_expr(g, h),
        None => true,
    }
    &&& ok_arm_pattern(a.pattern)
}

pub open spec fn ok_binding(b: SBinding, h: bool) -> bool
    decreases b, 0nat,
{
    ok_target(b.target) && ok_expr(b.value, h)
}

/// A mutation lowers when its path is a single slice under `:=`, or field
/// segments only.
pub open spec fn ok_mutation(s: SStmt, h: bool) -> bool
    decreases s, 0nat,
{
    match s {
        SStmt::Mutation { path, op, value } => if path.segments@.len() == 1 && path.segments@[0] is Slice {
            &&& op == MutOp::Assign
            &&& ok_expr(value, h)
            &&& match path.segments@[0]->Slice_lo {
                Some(x) => ok_expr(x, h),
                None => true,
            }
            &&& match path.segments@[0]->Slice_hi {
                Some(x) => ok_expr(x, h),
                None => true,
            }
        } else {
            (forall|i: int| 0 <= i < path.segments@.len() ==> #[trigger] path.segments@[i] is Field) && ok_expr(
                value,
                h,
            )
        },
        _ => false,
    }
}

/// A statement of a block body (declarations are not allowed there).
pub open spec fn ok_block_stmt(s: SStmt, h: bool) -> bool
    decreases s, 1nat,
{
    match s {
        SStmt::Binding(b) => ok_binding(b, h),
        SStmt::Expr(x) => ok_expr(x, h),
        SStmt::Mutation { .. } => ok_mutation(s, h),
        SStmt::WhenArm { guard, result } => ok_expr(guard, h) && ok_expr(result, h),
        SStmt::ElseArm { result } => ok_expr(result, h),
        _ => false,
    }
}

// ── What each surface form lowers to ─────────────────────────────────────────

/// `k` is the kernel lowering of `e`.
pub open spec fn lowers(e: SExpr, k: Expr) -> bool
    decreases e, 1nat,
{
    match e {
        SExpr::Number(n) => (k matches Expr::Const(v) && v.key() matches ValueKey::Number(x) && same_value(x, n@)),
        SExpr::Str(u) => (k matches Expr::Const(v) && v.key() == ValueKey::Str(u@)),
        SExpr::Template(ps) => (k matches Expr::Template(ks) && ks@.len() == ps@.len()
            && forall|i: int| 0 <= i < ps@.len() ==> lowers_part(#[trigger] ps@[i], ks@[i])),
        SExpr::Ident(name) => if name@ == "true"@ {
            const_bool(k, true)
        } else if name@ == "false"@ {
            const_bool(k, false)
        } else if name@ == "null"@ {
            const_null(k)
        } else {
            name_ref(k, name@)
        },
        SExpr::Hole(_) => synthetic_ref(k),
        SExpr::Grouping(inner) => lowers(*inner, k),
        SExpr::Tuple(es) => (k matches Expr::TupleCons(ks) && ks@.len() == es@.len()
            && forall|i: int| 0 <= i < es@.len() ==> lowers_elem(#[trigger] es@[i], ks@[i])),
        SExpr::Record(fs) => (k matches Expr::RecordCons(ks) && ks@.len() == fs@.len()
            && forall|i: int| 0 <= i < fs@.len() ==> lowers_field(#[trigger] fs@[i], ks@[i])),
        SExpr::Block(ss) => (k matches Expr::Match(m) && lowers_block(ss@, m)),
        SExpr::Arrow(a) => (k matches Expr::Lambda(l) && lowers_arrow(a, l)),
        SExpr::Hask(body) => (k matches Expr::Lambda(l) && l.act_kind == ActKind::Pure && lowers(*body, *l.body)
            && hask_params(holes(*body), l.params)),
        SExpr::Match { scrutinee, arms } => (k matches Expr::Match(m) && m.scrutinee matches Some(b)
            && lowers(*scrutinee, *b) && lowers_arms(arms@, m.items@)),
        SExpr::Pipe { dir, left, right } => (k matches Expr::Apply { callee, args } && args@.len() == 1
            && (args@[0] matches Arg::Expr(x) && match dir {
            PipeDir::Forward => lowers(*right, *callee) && lowers(*left, x),
            PipeDir::Backward => lowers(*left, *callee) && lowers(*right, x),
        })),
        SExpr::Ternary { cond, then, els } => bool_match_shape(k) && lowers(*cond, scrut(k)) && lowers(
            *then,
            arm_res(k, 0),
        ) && lowers(*els, arm_res(k, 1)),
        SExpr::Binary { .. } => lowers_binary(e, k),
        SExpr::Unary { .. } => lowers_unary(e, k),
        SExpr::Access { target, form, total } => (k matches Expr::Access { target: t, form: f, total: u } && u == total
            && lowers(*target, *t) && lowers_access(form, f)),
        SExpr::Call { callee, args } => (k matches Expr::Apply { callee: c, args: ks } && lowers(*callee, *c)
            && ks@.len() == args@.len() && forall|i: int| 0 <= i < args@.len() ==> lowers_arg(#[trigger] args@[i], ks@[i])),
    }
}

/// `~a || b`: `a` itself when truthy, else `b` (both falsy arms carry equal
/// copies of `b`).
pub open spec fn escaped_or_shape(k: Expr) -> bool {
    &&& arms_match(k, 3)
    &&& pat_bool(arm_pat(k, 0), false)
    &&& pat_null(arm_pat(k, 1))
    &&& expr_deq(arm_res(k, 0), arm_res(k, 1))
    &&& arm_pat(k, 2) matches Some(Pat::Bind(v)) && synthetic(v@) && name_ref(arm_res(k, 2), v@)
}

/// `~a && b`: `b` when `a` is truthy, else the falsy value itself.
pub open spec fn escaped_and_shape(k: Expr) -> bool {
    &&& arms_match(k, 3)
    &&& pat_bool(arm_pat(k, 0), false)
    &&& const_bool(arm_res(k, 0), false)
    &&& pat_null(arm_pat(k, 1))
    &&& const_null(arm_res(k, 1))
    &&& arm_pat(k, 2) matches Some(Pat::Bind(v)) && synthetic(v@)
}

/// Whether `e` is `~x`.
pub open spec fn loosened(e: SExpr) -> bool {
    e matches SExpr::Unary { op: UnOp::Loosen, .. }
}

pub open spec fn lowers_binary(e: SExpr, k: Expr) -> bool
    decreases e, 0nat,
{
    match e {
        SExpr::Binary { op, left, right } => if op == BinOp::Or && loosened(*left) {
            escaped_or_shape(k) && lowers(*(*left)->Unary_operand, scrut(k)) && lowers(*right, arm_res(k, 0))
        } else if op == BinOp::And && loosened(*left) {
            escaped_and_shape(k) && lowers(*(*left)->Unary_operand, scrut(k)) && lowers(*right, arm_res(k, 2))
        } else if op == BinOp::And {
            bool_match_shape(k) && lowers(*left, scrut(k)) && lowers(*right, arm_res(k, 0)) && const_bool(
                arm_res(k, 1),
                false,
            )
        } else if op == BinOp::Or {
            bool_match_shape(k) && lowers(*left, scrut(k)) && const_bool(arm_res(k, 0), true) && lowers(
                *right,
                arm_res(k, 1),
            )
        } else if op == BinOp::NullOr {
            null_or_shape(k) && lowers(*left, scrut(k)) && lowers(*right, arm_res(k, 0))
        } else {
            prim2(k, prim_of(op)) && lowers(*left, prim_arg(k, 0)) && lowers(*right, prim_arg(k, 1))
        },
        _ => false,
    }
}

pub open spec fn lowers_unary(e: SExpr, k: Expr) -> bool
    decreases e, 0nat,
{
    match e {
        SExpr::Unary { op, operand } => if op == UnOp::Neg {
            k matches Expr::PrimOp { op: PrimOp::Neg, args } && args@.len() == 1 && lowers(*operand, args@[0])
        } else if op == UnOp::Not && loosened(*operand) {
            &&& falsy_match_shape(k)
            &&& lowers(*(*operand)->Unary_operand, scrut(k))
            &&& const_bool(arm_res(k, 0), true)
            &&& const_bool(arm_res(k, 1), true)
            &&& const_bool(arm_res(k, 2), false)
        } else if op == UnOp::Not {
            bool_match_shape(k) && lowers(*operand, scrut(k)) && const_bool(arm_res(k, 0), false) && const_bool(
                arm_res(k, 1),
                true,
            )
        } else {
            &&& falsy_match_shape(k)
            &&& lowers(*operand, scrut(k))
            &&& const_bool(arm_res(k, 0), false)
            &&& const_bool(arm_res(k, 1), false)
            &&& const_bool(arm_res(k, 2), true)
        },
        _ => false,
    }
}

pub open spec fn lowers_opt(e: Option<Box<SExpr>>, k: Option<Box<Expr>>) -> bool
    decreases e, 0nat,
{
    match e {
        Some(x) => (k matches Some(y) && lowers(*x, *y)),
        None => k is None,
    }
}

pub open spec fn lowers_access(f: SAccessForm, k: AccessForm) -> bool
    decreases f, 0nat,
{
    match f {
        SAccessForm::Field(n) => (k matches AccessForm::Field(m) && m@ == n@),
        SAccessForm::Index(x) => (k matches AccessForm::Index(y) && lowers(*x, *y)),
        SAccessForm::Slice { lo, hi } => (k matches AccessForm::Slice { lo: l, hi: u } && lowers_opt(lo, l)
            && lowers_opt(hi, u)),
    }
}

pub open spec fn lowers_part(p: STemplatePart, k: TemplatePart) -> bool
    decreases p, 0nat,
{
    match p {
        STemplatePart::Str(u) => (k matches TemplatePart::Segment(s) && s@ == utf16_lossy(u@)),
        STemplatePart::Interp(x) => (k matches TemplatePart::Interp(y) && lowers(x, y)),
    }
}

pub open spec fn lowers_elem(e: SElem, k: Element) -> bool
    decreases e, 0nat,
{
    match e {
        SElem::Expr(x) => (k matches Element::Expr(y) && lowers(x, y)),
        SElem::Spread(x) => (k matches Element::Spread(y) && lowers(x, y)),
    }
}

pub open spec fn lowers_arg(a: SArg, k: Arg) -> bool
    decreases a, 0nat,
{
    match a {
        SArg::Expr(x) => (k matches Arg::Expr(y) && lowers(x, y)),
        SArg::Spread(x) => (k matches Arg::Spread(y) && lowers(x, y)),
    }
}

pub open spec fn lowers_field(f: SField, k: Field) -> bool
    decreases f, 0nat,
{
    match f {
        SField::Shorthand(n) => (k matches Field::Field { key, value } && key@ == n@ && name_ref(value, n@)),
        SField::KeyValue(n, v) => (k matches Field::Field { key, value } && key@ == n@ && lowers(v, value)),
        SField::Computed(kx, v) => (k matches Field::Computed { key, value } && lowers(kx, key) && lowers(v, value)),
        SField::Spread(x) => (k matches Field::Spread(y) && lowers(x, y)),
    }
}

pub open spec fn lowers_arrow(a: SArrow, l: Lambda) -> bool
    decreases a, 0nat,
{
    &&& l.act_kind == ActKind::Pure
    &&& lowers_params(a.params@, l.params)
    &&& match *a.body {
        SArrowBody::Expr(x) => lowers(x, *l.body),
        SArrowBody::Block(ss) => (*l.body matches Expr::Match(m) && lowers_block(ss@, m)),
    }
}

/// A guard is a strict tested seat; a `~`-loosened guard becomes the
/// truthiness test.
pub open spec fn lowers_guard(g: SExpr, k: Expr) -> bool
    decreases g, 2nat,
{
    if loosened(g) {
        &&& falsy_match_shape(k)
        &&& lowers(*g->Unary_operand, scrut(k))
        &&& const_bool(arm_res(k, 0), false)
        &&& const_bool(arm_res(k, 1), false)
        &&& const_bool(arm_res(k, 2), true)
    } else {
        lowers(g, k)
    }
}

pub open spec fn lowers_guard_opt(g: Option<SExpr>, k: Option<Expr>) -> bool
    decreases g, 0nat,
{
    match g {
        Some(x) => (k matches Some(y) && lowers_guard(x, y)),
        None => k is None,
    }
}

/// Names the lowered result `r` and guard `g` that the arms of one
/// alternation are copied from.
pub open spec fn copied_from(r: Expr, g: Option<Expr>) -> bool {
    true
}

/// One surface arm and the kernel arms it expands to: an unpatterned arm
/// lowers once; otherwise every alternative gets its own arm, each with a copy
/// of the lowered result and guard.
pub open spec fn lowers_arm(a: SArm, ks: Seq<MatchItem>) -> bool
    decreases a, 0nat,
{
    &&& ks.len() == arm_count(a)
    &&& match a.pattern {
        None => (ks[0] matches MatchItem::Arm(x) && x.pattern is None && lowers(a.result, x.result)
            && lowers_guard_opt(a.guard, x.guard)),
        Some(p) => exists|r: Expr, g: Option<Expr>|
            #![trigger copied_from(r, g)]
            copied_from(r, g) && lowers(a.result, r) && lowers_guard_opt(a.guard, g) && forall|i: int| 0 <= i < ks.len() ==> (
            #[trigger] ks[i] matches MatchItem::Arm(x) && expr_deq(r, x.result) && lowers_alt(alt_at(p, i), g, x.pattern, x.guard)),
    }
}

/// The arms of a `match`, expanded in order.
pub open spec fn lowers_arms(arms: Seq<SArm>, items: Seq<MatchItem>) -> bool
    decreases arms, 0nat,
{
    if arms.len() == 0 {
        items.len() == 0
    } else {
        let n = arm_count(arms.last());
        &&& n <= items.len()
        &&& lowers_arms(arms.drop_last(), items.subrange(0, items.len() - n))
        &&& lowers_arm(arms.last(), items.subrange(items.len() - n, items.len() as int))
    }
}

pub open spec fn lowers_binding(b: SBinding, x: Bind) -> bool
    decreases b, 0nat,
{
    x.exported == b.exported && lowers_target(b.target, x.target) && lowers(b.value, x.value)
}

/// The field names of a path made of field segments.
pub open spec fn path_fields(segs: Seq<SPathSeg>) -> Seq<String> {
    segs.map(|i: int, s: SPathSeg| s->Field_0)
}

/// `k` reads `root.f1.f2…` (demand form).
pub open spec fn read_path_is(k: Expr, root: Seq<char>, fs: Seq<String>) -> bool
    decreases fs.len(),
{
    if fs.len() == 0 {
        name_ref(k, root)
    } else {
        &&& k matches Expr::Access { target, form: AccessForm::Field(f), total }
        &&& !total
        &&& f@ == fs.last()@
        &&& read_path_is(*target, root, fs.drop_last())
    }
}

/// `k` rebuilds `root.done…` with the fields `rest` replaced in turn:
/// `{ ...base, f: <update of base.f> }` at each level.
pub open spec fn update_is(k: Expr, root: Seq<char>, done: Seq<String>, rest: Seq<String>) -> bool
    decreases rest.len(),
{
    if rest.len() == 0 {
        true
    } else {
        &&& k matches Expr::RecordCons(fs)
        &&& fs@.len() == 2
        &&& fs@[0] matches Field::Spread(b) && read_path_is(b, root, done)
        &&& fs@[1] matches Field::Field { key, value } && key@ == rest[0]@ && update_is(
            value,
            root,
            done.push(rest[0]),
            rest.drop_first(),
        )
    }
}

/// The innermost replaced value of a nested update `n` levels deep.
pub open spec fn update_leaf(k: Expr, n: nat) -> Expr
    decreases n,
{
    if n == 0 {
        k
    } else {
        update_leaf(k->RecordCons_0@[1]->Field_value, (n - 1) as nat)
    }
}

/// `k` reads the slice `root[lo...hi]` with the given bound shapes.
pub open spec fn slice_read(k: Expr, root: Seq<char>) -> bool {
    k matches Expr::Access { target, form: AccessForm::Slice { .. }, total } && !total && name_ref(*target, root)
}

/// A mutation `path op:= value`: a slice splice
/// `Write(root, [...root[...lo], ...value, ...root[hi...]])`, or a
/// `Write(root, update)` whose innermost replaced value combines the current
/// value with the right-hand side.
pub open spec fn lowers_mutation(s: SStmt, k: Expr) -> bool
    decreases s, 0nat,
{
    match s {
        SStmt::Mutation { path, op, value } => {
            &&& k matches Expr::Write { slot: SlotRef::Name(n), value: v }
            &&& n@ == path.root@
            &&& if path.segments@.len() == 1 && path.segments@[0] is Slice {
                let lo = path.segments@[0]->Slice_lo;
                let hi = path.segments@[0]->Slice_hi;
                let j: int = if lo is Some { 1 } else { 0 };
                &&& *v matches Expr::TupleCons(es)
                &&& es@.len() == j + 1 + if hi is Some { 1int } else { 0int }
                &&& es@[j] matches Element::Spread(r) && lowers(value, r)
                &&& match lo {
                    Some(a) => (es@[0] matches Element::Spread(x) && slice_read(x, path.root@)
                        && x->Access_form->Slice_lo is None && (x->Access_form->Slice_hi matches Some(b) && lowers(
                        a,
                        *b,
                    ))),
                    None => true,
                }
                &&& match hi {
                    Some(a) => (es@[j + 1] matches Element::Spread(x) && slice_read(x, path.root@)
                        && x->Access_form->Slice_hi is None && (x->Access_form->Slice_lo matches Some(b) && lowers(
                        a,
                        *b,
                    ))),
                    None => true,
                }
            } else {
                let fs = path_fields(path.segments@);
                let leaf = update_leaf(*v, fs.len());
                &&& update_is(*v, path.root@, seq![], fs)
                &&& if op == MutOp::Assign {
                    lowers(value, leaf)
                } else if op == MutOp::And {
                    bool_match_shape(leaf) && read_path_is(scrut(leaf), path.root@, fs) && lowers(
                        value,
                        arm_res(leaf, 0),
                    ) && const_bool(arm_res(leaf, 1), false)
                } else if op == MutOp::Or {
                    bool_match_shape(leaf) && read_path_is(scrut(leaf), path.root@, fs) && const_bool(
                        arm_res(leaf, 0),
                        true,
                    ) && lowers(value, arm_res(leaf, 1))
                } else if op == MutOp::Null {
                    null_or_shape(leaf) && read_path_is(scrut(leaf), path.root@, fs) && lowers(
                        value,
                        arm_res(leaf, 0),
                    )
                } else {
                    prim2(leaf, prim_of_mut(op)) && read_path_is(prim_arg(leaf, 0), path.root@, fs) && lowers(
                        value,
                        prim_arg(leaf, 1),
                    )
                }
            }
        },
        _ => false,
    }
}

/// A block: a scrutinee-less `Match` with one item per statement.
pub open spec fn lowers_block(ss: Seq<SStmt>, m: Match) -> bool
    decreases ss, 0nat,
{
    m.scrutinee is None && m.items@.len() == ss.len() && forall|i: int| 0 <= i < ss.len() ==> lowers_stmt(
        #[trigger] ss[i],
        m.items@[i],
    )
}

pub open spec fn lowers_stmt(s: SStmt, it: MatchItem) -> bool
    decreases s, 1nat,
{
    match s {
        SStmt::Binding(b) => (it matches MatchItem::Bind(x) && lowers_binding(b, x)),
        SStmt::Expr(x) => (it matches MatchItem::Stmt(y) && lowers(x, y)),
        SStmt::Mutation { .. } => (it matches MatchItem::Stmt(y) && lowers_mutation(s, y)),
        SStmt::WhenArm { guard, result } => (it matches MatchItem::Arm(a) && a.pattern is None
            && (a.guard matches Some(g) && lowers_guard(guard, g) && lowers(result, a.result))),
        SStmt::ElseArm { result } => (it matches MatchItem::Arm(a) && a.pattern is None && a.guard is None && lowers(
            result,
            a.result,
        )),
        _ => false,
    }
}


/// Holes compose associatively.
pub proof fn lemma_combine_assoc(a: HoleSum, b: HoleSum, c: HoleSum)
    ensures
        combine(combine(a, b), c) == combine(a, combine(b, c)),
{
}

/// No holes is the unit of composition.
pub proof fn lemma_combine_unit(a: HoleSum)
    ensures
        combine(a, no_holes()) == a,
        combine(no_holes(), a) == a,
{
}


// ── Declarations and programs ────────────────────────────────────────────────

/// A lowered expression is a function exactly when the surface form is an
/// arrow or a hask (possibly parenthesized); such functions are pure.
pub proof fn lemma_lambda_shape(e: SExpr, k: Expr)
    requires
        lowers(e, k),
    ensures
        (k is Lambda) == yields_lambda(e),
        k is Lambda ==> k->Lambda_0.act_kind == ActKind::Pure,
    decreases e,
{
    match e {
        SExpr::Grouping(inner) => lemma_lambda_shape(*inner, k),
        SExpr::Arrow(a) => {
            assert(lowers_arrow(a, k->Lambda_0));
        },
        SExpr::Binary { .. } => {
            assert(lowers_binary(e, k));
        },
        SExpr::Unary { .. } => {
            assert(lowers_unary(e, k));
        },
        _ => {},
    }
}

/// An `@op name = value` declaration lowers: `@state`/`@mutable` declare a
/// slot, `@mutate`/`@effect` bind an arrow or hask; the target is a name.
pub open spec fn ok_at(at: SAt, h: bool) -> bool {
    match at {
        SAt::Binding { op, binding } => {
            &&& binding.target is Name
            &&& ok_expr(binding.value, h)
            &&& (op@ == "state"@ || op@ == "mutable"@ || ((op@ == "mutate"@ || op@ == "effect"@) && yields_lambda(
                binding.value,
            )))
        },
        SAt::Anon { .. } => false,
    }
}

pub open spec fn lowers_at(at: SAt, it: Item) -> bool {
    match at {
        SAt::Binding { op, binding } => {
            &&& binding.target matches SBindTarget::Name(n)
            &&& if op@ == "state"@ || op@ == "mutable"@ {
                it matches Item::SlotDecl(d) && d.reactive == (op@ == "state"@) && d.name@ == n@ && d.exported
                    == binding.exported && lowers(binding.value, d.init)
            } else {
                &&& it matches Item::ActBind(a)
                &&& a.kind == if op@ == "mutate"@ {
                    ActKind::Mutator
                } else {
                    ActKind::Effect
                }
                &&& a.name@ == n@
                &&& a.exported == binding.exported
                &&& a.lambda.act_kind == a.kind
                &&& lowers(
                    binding.value,
                    Expr::Lambda(Lambda { params: a.lambda.params, body: a.lambda.body, act_kind: ActKind::Pure }),
                )
            }
        },
        SAt::Anon { .. } => false,
    }
}

/// The input contract of a `where` clause: the single contract, or the tuple
/// of the listed contracts.
pub open spec fn where_input(ins: Seq<SExpr>, k: Expr) -> bool {
    if ins.len() == 1 {
        lowers(ins[0], k)
    } else {
        k matches Expr::TupleCons(es) && es@.len() == ins.len() && forall|i: int| 0 <= i < ins.len() ==> (
        #[trigger] es@[i] matches Element::Expr(x) && lowers(ins[i], x))
    }
}

/// Two optional name lists hold the same names.
pub open spec fn names_same(a: Option<Vec<String>>, b: Option<Vec<String>>) -> bool {
    match b {
        Some(v) => (a matches Some(w) && w@ == v@),
        None => a is None,
    }
}

/// Whether a top-level statement lowers (arm exits belong in blocks).
pub open spec fn ok_item(s: SStmt, h: bool) -> bool {
    match s {
        SStmt::Binding(b) => ok_binding(b, h),
        SStmt::Import { .. } => true,
        SStmt::Where { inputs, ret, .. } => (forall|i: int| 0 <= i < inputs@.len() ==> ok_expr(#[trigger] inputs@[i], h))
            && ok_expr(ret, h),
        SStmt::At(at) => ok_at(at, h),
        SStmt::Mutation { .. } => ok_mutation(s, h),
        SStmt::Expr(x) => ok_expr(x, h),
        _ => false,
    }
}

pub open spec fn lowers_item(s: SStmt, it: Item) -> bool {
    match s {
        SStmt::Binding(b) => (it matches Item::Bind(x) && lowers_binding(b, x)),
        SStmt::Import { names, module } => (it matches Item::Import(i) && names_same(i.names, names)
            && i.module@ == dot_joined(module@)),
        SStmt::Where { name, inputs, ret } => (it matches Item::Where(w) && w.name@ == name@ && lowers(
            ret,
            w.return_contract,
        ) && where_input(inputs@, w.input_contract)),
        SStmt::At(at) => lowers_at(at, it),
        SStmt::Mutation { .. } => (it matches Item::Stmt(x) && lowers_mutation(s, x)),
        SStmt::Expr(x) => (it matches Item::Stmt(y) && lowers(x, y)),
        _ => false,
    }
}

/// A program: its module name is the dotted header, and each statement lowers
/// to the item at its position.
pub open spec fn lowers_program(p: SProgram, m: Module) -> bool {
    &&& match p.header {
        Some(parts) => (m.name matches Some(n) && n@ == dot_joined(parts@)),
        None => m.name is None,
    }
    &&& m.items@.len() == p.statements@.len()
    &&& forall|i: int| 0 <= i < p.statements@.len() ==> lowers_item(#[trigger] p.statements@[i], m.items@[i])
}

/// A forward pipe lowers exactly as a call of its right side on its left
/// side: `x |> f` is `f(x)`; a backward pipe `f <| x` likewise.
pub proof fn lemma_pipe_is_application(x: SExpr, f: SExpr, call: SExpr, k: Expr)
    requires
        call matches SExpr::Call { callee, args } && *callee == f && args@ == seq![SArg::Expr(x)],
    ensures
        lowers(SExpr::Pipe { dir: PipeDir::Forward, left: Box::new(x), right: Box::new(f) }, k) <==> lowers(call, k),
        lowers(SExpr::Pipe { dir: PipeDir::Backward, left: Box::new(f), right: Box::new(x) }, k) <==> lowers(call, k),
{
    let args = call->Call_args@;
    let fwd = SExpr::Pipe { dir: PipeDir::Forward, left: Box::new(x), right: Box::new(f) };
    let bwd = SExpr::Pipe { dir: PipeDir::Backward, left: Box::new(f), right: Box::new(x) };
    assert(args[0] == SArg::Expr(x));
    if lowers(fwd, k) || lowers(bwd, k) {
        let ks = k->Apply_args@;
        assert forall|i: int| 0 <= i < args.len() implies lowers_arg(#[trigger] args[i], ks[i]) by {
            assert(i == 0);
        }
        assert(lowers(call, k));
    }
    if lowers(call, k) {
        assert(lowers_arg(args[0], k->Apply_args@[0]));
        assert(lowers(fwd, k));
        assert(lowers(bwd, k));
    }
}

} // verus!
