//! The arithmetic rule of normalization: a local rewrite of `+`, `-`, unary
//! `-` and `*` chains whose children are already normalized.
//!
//! Three rewrites are permitted: reordering operands, folding literal
//! constants, and combining like terms (`x + x` becomes `2 * x`). Nothing
//! that would erase an operand fires: no `0 * e`, no `e - e`, no `x + 0` or
//! `x * 1` elimination. A combination that would cancel a term, or leave one
//! bare variable, falls back to reordering alone.
//!
//! An operand that can call or write is anchored: it keeps its place among
//! the anchored operands and never merges into a coefficient. Other operands
//! move, ordered by their keys.

use crate::ast::{clone_expr, expr_deq, lemma_expr_deq_trans, AccessForm, Element, Expr, Field, MatchItem, PrimOp, TemplatePart};
use crate::interner::Interner;
use crate::normalize::key::{compare_keys, key, key_le, key_of};
use crate::rational::{same_value, Rational};
use crate::value::{ValueData, ValueKey};
use vstd::prelude::*;

verus! {

// ── Fractions ────────────────────────────────────────────────────────────────

/// `a + b` as a fraction.
pub open spec fn rat_add(a: (int, int), b: (int, int)) -> (int, int) {
    (a.0 * b.1 + b.0 * a.1, a.1 * b.1)
}

/// `a * b` as a fraction.
pub open spec fn rat_mul(a: (int, int), b: (int, int)) -> (int, int) {
    (a.0 * b.0, a.1 * b.1)
}

/// `c`, negated unless `positive`.
pub open spec fn signed_coeff(positive: bool, c: (int, int)) -> (int, int) {
    if positive {
        c
    } else {
        (-c.0, c.1)
    }
}

proof fn lemma_add_congr(a: (int, int), a2: (int, int), b: (int, int))
    requires
        a.1 > 0,
        a2.1 > 0,
        b.1 > 0,
        same_value(a, a2),
    ensures
        same_value(rat_add(a, b), rat_add(a2, b)),
        rat_add(a, b).1 > 0,
        rat_add(a2, b).1 > 0,
{
    assert(a.1 * b.1 > 0) by (nonlinear_arith)
        requires
            a.1 > 0,
            b.1 > 0,
    ;
    assert(a2.1 * b.1 > 0) by (nonlinear_arith)
        requires
            a2.1 > 0,
            b.1 > 0,
    ;
    let (p, q, r, s, u, v) = (a.0, a.1, a2.0, a2.1, b.0, b.1);
    assert((p * v) * (s * v) == (p * s) * (v * v)) by (nonlinear_arith);
    assert((r * v) * (q * v) == (r * q) * (v * v)) by (nonlinear_arith);
    assert((u * q) * (s * v) == (u * s) * (q * v)) by (nonlinear_arith);
    assert((p * v + u * q) * (s * v) == (p * v) * (s * v) + (u * q) * (s * v)) by (nonlinear_arith);
    assert((r * v + u * s) * (q * v) == (r * v) * (q * v) + (u * s) * (q * v)) by (nonlinear_arith);
}

proof fn lemma_mul_congr(a: (int, int), a2: (int, int), b: (int, int))
    requires
        a.1 > 0,
        a2.1 > 0,
        b.1 > 0,
        same_value(a, a2),
    ensures
        same_value(rat_mul(a, b), rat_mul(a2, b)),
        rat_mul(a, b).1 > 0,
        rat_mul(a2, b).1 > 0,
{
    assert(a.1 * b.1 > 0) by (nonlinear_arith)
        requires
            a.1 > 0,
            b.1 > 0,
    ;
    assert(a2.1 * b.1 > 0) by (nonlinear_arith)
        requires
            a2.1 > 0,
            b.1 > 0,
    ;
    let (p, q, r, s, u, v) = (a.0, a.1, a2.0, a2.1, b.0, b.1);
    assert((p * u) * (s * v) == (p * s) * (u * v)) by (nonlinear_arith);
    assert((r * u) * (q * v) == (r * q) * (u * v)) by (nonlinear_arith);
}

/// Fractions of the same value agree on being zero, one and negative.
proof fn lemma_same_value_signs(a: (int, int), b: (int, int))
    requires
        a.1 > 0,
        b.1 > 0,
        same_value(a, b),
    ensures
        (a.0 == 0) == (b.0 == 0),
        (a.0 < 0) == (b.0 < 0),
        same_value(a, (1, 1)) == same_value(b, (1, 1)),
        same_value(b, a),
{
    assert((a.0 == 0) == (b.0 == 0)) by (nonlinear_arith)
        requires
            a.0 * b.1 == b.0 * a.1,
            a.1 > 0,
            b.1 > 0,
    ;
    assert((a.0 < 0) == (b.0 < 0)) by (nonlinear_arith)
        requires
            a.0 * b.1 == b.0 * a.1,
            a.1 > 0,
            b.1 > 0,
    ;
    assert((a.0 == a.1) == (b.0 == b.1)) by (nonlinear_arith)
        requires
            a.0 * b.1 == b.0 * a.1,
            a.1 > 0,
            b.1 > 0,
    ;
}

// ── What the rule reads ──────────────────────────────────────────────────────

/// The number a numeric constant denotes.
pub open spec fn const_number(e: Expr) -> Option<(int, int)> {
    match e {
        Expr::Const(v) => match v.data_spec() {
            ValueData::Number(n) => Some(n@),
            _ => None,
        },
        _ => None,
    }
}

/// Whether evaluating `e` can call or write.
pub open spec fn anchored(e: Expr) -> bool
    decreases e,
{
    match e {
        Expr::Apply { .. } => true,
        Expr::Write { .. } => true,
        Expr::Const(_) => false,
        Expr::Ref(_) => false,
        Expr::Lambda(_) => false,
        Expr::PrimOp { args, .. } => exists|i: int| 0 <= i < args@.len() && anchored(#[trigger] args@[i]),
        Expr::TupleCons(es) => exists|i: int| 0 <= i < es@.len() && anchored_element(#[trigger] es@[i]),
        Expr::RecordCons(fs) => exists|i: int| 0 <= i < fs@.len() && anchored_field(#[trigger] fs@[i]),
        Expr::Access { target, form, .. } => anchored(*target) || anchored_form(form),
        Expr::Template(ps) => exists|i: int| 0 <= i < ps@.len() && anchored_part(#[trigger] ps@[i]),
        Expr::Match(m) => anchored_opt(m.scrutinee) || exists|i: int|
            0 <= i < m.items@.len() && anchored_item(#[trigger] m.items@[i]),
    }
}

pub open spec fn anchored_element(x: Element) -> bool
    decreases x,
{
    match x {
        Element::Expr(e) => anchored(e),
        Element::Spread(e) => anchored(e),
    }
}

pub open spec fn anchored_field(f: Field) -> bool
    decreases f,
{
    match f {
        Field::Field { value, .. } => anchored(value),
        Field::Computed { key, value } => anchored(key) || anchored(value),
        Field::Spread(e) => anchored(e),
    }
}

pub open spec fn anchored_form(f: AccessForm) -> bool
    decreases f,
{
    match f {
        AccessForm::Field(_) => false,
        AccessForm::Index(x) => anchored(*x),
        AccessForm::Slice { lo, hi } => anchored_opt(lo) || anchored_opt(hi),
    }
}

pub open spec fn anchored_opt(o: Option<Box<Expr>>) -> bool
    decreases o,
{
    match o {
        Some(x) => anchored(*x),
        None => false,
    }
}

pub open spec fn anchored_part(p: TemplatePart) -> bool
    decreases p,
{
    match p {
        TemplatePart::Segment(_) => false,
        TemplatePart::Interp(x) => anchored(x),
    }
}

pub open spec fn anchored_item(i: MatchItem) -> bool
    decreases i,
{
    match i {
        MatchItem::Bind(b) => anchored(b.value),
        MatchItem::Stmt(x) => anchored(x),
        MatchItem::Arm(a) => (match a.guard {
            Some(g) => anchored(g),
            None => false,
        }) || anchored(a.result),
    }
}

/// The signed operands of a `+`/`-`/unary `-` chain, left to right.
pub open spec fn flat_add(e: Expr, positive: bool) -> Seq<(bool, Expr)>
    decreases e,
{
    match e {
        Expr::PrimOp { op, args } => if op == PrimOp::Add && args@.len() == 2 {
            flat_add(args@[0], positive) + flat_add(args@[1], positive)
        } else if op == PrimOp::Sub && args@.len() == 2 {
            flat_add(args@[0], positive) + flat_add(args@[1], !positive)
        } else if op == PrimOp::Neg && args@.len() == 1 {
            flat_add(args@[0], !positive)
        } else {
            seq![(positive, e)]
        },
        _ => seq![(positive, e)],
    }
}

/// The factors of a `*` chain, left to right.
pub open spec fn flat_mul(e: Expr) -> Seq<Expr>
    decreases e,
{
    match e {
        Expr::PrimOp { op, args } => if op == PrimOp::Mul && args@.len() == 2 {
            flat_mul(args@[0]) + flat_mul(args@[1])
        } else {
            seq![e]
        },
        _ => seq![e],
    }
}

/// An operand as `coefficient · base`; a numeric literal has no base.
pub open spec fn decompose(t: Expr) -> ((int, int), Option<Expr>) {
    match const_number(t) {
        Some(n) => (n, None),
        None => match t {
            Expr::PrimOp { op, args } => if op == PrimOp::Mul && args@.len() == 2 && const_number(args@[0]) is Some {
                (const_number(args@[0])->Some_0, Some(args@[1]))
            } else {
                ((1, 1), Some(t))
            },
            _ => ((1, 1), Some(t)),
        },
    }
}

// ── The plan of an additive chain ────────────────────────────────────────────

/// A like-term group: its key, its coefficient, the base it was first seen
/// with.
pub type Group = (Seq<char>, (int, int), Expr);

/// The group keyed `k`, if any.
pub open spec fn find_group(gs: Seq<Group>, k: Seq<char>) -> Option<int>
    decreases gs.len(),
{
    if gs.len() == 0 {
        None
    } else if gs.last().0 == k {
        Some(gs.len() - 1)
    } else {
        find_group(gs.drop_last(), k)
    }
}

/// Where a new key `k` goes in key-ordered groups.
pub open spec fn insert_pos(gs: Seq<Group>, k: Seq<char>) -> int
    decreases gs.len(),
{
    if gs.len() == 0 {
        0
    } else if key_le(gs.last().0, k) {
        gs.len() as int
    } else {
        insert_pos(gs.drop_last(), k)
    }
}

/// Groups after adding `c · b` under key `k`.
pub open spec fn add_to_groups(gs: Seq<Group>, k: Seq<char>, c: (int, int), b: Expr) -> Seq<Group> {
    match find_group(gs, k) {
        Some(i) => gs.update(i, (k, rat_add(gs[i].1, c), gs[i].2)),
        None => gs.insert(insert_pos(gs, k), (k, c, b)),
    }
}

/// The like-term groups of the free operands, in key order.
pub open spec fn add_groups(flat: Seq<(bool, Expr)>) -> Seq<Group>
    decreases flat.len(),
{
    if flat.len() == 0 {
        seq![]
    } else {
        let gs = add_groups(flat.drop_last());
        let (p, t) = flat.last();
        if anchored(t) {
            gs
        } else {
            match decompose(t).1 {
                None => gs,
                Some(b) => add_to_groups(gs, key(b), signed_coeff(p, decompose(t).0), b),
            }
        }
    }
}

/// The sum of the numeric literals, and whether there was one.
pub open spec fn const_part(flat: Seq<(bool, Expr)>) -> ((int, int), bool)
    decreases flat.len(),
{
    if flat.len() == 0 {
        ((0, 1), false)
    } else {
        let (c, had) = const_part(flat.drop_last());
        let (p, t) = flat.last();
        if !anchored(t) && decompose(t).1 is None {
            (rat_add(c, signed_coeff(p, decompose(t).0)), true)
        } else {
            (c, had)
        }
    }
}

/// Combining would cancel a term or leave a bare variable.
pub open spec fn add_aborts(gs: Seq<Group>, had_const: bool) -> bool {
    ||| exists|i: int| 0 <= i < gs.len() && (#[trigger] gs[i]).1.0 == 0
    ||| gs.len() == 1 && !had_const && same_value(gs[0].1, (1, 1))
}

/// A planned operand of the rebuilt chain.
pub ghost enum OutTerm {
    /// A copy of this expression.
    Like(Expr),
    /// `c · b`, or `b` alone when `c` is one.
    Scaled((int, int), Expr),
    /// A numeric constant.
    Num((int, int)),
}

/// `e` is a constant denoting `c`.
pub open spec fn num_is(e: Expr, c: (int, int)) -> bool {
    e matches Expr::Const(v) && (v.key() matches ValueKey::Number(p) && same_value(p, c))
}

/// `t` realizes the planned operand `o`.
pub open spec fn term_rel(o: OutTerm, t: Expr) -> bool {
    match o {
        OutTerm::Like(x) => expr_deq(x, t),
        OutTerm::Scaled(c, b) => if same_value(c, (1, 1)) {
            expr_deq(b, t)
        } else {
            t matches Expr::PrimOp { op, args } && op == PrimOp::Mul && args@.len() == 2 && num_is(args@[0], c)
                && expr_deq(b, args@[1])
        },
        OutTerm::Num(c) => num_is(t, c),
    }
}

/// `k` is the left-nested chain of the signed operands `items` (zero when
/// there are none).
pub open spec fn chain_rel(items: Seq<(bool, OutTerm)>, k: Expr) -> bool
    decreases items.len(),
{
    if items.len() == 0 {
        num_is(k, (0, 1))
    } else if items.len() == 1 {
        if items[0].0 {
            term_rel(items[0].1, k)
        } else {
            k matches Expr::PrimOp { op, args } && op == PrimOp::Neg && args@.len() == 1 && term_rel(items[0].1, args@[0])
        }
    } else {
        k matches Expr::PrimOp { op, args } && args@.len() == 2 && op == (if items.last().0 {
            PrimOp::Add
        } else {
            PrimOp::Sub
        }) && chain_rel(items.drop_last(), args@[0]) && term_rel(items.last().1, args@[1])
    }
}

/// The anchored operands, in source order with their signs.
pub open spec fn anchored_terms(flat: Seq<(bool, Expr)>) -> Seq<(bool, OutTerm)>
    decreases flat.len(),
{
    if flat.len() == 0 {
        seq![]
    } else {
        anchored_terms(flat.drop_last()) + if anchored(flat.last().1) {
            seq![(flat.last().0, OutTerm::Like(flat.last().1))]
        } else {
            seq![]
        }
    }
}

/// The groups as positive scaled operands.
pub open spec fn group_terms(gs: Seq<Group>) -> Seq<(bool, OutTerm)> {
    gs.map_values(|g: Group| (true, OutTerm::Scaled(g.1, g.2)))
}

/// The literal sum as an operand, when there was a literal.
pub open spec fn const_terms(flat: Seq<(bool, Expr)>) -> Seq<(bool, OutTerm)> {
    if const_part(flat).1 {
        seq![(true, OutTerm::Num(const_part(flat).0))]
    } else {
        seq![]
    }
}

/// The combined chain: anchored operands, groups in key order, the literal
/// sum.
pub open spec fn combine_plan(flat: Seq<(bool, Expr)>) -> Seq<(bool, OutTerm)> {
    anchored_terms(flat) + group_terms(add_groups(flat)) + const_terms(flat)
}

// ── Stable ordering by key ───────────────────────────────────────────────────

/// Where key `k` goes among key-ordered entries, after equal keys.
pub open spec fn index_pos(s: Seq<(Seq<char>, int)>, k: Seq<char>) -> int
    decreases s.len(),
{
    if s.len() == 0 {
        0
    } else if key_le(s.last().0, k) {
        s.len() as int
    } else {
        index_pos(s.drop_last(), k)
    }
}

/// Insertion sort by key; equal keys keep their order.
pub open spec fn sort_indexed(s: Seq<(Seq<char>, int)>) -> Seq<(Seq<char>, int)>
    decreases s.len(),
{
    if s.len() == 0 {
        seq![]
    } else {
        let t = sort_indexed(s.drop_last());
        t.insert(index_pos(t, s.last().0), s.last())
    }
}

/// Each expression's key with its position.
pub open spec fn key_entries(es: Seq<Expr>) -> Seq<(Seq<char>, int)> {
    Seq::new(es.len(), |i: int| (key(es[i]), i))
}

/// `es` ordered by key, stably.
pub open spec fn sorted_exprs(es: Seq<Expr>) -> Seq<Expr> {
    sort_indexed(key_entries(es)).map_values(|p: (Seq<char>, int)| es[p.1])
}

// ── The reordering fallback ──────────────────────────────────────────────────

/// The free non-literal operands with a non-negative coefficient, as
/// `(coefficient, base)`.
pub open spec fn pos_plan(flat: Seq<(bool, Expr)>) -> Seq<((int, int), Expr)>
    decreases flat.len(),
{
    if flat.len() == 0 {
        seq![]
    } else {
        let (p, t) = flat.last();
        let c = signed_coeff(p, decompose(t).0);
        pos_plan(flat.drop_last()) + if !anchored(t) && decompose(t).1 is Some && c.0 >= 0 {
            seq![(c, decompose(t).1->Some_0)]
        } else {
            seq![]
        }
    }
}

/// The free non-literal operands with a negative coefficient, as
/// `(|coefficient|, base)`.
pub open spec fn neg_plan(flat: Seq<(bool, Expr)>) -> Seq<((int, int), Expr)>
    decreases flat.len(),
{
    if flat.len() == 0 {
        seq![]
    } else {
        let (p, t) = flat.last();
        let c = signed_coeff(p, decompose(t).0);
        neg_plan(flat.drop_last()) + if !anchored(t) && decompose(t).1 is Some && c.0 < 0 {
            seq![((-c.0, c.1), decompose(t).1->Some_0)]
        } else {
            seq![]
        }
    }
}

/// `ts` realize the scaled operands `plan`.
pub open spec fn scaled_terms(plan: Seq<((int, int), Expr)>, ts: Seq<Expr>) -> bool {
    &&& plan.len() == ts.len()
    &&& forall|i: int| 0 <= i < plan.len() ==> term_rel(OutTerm::Scaled(plan[i].0, plan[i].1), #[trigger] ts[i])
}

/// `ps` and `ns` are the fallback's positive and negative terms.
pub open spec fn reorder_witness(flat: Seq<(bool, Expr)>, ps: Seq<Expr>, ns: Seq<Expr>) -> bool {
    scaled_terms(pos_plan(flat), ps) && scaled_terms(neg_plan(flat), ns)
}

/// The fallback chain: anchored operands, positive terms and negative terms
/// each in key order, the literal sum.
pub open spec fn reorder_items(flat: Seq<(bool, Expr)>, ps: Seq<Expr>, ns: Seq<Expr>) -> Seq<(bool, OutTerm)> {
    anchored_terms(flat) + sorted_exprs(ps).map_values(|t: Expr| (true, OutTerm::Like(t))) + sorted_exprs(
        ns,
    ).map_values(|t: Expr| (false, OutTerm::Like(t))) + const_terms(flat)
}

/// `k` is the fallback rebuilt chain.
pub open spec fn reorder_rel(flat: Seq<(bool, Expr)>, k: Expr) -> bool {
    exists|ps: Seq<Expr>, ns: Seq<Expr>| #[trigger] reorder_witness(flat, ps, ns) && chain_rel(reorder_items(flat, ps, ns), k)
}

/// `k` is the rewritten additive chain `r`.
pub open spec fn add_rel(r: Expr, k: Expr) -> bool {
    let flat = flat_add(r, true);
    if add_aborts(add_groups(flat), const_part(flat).1) {
        reorder_rel(flat, k)
    } else {
        chain_rel(combine_plan(flat), k)
    }
}

// ── The plan of a multiplicative chain ───────────────────────────────────────

/// The product of the numeric factors, and whether there was one.
pub open spec fn mul_coeff(fs: Seq<Expr>) -> ((int, int), bool)
    decreases fs.len(),
{
    if fs.len() == 0 {
        ((1, 1), false)
    } else {
        let (c, had) = mul_coeff(fs.drop_last());
        match const_number(fs.last()) {
            Some(n) => (rat_mul(c, n), true),
            None => (c, had),
        }
    }
}

/// The anchored non-numeric factors, in order.
pub open spec fn mul_anchored(fs: Seq<Expr>) -> Seq<Expr>
    decreases fs.len(),
{
    if fs.len() == 0 {
        seq![]
    } else {
        mul_anchored(fs.drop_last()) + if const_number(fs.last()) is None && anchored(fs.last()) {
            seq![fs.last()]
        } else {
            seq![]
        }
    }
}

/// The free non-numeric factors, in order.
pub open spec fn mul_rest(fs: Seq<Expr>) -> Seq<Expr>
    decreases fs.len(),
{
    if fs.len() == 0 {
        seq![]
    } else {
        mul_rest(fs.drop_last()) + if const_number(fs.last()) is None && !anchored(fs.last()) {
            seq![fs.last()]
        } else {
            seq![]
        }
    }
}

/// `k` is the left-nested product of `fs`.
pub open spec fn product_rel(fs: Seq<Expr>, k: Expr) -> bool
    decreases fs.len(),
{
    if fs.len() == 0 {
        false
    } else if fs.len() == 1 {
        expr_deq(fs[0], k)
    } else {
        k matches Expr::PrimOp { op, args } && op == PrimOp::Mul && args@.len() == 2 && product_rel(
            fs.drop_last(),
            args@[0],
        ) && expr_deq(fs.last(), args@[1])
    }
}

/// `k` is the rewritten multiplicative chain `r`: anchored factors, then the
/// free ones in key order, behind the literal product when there was a
/// literal.
pub open spec fn mul_rel(r: Expr, k: Expr) -> bool {
    let fs = flat_mul(r);
    let c = mul_coeff(fs);
    let ordered = mul_anchored(fs) + sorted_exprs(mul_rest(fs));
    if ordered.len() == 0 {
        num_is(k, c.0)
    } else if c.1 {
        k matches Expr::PrimOp { op, args } && op == PrimOp::Mul && args@.len() == 2 && num_is(args@[0], c.0)
            && product_rel(ordered, args@[1])
    } else {
        product_rel(ordered, k)
    }
}

/// `r` is a node the rule rewrites as an additive chain.
pub open spec fn is_additive(r: Expr) -> bool {
    r matches Expr::PrimOp { op, args } && ((op == PrimOp::Add || op == PrimOp::Sub) && args@.len() == 2 || op
        == PrimOp::Neg && args@.len() == 1)
}

/// `r` is a node the rule rewrites as a multiplicative chain.
pub open spec fn is_multiplicative(r: Expr) -> bool {
    r matches Expr::PrimOp { op, args } && op == PrimOp::Mul && args@.len() == 2
}

/// `k` is `r` after the arithmetic rule.
pub open spec fn arith_rel(r: Expr, k: Expr) -> bool {
    if is_additive(r) {
        add_rel(r, k)
    } else if is_multiplicative(r) {
        mul_rel(r, k)
    } else {
        expr_deq(r, k)
    }
}

// ── Anchoring ────────────────────────────────────────────────────────────────

/// Whether evaluating `e` can call or write.
pub fn anchored_operand(e: &Expr) -> (r: bool)
    ensures
        r == anchored(*e),
    decreases e,
{
    match e {
        Expr::Apply { .. } => true,
        Expr::Write { .. } => true,
        Expr::Const(_) => false,
        Expr::Ref(_) => false,
        Expr::Lambda(_) => false,
        Expr::PrimOp { args, .. } => any_anchored(args),
        Expr::TupleCons(es) => any_anchored_element(es),
        Expr::RecordCons(fs) => any_anchored_field(fs),
        Expr::Access { target, form, .. } => anchored_operand(target) || anchored_access_form(form),
        Expr::Template(ps) => any_anchored_part(ps),
        Expr::Match(m) => anchored_opt_operand(&m.scrutinee) || any_anchored_item(&m.items),
    }
}

fn anchored_opt_operand(o: &Option<Box<Expr>>) -> (r: bool)
    ensures
        r == anchored_opt(*o),
    decreases o,
{
    match o {
        Some(x) => anchored_operand(x),
        None => false,
    }
}

fn anchored_access_form(f: &AccessForm) -> (r: bool)
    ensures
        r == anchored_form(*f),
    decreases f,
{
    match f {
        AccessForm::Field(_) => false,
        AccessForm::Index(x) => anchored_operand(x),
        AccessForm::Slice { lo, hi } => anchored_opt_operand(lo) || anchored_opt_operand(hi),
    }
}

fn any_anchored(v: &Vec<Expr>) -> (r: bool)
    ensures
        r == exists|i: int| 0 <= i < v@.len() && anchored(#[trigger] v@[i]),
    decreases v,
{
    let mut i: usize = 0;
    while i < v.len()
        invariant
            i <= v@.len(),
            forall|j: int| 0 <= j < i ==> !anchored(#[trigger] v@[j]),
        decreases v@.len() - i,
    {
        proof {
            assert(decreases_to!(*v => v@[i as int]));
        }
        if anchored_operand(&v[i]) {
            return true;
        }
        i = i + 1;
    }
    false
}

fn any_anchored_element(v: &Vec<Element>) -> (r: bool)
    ensures
        r == exists|i: int| 0 <= i < v@.len() && anchored_element(#[trigger] v@[i]),
    decreases v,
{
    let mut i: usize = 0;
    while i < v.len()
        invariant
            i <= v@.len(),
            forall|j: int| 0 <= j < i ==> !anchored_element(#[trigger] v@[j]),
        decreases v@.len() - i,
    {
        proof {
            assert(decreases_to!(*v => v@[i as int]));
        }
        let hit = match &v[i] {
            Element::Expr(x) => anchored_operand(x),
            Element::Spread(x) => anchored_operand(x),
        };
        if hit {
            return true;
        }
        i = i + 1;
    }
    false
}

fn any_anchored_field(v: &Vec<Field>) -> (r: bool)
    ensures
        r == exists|i: int| 0 <= i < v@.len() && anchored_field(#[trigger] v@[i]),
    decreases v,
{
    let mut i: usize = 0;
    while i < v.len()
        invariant
            i <= v@.len(),
            forall|j: int| 0 <= j < i ==> !anchored_field(#[trigger] v@[j]),
        decreases v@.len() - i,
    {
        proof {
            assert(decreases_to!(*v => v@[i as int]));
        }
        let hit = match &v[i] {
            Field::Field { value, .. } => anchored_operand(value),
            Field::Computed { key, value } => anchored_operand(key) || anchored_operand(value),
            Field::Spread(x) => anchored_operand(x),
        };
        if hit {
            return true;
        }
        i = i + 1;
    }
    false
}

fn any_anchored_part(v: &Vec<TemplatePart>) -> (r: bool)
    ensures
        r == exists|i: int| 0 <= i < v@.len() && anchored_part(#[trigger] v@[i]),
    decreases v,
{
    let mut i: usize = 0;
    while i < v.len()
        invariant
            i <= v@.len(),
            forall|j: int| 0 <= j < i ==> !anchored_part(#[trigger] v@[j]),
        decreases v@.len() - i,
    {
        proof {
            assert(decreases_to!(*v => v@[i as int]));
        }
        let hit = match &v[i] {
            TemplatePart::Segment(_) => false,
            TemplatePart::Interp(x) => anchored_operand(x),
        };
        if hit {
            return true;
        }
        i = i + 1;
    }
    false
}

fn any_anchored_item(v: &Vec<MatchItem>) -> (r: bool)
    ensures
        r == exists|i: int| 0 <= i < v@.len() && anchored_item(#[trigger] v@[i]),
    decreases v,
{
    let mut i: usize = 0;
    while i < v.len()
        invariant
            i <= v@.len(),
            forall|j: int| 0 <= j < i ==> !anchored_item(#[trigger] v@[j]),
        decreases v@.len() - i,
    {
        proof {
            assert(decreases_to!(*v => v@[i as int]));
        }
        let hit = match &v[i] {
            MatchItem::Bind(b) => anchored_operand(&b.value),
            MatchItem::Stmt(x) => anchored_operand(x),
            MatchItem::Arm(a) => {
                let g = match &a.guard {
                    Some(x) => anchored_operand(x),
                    None => false,
                };
                g || anchored_operand(&a.result)
            },
        };
        if hit {
            return true;
        }
        i = i + 1;
    }
    false
}

// ── Operands ─────────────────────────────────────────────────────────────────

/// A classified operand of an additive chain: its sign, a copy of it, whether
/// it is anchored, its signed coefficient, and its base with the base's key.
struct Operand {
    positive: bool,
    term: Expr,
    anchored: bool,
    coeff: Rational,
    base: Option<Expr>,
    key: Vec<char>,
}

/// `o` describes the signed operand `f`.
spec fn op_rel(o: Operand, f: (bool, Expr)) -> bool {
    &&& o.positive == f.0
    &&& expr_deq(f.1, o.term)
    &&& o.anchored == anchored(f.1)
    &&& o.coeff.wf()
    &&& o.coeff@ == signed_coeff(f.0, decompose(f.1).0)
    &&& (o.base is None <==> decompose(f.1).1 is None)
    &&& (decompose(f.1).1 matches Some(b) ==> (o.base matches Some(ob) && expr_deq(b, ob) && o.key@ == key(b)))
}

/// The number a constant denotes, read from the constant itself.
fn number_of(e: &Expr) -> (r: Option<Rational>)
    ensures
        match const_number(*e) {
            Some(n) => r matches Some(x) && x@ == n && x.wf(),
            None => r is None,
        },
{
    match e {
        Expr::Const(v) => match v.as_number() {
            Some(n) => Some(n.clone()),
            None => None,
        },
        _ => None,
    }
}

/// `t` with sign `positive`, classified.
fn operand(t: &Expr, positive: bool) -> (o: Operand)
    ensures
        op_rel(o, (positive, *t)),
{
    let term = clone_expr(t);
    let anch = anchored_operand(t);
    let (c, base, k): (Rational, Option<Expr>, Vec<char>) = match number_of(t) {
        Some(n) => (n, None, Vec::new()),
        None => match t {
            Expr::PrimOp { op: PrimOp::Mul, args } => {
                if args.len() == 2 {
                    match number_of(&args[0]) {
                        Some(n) => (n, Some(clone_expr(&args[1])), key_of(&args[1])),
                        None => (Rational::from(1), Some(clone_expr(t)), key_of(t)),
                    }
                } else {
                    (Rational::from(1), Some(clone_expr(t)), key_of(t))
                }
            },
            _ => (Rational::from(1), Some(clone_expr(t)), key_of(t)),
        },
    };
    let coeff = if positive {
        c
    } else {
        c.neg()
    };
    Operand { positive, term, anchored: anch, coeff, base, key: k }
}

/// Appends the signed operands of the chain `e` to `out`.
fn flatten_add(e: &Expr, positive: bool, out: &mut Vec<Operand>)
    ensures
        final(out)@.len() == old(out)@.len() + flat_add(*e, positive).len(),
        forall|i: int| 0 <= i < old(out)@.len() ==> #[trigger] final(out)@[i] == old(out)@[i],
        forall|j: int|
            0 <= j < flat_add(*e, positive).len() ==> op_rel(
                #[trigger] final(out)@[old(out)@.len() + j],
                flat_add(*e, positive)[j],
            ),
    decreases e,
{
    match e {
        Expr::PrimOp { op, args } => {
            if (*op == PrimOp::Add || *op == PrimOp::Sub) && args.len() == 2 {
                let second = if *op == PrimOp::Add {
                    positive
                } else {
                    !positive
                };
                let ghost n0 = out@.len();
                let ghost a = flat_add(args@[0], positive);
                let ghost b = flat_add(args@[1], second);
                flatten_add(&args[0], positive, out);
                let ghost mid = out@;
                flatten_add(&args[1], second, out);
                proof {
                    assert(flat_add(*e, positive) == a + b);
                    assert forall|j: int| 0 <= j < (a + b).len() implies op_rel(
                        #[trigger] out@[n0 + j],
                        (a + b)[j],
                    ) by {
                        if j < a.len() {
                            assert(out@[n0 + j] == mid[n0 + j]);
                        } else {
                            assert(out@[mid.len() + (j - a.len())] == out@[n0 + j]);
                        }
                    }
                }
                return;
            } else if *op == PrimOp::Neg && args.len() == 1 {
                flatten_add(&args[0], !positive, out);
                return;
            }
        },
        _ => {},
    }
    out.push(operand(e, positive));
}

// ── Rebuilding chains ────────────────────────────────────────────────────────

/// `acc` is the chain of `items` built so far (nothing when empty).
spec fn acc_rel(items: Seq<(bool, OutTerm)>, acc: Option<Expr>) -> bool {
    if items.len() == 0 {
        acc is None
    } else {
        acc matches Some(k) && chain_rel(items, k)
    }
}

/// Appends the signed operand `t` to the chain `acc`.
fn signed(acc: Option<Expr>, positive: bool, t: Expr, Ghost(items): Ghost<Seq<(bool, OutTerm)>>, Ghost(o): Ghost<OutTerm>) -> (r: Expr)
    requires
        acc_rel(items, acc),
        term_rel(o, t),
    ensures
        chain_rel(items.push((positive, o)), r),
{
    let ghost next = items.push((positive, o));
    proof {
        assert(next.drop_last() =~= items);
        assert(next.last() == (positive, o));
    }
    match acc {
        None => {
            if positive {
                t
            } else {
                let args = vec![t];
                Expr::PrimOp { op: PrimOp::Neg, args }
            }
        },
        Some(a) => {
            let args = vec![a, t];
            if positive {
                Expr::PrimOp { op: PrimOp::Add, args }
            } else {
                Expr::PrimOp { op: PrimOp::Sub, args }
            }
        },
    }
}

/// The numeric constant `c`.
fn number_const(c: &Rational, interner: &mut Interner, Ghost(sc): Ghost<(int, int)>) -> (r: Expr)
    requires
        old(interner).wf(),
        c.wf(),
        sc.1 > 0,
        same_value(c@, sc),
    ensures
        final(interner).wf(),
        final(interner).extends(old(interner)),
        num_is(r, sc),
{
    let v = interner.number(c.clone());
    proof {
        let p = v.key()->Number_0;
        crate::rational::lemma_same_value_transitive(p, c@, sc);
    }
    Expr::Const(v)
}

/// `c · b`, or a copy of `b` when `c` is one.
fn make_term(c: &Rational, b: &Expr, interner: &mut Interner, Ghost(sc): Ghost<(int, int)>, Ghost(sb): Ghost<Expr>) -> (r: Expr)
    requires
        old(interner).wf(),
        c.wf(),
        sc.1 > 0,
        same_value(c@, sc),
        expr_deq(sb, *b),
    ensures
        final(interner).wf(),
        final(interner).extends(old(interner)),
        term_rel(OutTerm::Scaled(sc, sb), r),
{
    proof {
        lemma_same_value_signs(c@, sc);
    }
    let base = clone_expr(b);
    proof {
        lemma_expr_deq_trans(sb, *b, base);
    }
    if c.eq_value(&Rational::from(1)) {
        base
    } else {
        let k = number_const(c, interner, Ghost(sc));
        let args = vec![k, base];
        Expr::PrimOp { op: PrimOp::Mul, args }
    }
}

/// A copy of `t`, realizing `Like(st)`.
fn like_term(t: &Expr, Ghost(st): Ghost<Expr>) -> (r: Expr)
    requires
        expr_deq(st, *t),
    ensures
        term_rel(OutTerm::Like(st), r),
{
    let r = clone_expr(t);
    proof {
        lemma_expr_deq_trans(st, *t, r);
    }
    r
}

// ── Ordering ─────────────────────────────────────────────────────────────────

/// The keys and indices of `v`.
spec fn idx_view(v: Seq<(Vec<char>, usize)>) -> Seq<(Seq<char>, int)> {
    v.map_values(|p: (Vec<char>, usize)| (p.0@, p.1 as int))
}

/// Sorts key–index entries by key, stably.
fn sort_entries(v: Vec<(Vec<char>, usize)>) -> (r: Vec<(Vec<char>, usize)>)
    ensures
        idx_view(r@) == sort_indexed(idx_view(v@)),
{
    let ghost s = idx_view(v@);
    let total = v.len();
    let ghost n = total as nat;
    let mut rest = v;
    let mut out: Vec<(Vec<char>, usize)> = Vec::new();
    let mut i: usize = 0;
    while rest.len() > 0
        invariant
            n == s.len(),
            n == total,
            i + rest@.len() == n,
            idx_view(rest@) == s.subrange(i as int, n as int),
            idx_view(out@) == sort_indexed(s.subrange(0, i as int)),
        decreases rest@.len(),
    {
        let ghost r0 = rest@;
        let x = rest.remove(0);
        proof {
            assert(x == r0[0]);
            assert(idx_view(r0)[0] == s.subrange(i as int, n as int)[0]);
            assert((x.0@, x.1 as int) == s[i as int]);
            assert forall|k: int| 0 <= k < rest@.len() implies #[trigger] idx_view(rest@)[k] == s.subrange(
                i + 1,
                n as int,
            )[k] by {
                assert(rest@[k] == r0[k + 1]);
                assert(idx_view(r0)[k + 1] == s.subrange(i as int, n as int)[k + 1]);
            }
            assert(idx_view(rest@) =~= s.subrange(i + 1, n as int));
        }
        let mut j: usize = out.len();
        proof {
            assert(idx_view(out@).take(out@.len() as int) =~= idx_view(out@));
        }
        while j > 0
            invariant
                j <= out@.len(),
                index_pos(idx_view(out@), x.0@) == index_pos(idx_view(out@).take(j as int), x.0@),
            ensures
                index_pos(idx_view(out@), x.0@) == j,
            decreases j,
        {
            let (lt, eq) = compare_keys(&out[j - 1].0, &x.0);
            proof {
                let t = idx_view(out@).take(j as int);
                assert(t.drop_last() =~= idx_view(out@).take(j - 1));
                assert(t.last() == (out@[j - 1].0@, out@[j - 1].1 as int));
            }
            if lt || eq {
                break;
            }
            j = j - 1;
        }
        let ghost before = idx_view(out@);
        out.insert(j, x);
        proof {
            assert(s.subrange(0, i + 1).drop_last() =~= s.subrange(0, i as int));
            assert(s.subrange(0, i + 1).last() == s[i as int]);
            assert(idx_view(out@) =~= before.insert(j as int, (x.0@, x.1 as int)));
        }
        i = i + 1;
    }
    proof {
        assert(s.subrange(0, n as int) =~= s);
    }
    out
}

/// The entries `(key(es[i]), i)`.
fn keyed_entries(es: &Vec<Expr>) -> (r: Vec<(Vec<char>, usize)>)
    ensures
        idx_view(r@) == key_entries(es@),
{
    let mut out: Vec<(Vec<char>, usize)> = Vec::new();
    let mut i: usize = 0;
    while i < es.len()
        invariant
            i <= es@.len(),
            idx_view(out@) == Seq::new(i as nat, |j: int| (key(es@[j]), j)),
        decreases es@.len() - i,
    {
        let ghost o0 = out@;
        let k = key_of(&es[i]);
        out.push((k, i));
        proof {
            assert(idx_view(o0).len() == o0.len());
            assert forall|j: int| 0 <= j < i + 1 implies #[trigger] idx_view(out@)[j] == (key(es@[j]), j) by {
                if j < i {
                    assert(out@[j] == o0[j]);
                    assert(idx_view(o0)[j] == (key(es@[j]), j));
                }
            }
        }
        i = i + 1;
        assert(idx_view(out@) =~= Seq::new(i as nat, |j: int| (key(es@[j]), j)));
    }
    assert(idx_view(out@) =~= key_entries(es@));
    out
}

proof fn lemma_index_pos_range(s: Seq<(Seq<char>, int)>, k: Seq<char>)
    ensures
        0 <= index_pos(s, k) <= s.len(),
    decreases s.len(),
{
    if s.len() > 0 {
        lemma_index_pos_range(s.drop_last(), k);
    }
}

/// Sorting keeps the entries: every sorted entry is an input entry.
proof fn lemma_sort_indexed(s: Seq<(Seq<char>, int)>)
    ensures
        sort_indexed(s).len() == s.len(),
        forall|k: int| 0 <= k < s.len() ==> exists|m: int| 0 <= m < s.len() && #[trigger] sort_indexed(s)[k] == s[m],
    decreases s.len(),
{
    if s.len() > 0 {
        let init = s.drop_last();
        lemma_sort_indexed(init);
        let t = sort_indexed(init);
        let p = index_pos(t, s.last().0);
        lemma_index_pos_range(t, s.last().0);
        let r = t.insert(p, s.last());
        assert forall|k: int| 0 <= k < s.len() implies exists|m: int| 0 <= m < s.len() && #[trigger] r[k] == s[m] by {
            if k < p {
                let m = choose|m: int| 0 <= m < init.len() && t[k] == init[m];
                assert(r[k] == s[m]);
            } else if k == p {
                assert(r[k] == s[s.len() - 1]);
            } else {
                let m = choose|m: int| 0 <= m < init.len() && t[k - 1] == init[m];
                assert(r[k] == s[m]);
            }
        }
    }
}

/// Every sorted position names an index of `es`.
proof fn lemma_sorted_in_range(es: Seq<Expr>)
    ensures
        sort_indexed(key_entries(es)).len() == es.len(),
        forall|k: int|
            0 <= k < es.len() ==> 0 <= (#[trigger] sort_indexed(key_entries(es))[k]).1
                < es.len(),
{
    let s = key_entries(es);
    lemma_sort_indexed(s);
    assert forall|k: int| 0 <= k < es.len() implies 0 <= (#[trigger] sort_indexed(s)[k]).1 < es.len() by {
        let m = choose|m: int| 0 <= m < s.len() && sort_indexed(s)[k] == s[m];
    }
}

/// Appends the elements of `es`, in key order, to the chain `acc`, each with
/// sign `positive`.
fn append_sorted(
    acc: Option<Expr>,
    es: &Vec<Expr>,
    positive: bool,
    Ghost(items): Ghost<Seq<(bool, OutTerm)>>,
) -> (r: Option<Expr>)
    requires
        acc_rel(items, acc),
    ensures
        acc_rel(items + sorted_exprs(es@).map_values(|t: Expr| (positive, OutTerm::Like(t))), r),
{
    let entries = keyed_entries(es);
    let sorted = sort_entries(entries);
    let ghost sx = sorted_exprs(es@).map_values(|t: Expr| (positive, OutTerm::Like(t)));
    proof {
        lemma_sorted_in_range(es@);
    }
    let mut acc = acc;
    let mut j: usize = 0;
    while j < sorted.len()
        invariant
            j <= sorted@.len(),
            sorted@.len() == es@.len(),
            idx_view(sorted@) == sort_indexed(key_entries(es@)),
            forall|k: int|
                0 <= k < es@.len() ==> 0 <= (#[trigger] sort_indexed(key_entries(es@))[k]).1
                    < es@.len(),
            sx == sorted_exprs(es@).map_values(|t: Expr| (positive, OutTerm::Like(t))),
            acc_rel(items + sx.take(j as int), acc),
        decreases sorted@.len() - j,
    {
        let idx = sorted[j].1;
        proof {
            assert(idx_view(sorted@)[j as int] == (sorted@[j as int].0@, idx as int));
            assert(sorted_exprs(es@)[j as int] == es@[idx as int]);
        }
        let t = clone_expr(&es[idx]);
        let next = signed(acc, positive, t, Ghost(items + sx.take(j as int)), Ghost(OutTerm::Like(es@[idx as int])));
        acc = Some(next);
        proof {
            assert((items + sx.take(j as int)).push((positive, OutTerm::Like(es@[idx as int]))) =~= items + sx.take(j + 1));
        }
        j = j + 1;
    }
    proof {
        assert(sx.take(sorted@.len() as int) =~= sx);
    }
    acc
}

// ── Additive chains ──────────────────────────────────────────────────────────

/// The groups: for each, its coefficient and the operand that opened it.
spec fn groups_rel(coeffs: Seq<Rational>, first: Seq<usize>, flat: Seq<(bool, Expr)>, bound: int, gs: Seq<Group>) -> bool {
    &&& coeffs.len() == gs.len()
    &&& first.len() == gs.len()
    &&& forall|g: int|
        0 <= g < gs.len() ==> {
            &&& (#[trigger] first[g]) < bound
            &&& decompose(flat[first[g] as int].1).1 == Some(gs[g].2)
            &&& key(gs[g].2) == gs[g].0
            &&& coeffs[g].wf()
            &&& gs[g].1.1 > 0
            &&& same_value(coeffs[g]@, gs[g].1)
        }
}

proof fn lemma_find_group(gs: Seq<Group>, k: Seq<char>)
    ensures
        find_group(gs, k) matches Some(i) ==> 0 <= i < gs.len() && gs[i].0 == k,
    decreases gs.len(),
{
    if gs.len() > 0 && gs.last().0 != k {
        lemma_find_group(gs.drop_last(), k);
    }
}

/// The group keyed `k`, scanning from the last.
fn find_group_exec(ops: &Vec<Operand>, first: &Vec<usize>, k: &Vec<char>, Ghost(gs): Ghost<Seq<Group>>) -> (r: Option<usize>)
    requires
        first@.len() == gs.len(),
        forall|g: int| 0 <= g < gs.len() ==> (#[trigger] first@[g]) < ops@.len() && ops@[first@[g] as int].key@ == gs[g].0,
    ensures
        match r {
            Some(j) => find_group(gs, k@) == Some(j as int) && j < gs.len(),
            None => find_group(gs, k@) is None,
        },
{
    proof {
        lemma_find_group(gs, k@);
    }
    let mut g: usize = first.len();
    assert(gs.take(gs.len() as int) =~= gs);
    while g > 0
        invariant
            g <= gs.len(),
            first@.len() == gs.len(),
            forall|h: int| 0 <= h < gs.len() ==> (#[trigger] first@[h]) < ops@.len() && ops@[first@[h] as int].key@ == gs[h].0,
            find_group(gs, k@) == find_group(gs.take(g as int), k@),
        decreases g,
    {
        proof {
            assert(gs.take(g as int).drop_last() =~= gs.take(g - 1));
            assert(gs.take(g as int).last() == gs[g - 1]);
        }
        let (_, eq) = compare_keys(&ops[first[g - 1]].key, k);
        if eq {
            return Some(g - 1);
        }
        g = g - 1;
    }
    None
}

/// Where a new group keyed `k` goes.
fn group_pos(ops: &Vec<Operand>, first: &Vec<usize>, k: &Vec<char>, Ghost(gs): Ghost<Seq<Group>>) -> (r: usize)
    requires
        first@.len() == gs.len(),
        forall|g: int| 0 <= g < gs.len() ==> (#[trigger] first@[g]) < ops@.len() && ops@[first@[g] as int].key@ == gs[g].0,
    ensures
        r == insert_pos(gs, k@),
        r <= gs.len(),
{
    let mut g: usize = first.len();
    assert(gs.take(gs.len() as int) =~= gs);
    while g > 0
        invariant
            g <= gs.len(),
            first@.len() == gs.len(),
            forall|h: int| 0 <= h < gs.len() ==> (#[trigger] first@[h]) < ops@.len() && ops@[first@[h] as int].key@ == gs[h].0,
            insert_pos(gs, k@) == insert_pos(gs.take(g as int), k@),
        ensures
            insert_pos(gs, k@) == g,
        decreases g,
    {
        proof {
            assert(gs.take(g as int).drop_last() =~= gs.take(g - 1));
            assert(gs.take(g as int).last() == gs[g - 1]);
        }
        let (lt, eq) = compare_keys(&ops[first[g - 1]].key, k);
        if lt || eq {
            break;
        }
        g = g - 1;
    }
    g
}

/// Groups the free operands and sums the literals.
fn group_operands(ops: &Vec<Operand>, Ghost(flat): Ghost<Seq<(bool, Expr)>>) -> (r: (Vec<Rational>, Vec<usize>, Rational, bool))
    requires
        ops@.len() == flat.len(),
        forall|j: int| 0 <= j < flat.len() ==> op_rel(#[trigger] ops@[j], flat[j]),
    ensures
        groups_rel(r.0@, r.1@, flat, flat.len() as int, add_groups(flat)),
        r.2.wf(),
        const_part(flat).0.1 > 0,
        same_value(r.2@, const_part(flat).0),
        r.3 == const_part(flat).1,
{
    let mut coeffs: Vec<Rational> = Vec::new();
    let mut first: Vec<usize> = Vec::new();
    let mut constant = Rational::from(0);
    let mut had = false;
    let mut i: usize = 0;
    while i < ops.len()
        invariant
            i <= ops@.len(),
            ops@.len() == flat.len(),
            forall|j: int| 0 <= j < flat.len() ==> op_rel(#[trigger] ops@[j], flat[j]),
            groups_rel(coeffs@, first@, flat, i as int, add_groups(flat.take(i as int))),
            constant.wf(),
            const_part(flat.take(i as int)).0.1 > 0,
            same_value(constant@, const_part(flat.take(i as int)).0),
            had == const_part(flat.take(i as int)).1,
        decreases ops@.len() - i,
    {
        let ghost gs = add_groups(flat.take(i as int));
        let ghost cp = const_part(flat.take(i as int));
        proof {
            assert(flat.take(i + 1).drop_last() =~= flat.take(i as int));
            assert(flat.take(i + 1).last() == flat[i as int]);
            assert(op_rel(ops@[i as int], flat[i as int]));
        }
        let ghost (p, t) = flat[i as int];
        let ghost c = signed_coeff(p, decompose(t).0);
        if !ops[i].anchored {
            match &ops[i].base {
                None => {
                    proof {
                        lemma_add_congr(constant@, cp.0, c);
                        lemma_add_congr(cp.0, constant@, c);
                    }
                    let nc = constant.add(&ops[i].coeff);
                    proof {
                        lemma_same_value_signs(rat_add(cp.0, c), rat_add(constant@, c));
                        crate::rational::lemma_same_value_transitive(nc@, rat_add(constant@, c), rat_add(cp.0, c));
                    }
                    constant = nc;
                    had = true;
                },
                Some(_) => {
                    let ghost b = decompose(t).1->Some_0;
                    let ghost k = key(b);
                    proof {
                        assert(t == flat[i as int].1);
                        assert(decompose(flat[i as int].1).1 == Some(b));
                        assert(ops@[i as int].key@ == key(b));
                    }
                    match find_group_exec(ops, &first, &ops[i].key, Ghost(gs)) {
                        Some(j) => {
                            proof {
                                assert(first@[j as int] < i);
                                lemma_add_congr(coeffs@[j as int]@, gs[j as int].1, c);
                            }
                            let nc = coeffs[j].add(&ops[i].coeff);
                            proof {
                                lemma_same_value_signs(rat_add(coeffs@[j as int]@, c), rat_add(gs[j as int].1, c));
                                crate::rational::lemma_same_value_transitive(
                                    nc@,
                                    rat_add(coeffs@[j as int]@, c),
                                    rat_add(gs[j as int].1, c),
                                );
                            }
                            let ghost before = coeffs@;
                            coeffs.set(j, nc);
                            proof {
                                let ng = add_groups(flat.take(i + 1));
                                assert(!anchored(t));
                                assert(decompose(t).1 == Some(b));
                                assert(ng == add_to_groups(gs, key(b), c, b));
                                assert(find_group(gs, key(b)) == Some(j as int));
                                lemma_find_group(gs, key(b));
                                assert(ng == gs.update(j as int, (k, rat_add(gs[j as int].1, c), gs[j as int].2)));
                                assert forall|g: int| 0 <= g < ng.len() implies {
                                    &&& (#[trigger] first@[g]) < i + 1
                                    &&& decompose(flat[first@[g] as int].1).1 == Some(ng[g].2)
                                    &&& key(ng[g].2) == ng[g].0
                                    &&& coeffs@[g].wf()
                                    &&& ng[g].1.1 > 0
                                    &&& same_value(coeffs@[g]@, ng[g].1)
                                } by {
                                    if g != j {
                                        assert(coeffs@[g] == before[g]);
                                    }
                                }
                            }
                        },
                        None => {
                            let pos = group_pos(ops, &first, &ops[i].key, Ghost(gs));
                            let ghost bc = coeffs@;
                            let ghost bf = first@;
                            coeffs.insert(pos, ops[i].coeff.clone());
                            first.insert(pos, i);
                            proof {
                                let ng = add_groups(flat.take(i + 1));
                                assert(ng == gs.insert(pos as int, (k, c, b)));
                                assert forall|g: int| 0 <= g < ng.len() implies {
                                    &&& (#[trigger] first@[g]) < i + 1
                                    &&& decompose(flat[first@[g] as int].1).1 == Some(ng[g].2)
                                    &&& key(ng[g].2) == ng[g].0
                                    &&& coeffs@[g].wf()
                                    &&& ng[g].1.1 > 0
                                    &&& same_value(coeffs@[g]@, ng[g].1)
                                } by {
                                    if g < pos {
                                        assert(coeffs@[g] == bc[g] && first@[g] == bf[g] && ng[g] == gs[g]);
                                    } else if g > pos {
                                        assert(coeffs@[g] == bc[g - 1] && first@[g] == bf[g - 1] && ng[g] == gs[g - 1]);
                                    } else {
                                        assert(first@[g] == i);
                                    }
                                }
                            }
                        },
                    }
                },
            }
        }
        i = i + 1;
    }
    proof {
        assert(flat.take(flat.len() as int) =~= flat);
    }
    (coeffs, first, constant, had)
}

/// A chain has at least one operand, and so does its plan.
proof fn lemma_plan_nonempty(flat: Seq<(bool, Expr)>)
    requires
        flat.len() > 0,
    ensures
        anchored_terms(flat).len() + add_groups(flat).len() + (if const_part(flat).1 {
            1int
        } else {
            0int
        }) > 0,
    decreases flat.len(),
{
    let init = flat.drop_last();
    let (p, t) = flat.last();
    if init.len() > 0 {
        lemma_plan_nonempty(init);
    }
    if !anchored(t) {
        if let Some(b) = decompose(t).1 {
            let gs = add_groups(init);
            let k = key(b);
            match find_group(gs, k) {
                Some(i) => {
                    lemma_find_group(gs, k);
                },
                None => {
                    lemma_index_pos_range_groups(gs, k);
                },
            }
        }
    }
}

proof fn lemma_index_pos_range_groups(gs: Seq<Group>, k: Seq<char>)
    ensures
        0 <= insert_pos(gs, k) <= gs.len(),
    decreases gs.len(),
{
    if gs.len() > 0 {
        lemma_index_pos_range_groups(gs.drop_last(), k);
    }
}

proof fn lemma_flat_nonempty(e: Expr, positive: bool)
    ensures
        flat_add(e, positive).len() > 0,
    decreases e,
{
    if let Expr::PrimOp { op, args } = e {
        if (op == PrimOp::Add || op == PrimOp::Sub) && args@.len() == 2 {
            lemma_flat_nonempty(args@[0], positive);
        } else if op == PrimOp::Neg && args@.len() == 1 {
            lemma_flat_nonempty(args@[0], !positive);
        }
    }
}

/// Appends the anchored operands, in order, to the chain `acc`.
fn append_anchored(acc: Option<Expr>, ops: &Vec<Operand>, Ghost(flat): Ghost<Seq<(bool, Expr)>>, Ghost(items): Ghost<Seq<(bool, OutTerm)>>) -> (r: Option<Expr>)
    requires
        ops@.len() == flat.len(),
        forall|j: int| 0 <= j < flat.len() ==> op_rel(#[trigger] ops@[j], flat[j]),
        acc_rel(items, acc),
    ensures
        acc_rel(items + anchored_terms(flat), r),
{
    let mut acc = acc;
    let mut i: usize = 0;
    assert(items + anchored_terms(flat.take(0)) =~= items);
    while i < ops.len()
        invariant
            i <= ops@.len(),
            ops@.len() == flat.len(),
            forall|j: int| 0 <= j < flat.len() ==> op_rel(#[trigger] ops@[j], flat[j]),
            acc_rel(items + anchored_terms(flat.take(i as int)), acc),
        decreases ops@.len() - i,
    {
        proof {
            assert(flat.take(i + 1).drop_last() =~= flat.take(i as int));
            assert(flat.take(i + 1).last() == flat[i as int]);
            assert(op_rel(ops@[i as int], flat[i as int]));
        }
        if ops[i].anchored {
            let t = like_term(&ops[i].term, Ghost(flat[i as int].1));
            let ghost pre = items + anchored_terms(flat.take(i as int));
            acc = Some(signed(acc, ops[i].positive, t, Ghost(pre), Ghost(OutTerm::Like(flat[i as int].1))));
            proof {
                assert(pre.push((ops@[i as int].positive, OutTerm::Like(flat[i as int].1))) =~= items + anchored_terms(
                    flat.take(i + 1),
                ));
            }
        } else {
            proof {
                assert(items + anchored_terms(flat.take(i + 1)) =~= items + anchored_terms(flat.take(i as int)));
            }
        }
        i = i + 1;
    }
    proof {
        assert(flat.take(flat.len() as int) =~= flat);
    }
    acc
}

/// Appends the literal sum, when there was a literal.
fn append_constant(
    acc: Option<Expr>,
    constant: &Rational,
    had: bool,
    interner: &mut Interner,
    Ghost(flat): Ghost<Seq<(bool, Expr)>>,
    Ghost(items): Ghost<Seq<(bool, OutTerm)>>,
) -> (r: Option<Expr>)
    requires
        old(interner).wf(),
        acc_rel(items, acc),
        constant.wf(),
        const_part(flat).0.1 > 0,
        same_value(constant@, const_part(flat).0),
        had == const_part(flat).1,
    ensures
        final(interner).wf(),
        final(interner).extends(old(interner)),
        acc_rel(items + const_terms(flat), r),
{
    if had {
        let c = number_const(constant, interner, Ghost(const_part(flat).0));
        let r = signed(acc, true, c, Ghost(items), Ghost(OutTerm::Num(const_part(flat).0)));
        proof {
            assert(items.push((true, OutTerm::Num(const_part(flat).0))) =~= items + const_terms(flat));
        }
        Some(r)
    } else {
        assert(items + const_terms(flat) =~= items);
        acc
    }
}

/// The combined chain.
fn combine(
    ops: &Vec<Operand>,
    coeffs: &Vec<Rational>,
    first: &Vec<usize>,
    constant: &Rational,
    had: bool,
    interner: &mut Interner,
    Ghost(flat): Ghost<Seq<(bool, Expr)>>,
) -> (k: Expr)
    requires
        old(interner).wf(),
        flat.len() > 0,
        ops@.len() == flat.len(),
        forall|j: int| 0 <= j < flat.len() ==> op_rel(#[trigger] ops@[j], flat[j]),
        groups_rel(coeffs@, first@, flat, flat.len() as int, add_groups(flat)),
        constant.wf(),
        const_part(flat).0.1 > 0,
        same_value(constant@, const_part(flat).0),
        had == const_part(flat).1,
    ensures
        final(interner).wf(),
        final(interner).extends(old(interner)),
        chain_rel(combine_plan(flat), k),
{
    let ghost gs = add_groups(flat);
    let ghost at = anchored_terms(flat);
    let ghost gt = group_terms(gs);
    let mut acc = append_anchored(None, ops, Ghost(flat), Ghost(Seq::empty()));
    proof {
        assert(Seq::<(bool, OutTerm)>::empty() + at =~= at);
        assert(at + gt.take(0) =~= at);
    }
    let mut g: usize = 0;
    while g < coeffs.len()
        invariant
            interner.wf(),
            interner.extends(old(interner)),
            g <= gs.len(),
            ops@.len() == flat.len(),
            forall|j: int| 0 <= j < flat.len() ==> op_rel(#[trigger] ops@[j], flat[j]),
            groups_rel(coeffs@, first@, flat, flat.len() as int, gs),
            gt == group_terms(gs),
            acc_rel(at + gt.take(g as int), acc),
        decreases gs.len() - g,
    {
        let f = first[g];
        proof {
            assert(first@[g as int] < flat.len());
            assert(op_rel(ops@[f as int], flat[f as int]));
        }
        let b = match &ops[f].base {
            Some(b) => b,
            None => {
                proof {
                    assert(false);
                }
                return Expr::Const(interner.null());
            },
        };
        let t = make_term(&coeffs[g], b, interner, Ghost(gs[g as int].1), Ghost(gs[g as int].2));
        let ghost pre = at + gt.take(g as int);
        acc = Some(signed(acc, true, t, Ghost(pre), Ghost(OutTerm::Scaled(gs[g as int].1, gs[g as int].2))));
        proof {
            assert(pre.push((true, OutTerm::Scaled(gs[g as int].1, gs[g as int].2))) =~= at + gt.take(g + 1));
        }
        g = g + 1;
    }
    proof {
        assert(gt.take(gs.len() as int) =~= gt);
    }
    let acc = append_constant(acc, constant, had, interner, Ghost(flat), Ghost(at + gt));
    proof {
        lemma_plan_nonempty(flat);
        assert(at + gt + const_terms(flat) =~= combine_plan(flat));
    }
    match acc {
        Some(k) => k,
        None => {
            proof {
                assert(false);
            }
            Expr::Const(interner.null())
        },
    }
}

/// The reordering fallback.
fn reorder(ops: &Vec<Operand>, interner: &mut Interner, Ghost(flat): Ghost<Seq<(bool, Expr)>>) -> (k: Expr)
    requires
        old(interner).wf(),
        ops@.len() == flat.len(),
        forall|j: int| 0 <= j < flat.len() ==> op_rel(#[trigger] ops@[j], flat[j]),
    ensures
        final(interner).wf(),
        final(interner).extends(old(interner)),
        reorder_rel(flat, k),
{
    let mut acc: Option<Expr> = None;
    let mut ps: Vec<Expr> = Vec::new();
    let mut ns: Vec<Expr> = Vec::new();
    let mut constant = Rational::from(0);
    let mut had = false;
    let zero = Rational::from(0);
    let mut i: usize = 0;
    while i < ops.len()
        invariant
            interner.wf(),
            interner.extends(old(interner)),
            i <= ops@.len(),
            ops@.len() == flat.len(),
            forall|j: int| 0 <= j < flat.len() ==> op_rel(#[trigger] ops@[j], flat[j]),
            zero@ == (0int, 1int),
            acc_rel(anchored_terms(flat.take(i as int)), acc),
            scaled_terms(pos_plan(flat.take(i as int)), ps@),
            scaled_terms(neg_plan(flat.take(i as int)), ns@),
            constant.wf(),
            const_part(flat.take(i as int)).0.1 > 0,
            same_value(constant@, const_part(flat.take(i as int)).0),
            had == const_part(flat.take(i as int)).1,
        decreases ops@.len() - i,
    {
        let ghost fl = flat.take(i as int);
        let ghost fl1 = flat.take(i + 1);
        let ghost cp = const_part(fl);
        proof {
            assert(fl1.drop_last() =~= fl);
            assert(fl1.last() == flat[i as int]);
            assert(op_rel(ops@[i as int], flat[i as int]));
        }
        let ghost (p, t) = flat[i as int];
        let ghost c = signed_coeff(p, decompose(t).0);
        match &ops[i].base {
            None => {
                proof {
                    lemma_add_congr(constant@, cp.0, c);
                    lemma_add_congr(cp.0, constant@, c);
                }
                let nc = constant.add(&ops[i].coeff);
                proof {
                    lemma_same_value_signs(rat_add(cp.0, c), rat_add(constant@, c));
                    crate::rational::lemma_same_value_transitive(nc@, rat_add(constant@, c), rat_add(cp.0, c));
                    assert(anchored_terms(fl1) =~= anchored_terms(fl));
                    assert(pos_plan(fl1) =~= pos_plan(fl));
                    assert(neg_plan(fl1) =~= neg_plan(fl));
                }
                constant = nc;
                had = true;
            },
            Some(b) => {
                if ops[i].anchored {
                    let tt = like_term(&ops[i].term, Ghost(t));
                    let ghost pre = anchored_terms(fl);
                    acc = Some(signed(acc, ops[i].positive, tt, Ghost(pre), Ghost(OutTerm::Like(t))));
                    proof {
                        assert(pre.push((p, OutTerm::Like(t))) =~= anchored_terms(fl1));
                        assert(pos_plan(fl1) =~= pos_plan(fl));
                        assert(neg_plan(fl1) =~= neg_plan(fl));
                        assert(const_part(fl1) == cp);
                    }
                } else if ops[i].coeff.lt(&zero) {
                    let m = ops[i].coeff.neg();
                    let ghost sc = (-c.0, c.1);
                    let tt = make_term(&m, b, interner, Ghost(sc), Ghost(decompose(t).1->Some_0));
                    let ghost n0 = ns@;
                    ns.push(tt);
                    proof {
                        assert(neg_plan(fl1) =~= neg_plan(fl).push((sc, decompose(t).1->Some_0)));
                        assert(pos_plan(fl1) =~= pos_plan(fl));
                        assert(anchored_terms(fl1) =~= anchored_terms(fl));
                        assert(const_part(fl1) == cp);
                        assert forall|q: int| 0 <= q < neg_plan(fl1).len() implies term_rel(
                            OutTerm::Scaled(neg_plan(fl1)[q].0, neg_plan(fl1)[q].1),
                            #[trigger] ns@[q],
                        ) by {
                            if q < n0.len() {
                                assert(ns@[q] == n0[q]);
                            }
                        }
                    }
                } else {
                    let tt = make_term(&ops[i].coeff, b, interner, Ghost(c), Ghost(decompose(t).1->Some_0));
                    let ghost p0 = ps@;
                    ps.push(tt);
                    proof {
                        assert(pos_plan(fl1) =~= pos_plan(fl).push((c, decompose(t).1->Some_0)));
                        assert(neg_plan(fl1) =~= neg_plan(fl));
                        assert(anchored_terms(fl1) =~= anchored_terms(fl));
                        assert(const_part(fl1) == cp);
                        assert forall|q: int| 0 <= q < pos_plan(fl1).len() implies term_rel(
                            OutTerm::Scaled(pos_plan(fl1)[q].0, pos_plan(fl1)[q].1),
                            #[trigger] ps@[q],
                        ) by {
                            if q < p0.len() {
                                assert(ps@[q] == p0[q]);
                            }
                        }
                    }
                }
            },
        }
        i = i + 1;
    }
    proof {
        assert(flat.take(flat.len() as int) =~= flat);
    }
    let ghost at = anchored_terms(flat);
    let ghost pt = sorted_exprs(ps@).map_values(|t: Expr| (true, OutTerm::Like(t)));
    let ghost nt = sorted_exprs(ns@).map_values(|t: Expr| (false, OutTerm::Like(t)));
    proof {
        assert(Seq::<(bool, OutTerm)>::empty() + at =~= at);
    }
    let acc = append_sorted(acc, &ps, true, Ghost(at));
    let acc = append_sorted(acc, &ns, false, Ghost(at + pt));
    let acc = append_constant(acc, &constant, had, interner, Ghost(flat), Ghost(at + pt + nt));
    let k = match acc {
        Some(k) => k,
        None => {
            let z = Rational::from(0);
            number_const(&z, interner, Ghost((0int, 1int)))
        },
    };
    proof {
        assert(at + pt + nt + const_terms(flat) =~= reorder_items(flat, ps@, ns@));
        assert(reorder_witness(flat, ps@, ns@));
    }
    k
}

/// The rewritten additive chain `e`.
fn norm_add(e: &Expr, interner: &mut Interner) -> (k: Expr)
    requires
        old(interner).wf(),
    ensures
        final(interner).wf(),
        final(interner).extends(old(interner)),
        add_rel(*e, k),
{
    let ghost flat = flat_add(*e, true);
    let mut ops: Vec<Operand> = Vec::new();
    flatten_add(e, true, &mut ops);
    proof {
        lemma_flat_nonempty(*e, true);
        assert forall|j: int| 0 <= j < flat.len() implies op_rel(#[trigger] ops@[j], flat[j]) by {
            assert(ops@[0 + j] == ops@[j]);
        }
    }
    let (coeffs, first, constant, had) = group_operands(&ops, Ghost(flat));
    let ghost gs = add_groups(flat);
    let mut zero_found = false;
    let mut g: usize = 0;
    while g < coeffs.len()
        invariant
            g <= coeffs@.len(),
            groups_rel(coeffs@, first@, flat, flat.len() as int, gs),
            zero_found == exists|h: int| 0 <= h < g && (#[trigger] gs[h]).1.0 == 0,
        decreases coeffs@.len() - g,
    {
        proof {
            assert(first@[g as int] < flat.len());
            lemma_same_value_signs(coeffs@[g as int]@, gs[g as int].1);
        }
        if coeffs[g].is_zero() {
            zero_found = true;
        }
        g = g + 1;
    }
    let lone = if coeffs.len() == 1 && !had {
        proof {
            assert(first@[0] < flat.len());
            lemma_same_value_signs(coeffs@[0]@, gs[0].1);
        }
        coeffs[0].eq_value(&Rational::from(1))
    } else {
        false
    };
    if zero_found || lone {
        reorder(&ops, interner, Ghost(flat))
    } else {
        combine(&ops, &coeffs, &first, &constant, had, interner, Ghost(flat))
    }
}

// ── Multiplicative chains ────────────────────────────────────────────────────

/// A factor of a product: a copy, whether it is anchored, its number when it
/// is a numeric literal, and its key.
struct Factor {
    term: Expr,
    anchored: bool,
    number: Option<Rational>,
    key: Vec<char>,
}

/// `f` describes the factor `t`.
spec fn factor_rel(f: Factor, t: Expr) -> bool {
    &&& expr_deq(t, f.term)
    &&& f.anchored == anchored(t)
    &&& match const_number(t) {
        Some(n) => f.number matches Some(x) && x@ == n && x.wf(),
        None => f.number is None,
    }
    &&& f.key@ == key(t)
}

/// Appends the factors of the product `e` to `out`.
fn flatten_mul(e: &Expr, out: &mut Vec<Factor>)
    ensures
        final(out)@.len() == old(out)@.len() + flat_mul(*e).len(),
        forall|i: int| 0 <= i < old(out)@.len() ==> #[trigger] final(out)@[i] == old(out)@[i],
        forall|j: int|
            0 <= j < flat_mul(*e).len() ==> factor_rel(#[trigger] final(out)@[old(out)@.len() + j], flat_mul(*e)[j]),
    decreases e,
{
    match e {
        Expr::PrimOp { op, args } => {
            if *op == PrimOp::Mul && args.len() == 2 {
                let ghost n0 = out@.len();
                let ghost a = flat_mul(args@[0]);
                let ghost b = flat_mul(args@[1]);
                flatten_mul(&args[0], out);
                let ghost mid = out@;
                flatten_mul(&args[1], out);
                proof {
                    assert(flat_mul(*e) == a + b);
                    assert forall|j: int| 0 <= j < (a + b).len() implies factor_rel(#[trigger] out@[n0 + j], (a + b)[j]) by {
                        if j < a.len() {
                            assert(out@[n0 + j] == mid[n0 + j]);
                        } else {
                            assert(out@[mid.len() + (j - a.len())] == out@[n0 + j]);
                        }
                    }
                }
                return;
            }
        },
        _ => {},
    }
    let f = Factor { term: clone_expr(e), anchored: anchored_operand(e), number: number_of(e), key: key_of(e) };
    out.push(f);
}

/// A copy of a character vector.
fn copy_chars(v: &Vec<char>) -> (r: Vec<char>)
    ensures
        r@ == v@,
{
    let mut out: Vec<char> = Vec::new();
    let mut i: usize = 0;
    while i < v.len()
        invariant
            i <= v@.len(),
            out@ == v@.take(i as int),
        decreases v@.len() - i,
    {
        out.push(v[i]);
        i = i + 1;
        assert(out@ =~= v@.take(i as int));
    }
    assert(v@.take(v@.len() as int) =~= v@);
    out
}

/// `acc` is the product of `fs` built so far (nothing when empty).
spec fn prod_acc(fs: Seq<Expr>, acc: Option<Expr>) -> bool {
    if fs.len() == 0 {
        acc is None
    } else {
        acc matches Some(k) && product_rel(fs, k)
    }
}

/// Multiplies the product `acc` by a copy of `t`.
fn times(acc: Option<Expr>, t: &Expr, Ghost(fs): Ghost<Seq<Expr>>, Ghost(st): Ghost<Expr>) -> (r: Expr)
    requires
        prod_acc(fs, acc),
        expr_deq(st, *t),
    ensures
        product_rel(fs.push(st), r),
{
    let c = clone_expr(t);
    proof {
        lemma_expr_deq_trans(st, *t, c);
        assert(fs.push(st).drop_last() =~= fs);
    }
    match acc {
        None => c,
        Some(a) => {
            let args = vec![a, c];
            Expr::PrimOp { op: PrimOp::Mul, args }
        },
    }
}

/// The rewritten product `e`.
fn norm_mul(e: &Expr, interner: &mut Interner) -> (k: Expr)
    requires
        old(interner).wf(),
    ensures
        final(interner).wf(),
        final(interner).extends(old(interner)),
        mul_rel(*e, k),
{
    let ghost fl = flat_mul(*e);
    let mut fs: Vec<Factor> = Vec::new();
    flatten_mul(e, &mut fs);
    proof {
        assert forall|j: int| 0 <= j < fl.len() implies factor_rel(#[trigger] fs@[j], fl[j]) by {
            assert(fs@[0 + j] == fs@[j]);
        }
    }
    let mut coeff = Rational::from(1);
    let mut had = false;
    let mut anch: Vec<Expr> = Vec::new();
    let mut rest: Vec<Expr> = Vec::new();
    let mut entries: Vec<(Vec<char>, usize)> = Vec::new();
    let mut i: usize = 0;
    while i < fs.len()
        invariant
            i <= fs@.len(),
            fs@.len() == fl.len(),
            forall|j: int| 0 <= j < fl.len() ==> factor_rel(#[trigger] fs@[j], fl[j]),
            coeff.wf(),
            mul_coeff(fl.take(i as int)).0.1 > 0,
            same_value(coeff@, mul_coeff(fl.take(i as int)).0),
            had == mul_coeff(fl.take(i as int)).1,
            anch@.len() == mul_anchored(fl.take(i as int)).len(),
            forall|q: int| 0 <= q < anch@.len() ==> expr_deq(mul_anchored(fl.take(i as int))[q], #[trigger] anch@[q]),
            rest@.len() == mul_rest(fl.take(i as int)).len(),
            forall|q: int| 0 <= q < rest@.len() ==> expr_deq(mul_rest(fl.take(i as int))[q], #[trigger] rest@[q]),
            idx_view(entries@) == key_entries(mul_rest(fl.take(i as int))),
        decreases fs@.len() - i,
    {
        let ghost f0 = fl.take(i as int);
        let ghost f1 = fl.take(i + 1);
        let ghost t = fl[i as int];
        proof {
            assert(f1.drop_last() =~= f0);
            assert(f1.last() == t);
            assert(factor_rel(fs@[i as int], t));
        }
        match &fs[i].number {
            Some(n) => {
                let ghost cn = const_number(t)->Some_0;
                proof {
                    lemma_mul_congr(coeff@, mul_coeff(f0).0, cn);
                }
                let nc = coeff.mul(n);
                proof {
                    assert(rat_mul(coeff@, cn) == rat_mul(coeff@, n@));
                    lemma_same_value_signs(rat_mul(mul_coeff(f0).0, cn), rat_mul(coeff@, cn));
                    crate::rational::lemma_same_value_transitive(nc@, rat_mul(coeff@, cn), rat_mul(mul_coeff(f0).0, cn));
                    assert(mul_anchored(f1) =~= mul_anchored(f0));
                    assert(mul_rest(f1) =~= mul_rest(f0));
                }
                coeff = nc;
                had = true;
            },
            None => {
                if fs[i].anchored {
                    let ghost a0 = anch@;
                    anch.push(clone_expr(&fs[i].term));
                    proof {
                        assert(mul_anchored(f1) =~= mul_anchored(f0).push(t));
                        assert(mul_rest(f1) =~= mul_rest(f0));
                        assert forall|q: int| 0 <= q < anch@.len() implies expr_deq(
                            mul_anchored(f1)[q],
                            #[trigger] anch@[q],
                        ) by {
                            if q < a0.len() {
                                assert(anch@[q] == a0[q]);
                            } else {
                                lemma_expr_deq_trans(t, fs@[i as int].term, anch@[q]);
                            }
                        }
                    }
                } else {
                    let ghost r0 = rest@;
                    let ghost e0 = entries@;
                    let pos = rest.len();
                    rest.push(clone_expr(&fs[i].term));
                    entries.push((copy_chars(&fs[i].key), pos));
                    proof {
                        assert(mul_rest(f1) =~= mul_rest(f0).push(t));
                        assert(mul_anchored(f1) =~= mul_anchored(f0));
                        assert forall|q: int| 0 <= q < rest@.len() implies expr_deq(
                            mul_rest(f1)[q],
                            #[trigger] rest@[q],
                        ) by {
                            if q < r0.len() {
                                assert(rest@[q] == r0[q]);
                            } else {
                                lemma_expr_deq_trans(t, fs@[i as int].term, rest@[q]);
                            }
                        }
                        assert(idx_view(e0).len() == e0.len());
                        assert forall|q: int| 0 <= q < entries@.len() implies #[trigger] idx_view(entries@)[q] == key_entries(
                            mul_rest(f1),
                        )[q] by {
                            if q < e0.len() {
                                assert(entries@[q] == e0[q]);
                                assert(idx_view(e0)[q] == key_entries(mul_rest(f0))[q]);
                            }
                        }
                        assert(idx_view(entries@) =~= key_entries(mul_rest(f1)));
                    }
                }
            },
        }
        i = i + 1;
    }
    proof {
        assert(fl.take(fl.len() as int) =~= fl);
    }
    let ghost ma = mul_anchored(fl);
    let ghost mr = mul_rest(fl);
    let ghost ordered = ma + sorted_exprs(mr);
    let sorted = sort_entries(entries);
    proof {
        lemma_sorted_in_range(mr);
    }
    let mut acc: Option<Expr> = None;
    let mut q: usize = 0;
    assert(ordered.take(0) =~= Seq::<Expr>::empty());
    while q < anch.len()
        invariant
            q <= anch@.len(),
            anch@.len() == ma.len(),
            forall|q2: int| 0 <= q2 < anch@.len() ==> expr_deq(ma[q2], #[trigger] anch@[q2]),
            ordered == ma + sorted_exprs(mr),
            prod_acc(ordered.take(q as int), acc),
        decreases anch@.len() - q,
    {
        let ghost pre = ordered.take(q as int);
        let nx = times(acc, &anch[q], Ghost(pre), Ghost(ma[q as int]));
        acc = Some(nx);
        proof {
            assert(pre.push(ma[q as int]) =~= ordered.take(q + 1));
        }
        q = q + 1;
    }
    let mut j: usize = 0;
    while j < sorted.len()
        invariant
            j <= sorted@.len(),
            sorted@.len() == mr.len(),
            rest@.len() == mr.len(),
            forall|q2: int| 0 <= q2 < rest@.len() ==> expr_deq(mr[q2], #[trigger] rest@[q2]),
            idx_view(sorted@) == sort_indexed(key_entries(mr)),
            forall|k: int| 0 <= k < mr.len() ==> 0 <= (#[trigger] sort_indexed(key_entries(mr))[k]).1 < mr.len(),
            ordered == ma + sorted_exprs(mr),
            prod_acc(ordered.take(ma.len() + j), acc),
        decreases sorted@.len() - j,
    {
        let idx = sorted[j].1;
        proof {
            assert(idx_view(sorted@)[j as int] == (sorted@[j as int].0@, idx as int));
            assert(sorted_exprs(mr)[j as int] == mr[idx as int]);
            assert(ordered[ma.len() + j] == mr[idx as int]);
        }
        let ghost pre = ordered.take(ma.len() + j);
        let nx = times(acc, &rest[idx], Ghost(pre), Ghost(mr[idx as int]));
        acc = Some(nx);
        proof {
            assert(pre.push(mr[idx as int]) =~= ordered.take(ma.len() + j + 1));
        }
        j = j + 1;
    }
    proof {
        assert(ordered.take(ordered.len() as int) =~= ordered);
    }
    match acc {
        None => {
            proof {
                assert(ordered.len() == 0);
            }
            number_const(&coeff, interner, Ghost(mul_coeff(fl).0))
        },
        Some(product) => {
            if had {
                let c = number_const(&coeff, interner, Ghost(mul_coeff(fl).0));
                let args = vec![c, product];
                Expr::PrimOp { op: PrimOp::Mul, args }
            } else {
                product
            }
        },
    }
}

/// Applies the arithmetic rule to one node whose children are normalized;
/// any other node is copied.
pub fn rewrite(e: &Expr, interner: &mut Interner) -> (k: Expr)
    requires
        old(interner).wf(),
    ensures
        final(interner).wf(),
        final(interner).extends(old(interner)),
        arith_rel(*e, k),
{
    match e {
        Expr::PrimOp { op, args } => {
            if ((*op == PrimOp::Add || *op == PrimOp::Sub) && args.len() == 2) || (*op == PrimOp::Neg && args.len() == 1) {
                return norm_add(e, interner);
            }
            if *op == PrimOp::Mul && args.len() == 2 {
                return norm_mul(e, interner);
            }
        },
        _ => {},
    }
    clone_expr(e)
}

} // verus!
