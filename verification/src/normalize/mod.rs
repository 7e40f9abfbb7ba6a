//! Normalization: the evaluation-preserving rewriting of kernel forms to a
//! canonical one.
//!
//! The active rules are structural and name-free:
//!
//! - template segment folding: adjacent literal segments merge;
//! - a template with no interpolation is the constant string it denotes;
//! - the arithmetic rule ([`arith`]): reordering, literal folding and
//!   like-term combining over `+`, `-` and `*` chains.
//!
//! Everything else is a structure-preserving map: children are normalized
//! first, then the rules apply to the rebuilt node.

pub mod arith;
pub mod key;

use crate::ast::{
    clone_pat, clone_ref, clone_slot, expr_deq, lemma_expr_deq_trans, opt_pat_deq, pat_deq, AccessForm, ActBind, ActKind,
    Arg, Arm, Bind, BindTarget, Element, Expr, Field, Import, Item, Lambda, Match, MatchItem, Module, SlotDecl,
    TemplatePart, Where,
};
use crate::interner::Interner;
use crate::normalize::arith::{arith_rel, rewrite};
use crate::text::{string_from_chars, utf16_of};
use crate::value::ValueKey;
use vstd::prelude::*;

verus! {

// ── Templates ────────────────────────────────────────────────────────────────

/// A template part as text or an interpolated expression.
pub ghost enum PartView {
    Seg(Seq<char>),
    Interp(Expr),
}

pub open spec fn part_view(p: TemplatePart) -> PartView {
    match p {
        TemplatePart::Segment(s) => PartView::Seg(s@),
        TemplatePart::Interp(e) => PartView::Interp(e),
    }
}

pub open spec fn parts_view(ps: Seq<TemplatePart>) -> Seq<PartView> {
    ps.map_values(|p: TemplatePart| part_view(p))
}

/// The parts with each run of adjacent segments merged into one.
pub open spec fn fold_view(ps: Seq<PartView>) -> Seq<PartView>
    decreases ps.len(),
{
    if ps.len() == 0 {
        seq![]
    } else {
        let f = fold_view(ps.drop_last());
        match ps.last() {
            PartView::Seg(s) => if f.len() > 0 && f.last() is Seg {
                f.update(f.len() - 1, PartView::Seg(f.last()->Seg_0 + s))
            } else {
                f.push(PartView::Seg(s))
            },
            PartView::Interp(x) => f.push(PartView::Interp(x)),
        }
    }
}

/// All parts are segments.
pub open spec fn all_segments(ps: Seq<PartView>) -> bool {
    forall|i: int| 0 <= i < ps.len() ==> (#[trigger] ps[i]) is Seg
}

/// The text of the segments, in order.
pub open spec fn seg_text(ps: Seq<PartView>) -> Seq<char>
    decreases ps.len(),
{
    if ps.len() == 0 {
        seq![]
    } else {
        seg_text(ps.drop_last()) + match ps.last() {
            PartView::Seg(s) => s,
            PartView::Interp(_) => seq![],
        }
    }
}

/// No two adjacent parts are both segments.
pub open spec fn segments_apart(ps: Seq<PartView>) -> bool {
    forall|i: int| 0 <= i < ps.len() - 1 ==> !((#[trigger] ps[i]) is Seg && ps[i + 1] is Seg)
}

/// Folding leaves no two segments adjacent and keeps the text.
pub proof fn lemma_fold_view(ps: Seq<PartView>)
    ensures
        segments_apart(fold_view(ps)),
        seg_text(fold_view(ps)) == seg_text(ps),
        all_segments(ps) ==> all_segments(fold_view(ps)),
        fold_view(ps).len() <= ps.len(),
    decreases ps.len(),
{
    if ps.len() > 0 {
        let init = ps.drop_last();
        lemma_fold_view(init);
        let f = fold_view(init);
        if all_segments(ps) {
            assert(ps[ps.len() - 1] is Seg);
            assert forall|i: int| 0 <= i < init.len() implies (#[trigger] init[i]) is Seg by {
                assert(init[i] == ps[i]);
            }
        }
        match ps.last() {
            PartView::Seg(s) => {
                if f.len() > 0 && f.last() is Seg {
                    let g = f.update(f.len() - 1, PartView::Seg(f.last()->Seg_0 + s));
                    assert(g.drop_last() =~= f.drop_last());
                    assert(seg_text(f) == seg_text(f.drop_last()) + f.last()->Seg_0);
                    assert(seg_text(g) == seg_text(g.drop_last()) + f.last()->Seg_0 + s);
                    assert(seg_text(ps) == seg_text(init) + s);
                    assert forall|i: int| 0 <= i < g.len() - 1 implies !((#[trigger] g[i]) is Seg && g[i + 1] is Seg) by {
                        assert(g[i] == f[i]);
                        if i + 1 < g.len() - 1 {
                            assert(g[i + 1] == f[i + 1]);
                        }
                    }
                } else {
                    let g = f.push(PartView::Seg(s));
                    assert(g.drop_last() =~= f);
                    assert forall|i: int| 0 <= i < g.len() - 1 implies !((#[trigger] g[i]) is Seg && g[i + 1] is Seg) by {
                        assert(g[i] == f[i]);
                        if i + 1 < g.len() - 1 {
                            assert(g[i + 1] == f[i + 1]);
                        }
                    }
                }
            },
            PartView::Interp(x) => {
                let g = f.push(PartView::Interp(x));
                assert(g.drop_last() =~= f);
                assert forall|i: int| 0 <= i < g.len() - 1 implies !((#[trigger] g[i]) is Seg && g[i + 1] is Seg) by {
                    assert(g[i] == f[i]);
                    if i + 1 < g.len() - 1 {
                        assert(g[i + 1] == f[i + 1]);
                    }
                }
            },
        }
    }
}

proof fn lemma_fold_apart_fixed(ps: Seq<PartView>)
    requires
        segments_apart(ps),
    ensures
        fold_view(ps) == ps,
    decreases ps.len(),
{
    if ps.len() > 0 {
        let init = ps.drop_last();
        assert forall|i: int| 0 <= i < init.len() - 1 implies !((#[trigger] init[i]) is Seg && init[i + 1] is Seg) by {
            assert(init[i] == ps[i] && init[i + 1] == ps[i + 1]);
        }
        lemma_fold_apart_fixed(init);
        if ps.last() is Seg && init.len() > 0 {
            assert(!(ps[ps.len() - 2] is Seg && ps[ps.len() - 1] is Seg));
        }
        assert(init.push(ps.last()) =~= ps);
    }
}

/// Folding is idempotent: folded parts fold to themselves.
pub proof fn lemma_fold_idempotent(ps: Seq<PartView>)
    ensures
        fold_view(fold_view(ps)) == fold_view(ps),
{
    lemma_fold_view(ps);
    lemma_fold_apart_fixed(fold_view(ps));
}

/// Merges consecutive segments into one.
pub fn fold_segments(parts: Vec<TemplatePart>) -> (r: Vec<TemplatePart>)
    ensures
        parts_view(r@) == fold_view(parts_view(parts@)),
{
    let ghost pv = parts_view(parts@);
    let total = parts.len();
    let ghost n = total as nat;
    let mut rest = parts;
    let mut out: Vec<TemplatePart> = Vec::new();
    let mut i: usize = 0;
    while rest.len() > 0
        invariant
            n == pv.len(),
            n == total,
            i + rest@.len() == n,
            parts_view(rest@) == pv.subrange(i as int, n as int),
            parts_view(out@) == fold_view(pv.subrange(0, i as int)),
        decreases rest@.len(),
    {
        let ghost r0 = rest@;
        let ghost o0 = parts_view(out@);
        let p = rest.remove(0);
        proof {
            assert(p == r0[0]);
            assert(parts_view(r0)[0] == pv.subrange(i as int, n as int)[0]);
            assert forall|k: int| 0 <= k < rest@.len() implies #[trigger] parts_view(rest@)[k] == pv.subrange(
                i + 1,
                n as int,
            )[k] by {
                assert(rest@[k] == r0[k + 1]);
                assert(parts_view(r0)[k + 1] == pv.subrange(i as int, n as int)[k + 1]);
            }
            assert(parts_view(rest@) =~= pv.subrange(i + 1, n as int));
            assert(pv.subrange(0, i + 1).drop_last() =~= pv.subrange(0, i as int));
            assert(pv.subrange(0, i + 1).last() == part_view(p));
        }
        let merged = match (&p, out.last()) {
            (TemplatePart::Segment(s), Some(TemplatePart::Segment(prev))) => {
                let mut text: Vec<char> = Vec::new();
                crate::text::push_chars(&mut text, prev.as_str());
                crate::text::push_chars(&mut text, s.as_str());
                Some(string_from_chars(&text))
            },
            _ => None,
        };
        match merged {
            Some(t) => {
                let last = out.len() - 1;
                out.set(last, TemplatePart::Segment(t));
                proof {
                    assert(parts_view(out@) =~= o0.update(o0.len() - 1, PartView::Seg(o0.last()->Seg_0 + part_view(p)->Seg_0)));
                }
            },
            None => {
                out.push(p);
                proof {
                    assert(parts_view(out@) =~= o0.push(part_view(p)));
                }
            },
        }
        i = i + 1;
    }
    proof {
        assert(pv.subrange(0, n as int) =~= pv);
    }
    out
}

// ── The relation ─────────────────────────────────────────────────────────────

/// Always true: a trigger term only. It names the intermediate node `r`
/// (children normalized, rules not yet applied) between `e` and its normal
/// form, so that the quantifier over `r` in [`normalizes`] has a pattern.
pub open spec fn rebuilt(e: Expr, r: Expr) -> bool {
    true
}

/// Always true: a trigger term only. It names the normalized parts `qs` of
/// the template parts `ps`, so that the quantifier over `qs` has a pattern.
pub open spec fn interpolated(ps: Seq<TemplatePart>, qs: Seq<TemplatePart>) -> bool {
    true
}

/// `k` is the normal form of `e`: `e` with normalized children, rewritten by
/// the template rules and the arithmetic rule.
pub open spec fn normalizes(e: Expr, k: Expr) -> bool
    decreases e, 1nat,
{
    exists|r: Expr| #![trigger rebuilt(e, r)] children_rel(e, r) && arith_rel(r, k)
}

/// `r` is `e` with its children normalized and the template rules applied.
pub open spec fn children_rel(e: Expr, r: Expr) -> bool
    decreases e, 0nat,
{
    match e {
        Expr::Const(_) => expr_deq(e, r),
        Expr::Ref(_) => expr_deq(e, r),
        Expr::Lambda(l) => (r matches Expr::Lambda(m) && lambda_norm(l, m)),
        Expr::Apply { callee, args } => (r matches Expr::Apply { callee: c, args: bs } && normalizes(*callee, *c)
            && args_norm(args@, bs@)),
        Expr::PrimOp { op, args } => (r matches Expr::PrimOp { op: o, args: bs } && o == op && exprs_norm(args@, bs@)),
        Expr::Match(m) => (r matches Expr::Match(n) && match_norm(m, n)),
        Expr::TupleCons(es) => (r matches Expr::TupleCons(fs) && elements_norm(es@, fs@)),
        Expr::RecordCons(fs) => (r matches Expr::RecordCons(gs) && fields_norm(fs@, gs@)),
        Expr::Access { target, form, total } => (r matches Expr::Access { target: t, form: f, total: u } && u == total
            && normalizes(*target, *t) && form_norm(form, f)),
        Expr::Template(ps) => exists|qs: Seq<TemplatePart>|
            #![trigger interpolated(ps@, qs)]
            parts_norm(ps@, qs) && template_result(qs, r),
        Expr::Write { slot, value } => (r matches Expr::Write { slot: s, value: v } && s == slot && normalizes(
            *value,
            *v,
        )),
    }
}

/// The template node for normalized parts `qs`: folded, and a constant
/// string when no interpolation is left.
pub open spec fn template_result(qs: Seq<TemplatePart>, r: Expr) -> bool {
    let f = fold_view(parts_view(qs));
    if all_segments(f) {
        r matches Expr::Const(v) && v.key() == ValueKey::Str(utf16_of(seg_text(f)))
    } else {
        r matches Expr::Template(ps) && parts_view(ps@) == f
    }
}

pub open spec fn lambda_norm(l: Lambda, m: Lambda) -> bool
    decreases l, 0nat,
{
    m.act_kind == l.act_kind && pat_deq(l.params, m.params) && normalizes(*l.body, *m.body)
}

pub open spec fn exprs_norm(a: Seq<Expr>, b: Seq<Expr>) -> bool
    decreases a, 0nat,
{
    a.len() == b.len() && forall|i: int| 0 <= i < a.len() ==> normalizes(#[trigger] a[i], b[i])
}

pub open spec fn args_norm(a: Seq<Arg>, b: Seq<Arg>) -> bool
    decreases a, 0nat,
{
    a.len() == b.len() && forall|i: int|
        0 <= i < a.len() ==> match #[trigger] a[i] {
            Arg::Expr(x) => (b[i] matches Arg::Expr(y) && normalizes(x, y)),
            Arg::Spread(x) => (b[i] matches Arg::Spread(y) && normalizes(x, y)),
        }
}

pub open spec fn elements_norm(a: Seq<Element>, b: Seq<Element>) -> bool
    decreases a, 0nat,
{
    a.len() == b.len() && forall|i: int|
        0 <= i < a.len() ==> match #[trigger] a[i] {
            Element::Expr(x) => (b[i] matches Element::Expr(y) && normalizes(x, y)),
            Element::Spread(x) => (b[i] matches Element::Spread(y) && normalizes(x, y)),
        }
}

pub open spec fn fields_norm(a: Seq<Field>, b: Seq<Field>) -> bool
    decreases a, 0nat,
{
    a.len() == b.len() && forall|i: int|
        0 <= i < a.len() ==> match #[trigger] a[i] {
            Field::Field { key, value } => (b[i] matches Field::Field { key: k, value: v } && k == key && normalizes(
                value,
                v,
            )),
            Field::Computed { key, value } => (b[i] matches Field::Computed { key: k, value: v } && normalizes(key, k)
                && normalizes(value, v)),
            Field::Spread(x) => (b[i] matches Field::Spread(y) && normalizes(x, y)),
        }
}

pub open spec fn opt_norm(a: Option<Box<Expr>>, b: Option<Box<Expr>>) -> bool
    decreases a, 0nat,
{
    match a {
        Some(x) => (b matches Some(y) && normalizes(*x, *y)),
        None => b is None,
    }
}

pub open spec fn form_norm(a: AccessForm, b: AccessForm) -> bool
    decreases a, 0nat,
{
    match a {
        AccessForm::Field(n) => b == AccessForm::Field(n),
        AccessForm::Index(x) => (b matches AccessForm::Index(y) && normalizes(*x, *y)),
        AccessForm::Slice { lo, hi } => (b matches AccessForm::Slice { lo: l, hi: h } && opt_norm(lo, l) && opt_norm(
            hi,
            h,
        )),
    }
}

pub open spec fn parts_norm(a: Seq<TemplatePart>, b: Seq<TemplatePart>) -> bool
    decreases a, 0nat,
{
    a.len() == b.len() && forall|i: int|
        0 <= i < a.len() ==> match #[trigger] a[i] {
            TemplatePart::Segment(s) => b[i] == TemplatePart::Segment(s),
            TemplatePart::Interp(x) => (b[i] matches TemplatePart::Interp(y) && normalizes(x, y)),
        }
}

pub open spec fn bind_norm(a: Bind, b: Bind) -> bool
    decreases a, 0nat,
{
    &&& b.exported == a.exported
    &&& normalizes(a.value, b.value)
    &&& match a.target {
        BindTarget::Name(n) => b.target == BindTarget::Name(n),
        BindTarget::Pattern(p) => (b.target matches BindTarget::Pattern(q) && pat_deq(p, q)),
    }
}

pub open spec fn guard_norm(a: Option<Expr>, b: Option<Expr>) -> bool
    decreases a, 0nat,
{
    match a {
        Some(x) => (b matches Some(y) && normalizes(x, y)),
        None => b is None,
    }
}

pub open spec fn items_norm(a: Seq<MatchItem>, b: Seq<MatchItem>) -> bool
    decreases a, 0nat,
{
    a.len() == b.len() && forall|i: int|
        0 <= i < a.len() ==> match #[trigger] a[i] {
            MatchItem::Bind(x) => (b[i] matches MatchItem::Bind(y) && bind_norm(x, y)),
            MatchItem::Stmt(x) => (b[i] matches MatchItem::Stmt(y) && normalizes(x, y)),
            MatchItem::Arm(x) => (b[i] matches MatchItem::Arm(y) && opt_pat_deq(x.pattern, y.pattern) && guard_norm(
                x.guard,
                y.guard,
            ) && normalizes(x.result, y.result)),
        }
}

pub open spec fn match_norm(a: Match, b: Match) -> bool
    decreases a, 0nat,
{
    opt_norm(a.scrutinee, b.scrutinee) && items_norm(a.items@, b.items@)
}

/// The import lists agree.
pub open spec fn names_same(a: Option<Vec<String>>, b: Option<Vec<String>>) -> bool {
    match a {
        Some(x) => (b matches Some(y) && y@ == x@),
        None => b is None,
    }
}

/// `b` is the module item `a` normalized.
pub open spec fn item_norm(a: Item, b: Item) -> bool {
    match a {
        Item::Bind(x) => (b matches Item::Bind(y) && bind_norm(x, y)),
        Item::SlotDecl(d) => (b matches Item::SlotDecl(t) && t.reactive == d.reactive && t.name == d.name && t.exported
            == d.exported && normalizes(d.init, t.init)),
        Item::ActBind(x) => (b matches Item::ActBind(y) && y.kind == x.kind && y.name == x.name && y.exported
            == x.exported && lambda_norm(x.lambda, y.lambda)),
        Item::Where(w) => (b matches Item::Where(x) && x.name == w.name && normalizes(w.input_contract, x.input_contract)
            && normalizes(w.return_contract, x.return_contract)),
        Item::Import(i) => (b matches Item::Import(j) && j.module == i.module && names_same(i.names, j.names)),
        Item::Stmt(x) => (b matches Item::Stmt(y) && normalizes(x, y)),
    }
}

/// `b` is the module `a` normalized, item by item.
pub open spec fn module_norm(a: Module, b: Module) -> bool {
    &&& b.name == a.name
    &&& b.items@.len() == a.items@.len()
    &&& forall|i: int| 0 <= i < a.items@.len() ==> item_norm(#[trigger] a.items@[i], b.items@[i])
}

// ── Normalizing ──────────────────────────────────────────────────────────────

/// Normalizes an expression.
pub fn normalize_expr(e: &Expr, interner: &mut Interner) -> (k: Expr)
    requires
        old(interner).wf(),
    ensures
        final(interner).wf(),
        final(interner).extends(old(interner)),
        normalizes(*e, k),
        *e is Template && k is Const ==> final(interner).holds(k->Const_0),
{
    normalize_in(e, interner)
}

fn normalize_in(e: &Expr, interner: &mut Interner) -> (k: Expr)
    requires
        old(interner).wf(),
    ensures
        final(interner).wf(),
        final(interner).extends(old(interner)),
        normalizes(*e, k),
        *e is Template && k is Const ==> final(interner).holds(k->Const_0),
    decreases e, 1nat,
{
    let r = normalize_children(e, interner);
    let k = rewrite(&r, interner);
    proof {
        assert(rebuilt(*e, r));
    }
    k
}

/// Normalizes a lambda: its body, under its own act kind.
pub(crate) fn normalize_lambda(l: &Lambda, interner: &mut Interner) -> (r: Lambda)
    requires
        old(interner).wf(),
    ensures
        final(interner).wf(),
        final(interner).extends(old(interner)),
        lambda_norm(*l, r),
    decreases l, 0nat,
{
    let body = normalize_in(&l.body, interner);
    Lambda { params: clone_pat(&l.params), body: Box::new(body), act_kind: l.act_kind }
}

/// A copy of a constant.
fn copy_leaf(e: &Expr) -> (r: Expr)
    requires
        e is Const,
    ensures
        children_rel(*e, r),
{
    match e {
        Expr::Const(v) => Expr::Const(v.clone()),
        _ => {
            assert(false);
            Expr::Ref(crate::ast::Ref::Mu(crate::ast::MuMarker(0)))
        },
    }
}

fn normalize_children(e: &Expr, interner: &mut Interner) -> (r: Expr)
    requires
        old(interner).wf(),
    ensures
        final(interner).wf(),
        final(interner).extends(old(interner)),
        children_rel(*e, r),
        *e is Template && r is Const ==> final(interner).holds(r->Const_0),
    decreases e, 0nat,
{
    let out = match e {
        Expr::Const(_) => copy_leaf(e),
        Expr::Ref(x) => Expr::Ref(clone_ref(x)),
        Expr::Lambda(l) => Expr::Lambda(normalize_lambda(l, interner)),
        Expr::Apply { callee, args } => {
            let c = normalize_in(callee, interner);
            let bs = normalize_args(args, interner);
            Expr::Apply { callee: Box::new(c), args: bs }
        },
        Expr::PrimOp { op, args } => {
            let bs = normalize_exprs(args, interner);
            Expr::PrimOp { op: *op, args: bs }
        },
        Expr::Match(m) => Expr::Match(normalize_match(m, interner)),
        Expr::TupleCons(es) => Expr::TupleCons(normalize_elements(es, interner)),
        Expr::RecordCons(fs) => Expr::RecordCons(normalize_fields(fs, interner)),
        Expr::Access { target, form, total } => {
            let t = normalize_in(target, interner);
            let f = normalize_form(form, interner);
            Expr::Access { target: Box::new(t), form: f, total: *total }
        },
        Expr::Write { slot, value } => {
            let v = normalize_in(value, interner);
            Expr::Write { slot: clone_slot(slot), value: Box::new(v) }
        },
        Expr::Template(ps) => {
            let t = normalize_template(ps, interner);
            proof {
                let qs = choose|qs: Seq<TemplatePart>| parts_norm(ps@, qs) && template_result(qs, t);
                assert(interpolated(ps@, qs));
            }
            t
        },
    };
    out
}

fn normalize_exprs(v: &Vec<Expr>, interner: &mut Interner) -> (r: Vec<Expr>)
    requires
        old(interner).wf(),
    ensures
        final(interner).wf(),
        final(interner).extends(old(interner)),
        exprs_norm(v@, r@),
    decreases v, 0nat,
{
    let mut out: Vec<Expr> = Vec::new();
    let mut i: usize = 0;
    while i < v.len()
        invariant
            interner.wf(),
            interner.extends(old(interner)),
            i <= v@.len(),
            out@.len() == i,
            forall|j: int| 0 <= j < i ==> normalizes(#[trigger] v@[j], out@[j]),
        decreases v@.len() - i,
    {
        proof {
            assert(decreases_to!(*v => v@[i as int]));
        }
        let x = normalize_in(&v[i], interner);
        out.push(x);
        i = i + 1;
    }
    out
}

fn normalize_args(v: &Vec<Arg>, interner: &mut Interner) -> (r: Vec<Arg>)
    requires
        old(interner).wf(),
    ensures
        final(interner).wf(),
        final(interner).extends(old(interner)),
        args_norm(v@, r@),
    decreases v, 0nat,
{
    let mut out: Vec<Arg> = Vec::new();
    let mut i: usize = 0;
    while i < v.len()
        invariant
            interner.wf(),
            interner.extends(old(interner)),
            i <= v@.len(),
            out@.len() == i,
            forall|j: int|
                0 <= j < i ==> match #[trigger] v@[j] {
                    Arg::Expr(x) => (out@[j] matches Arg::Expr(y) && normalizes(x, y)),
                    Arg::Spread(x) => (out@[j] matches Arg::Spread(y) && normalizes(x, y)),
                },
        decreases v@.len() - i,
    {
        proof {
            assert(decreases_to!(*v => v@[i as int]));
        }
        let a = match &v[i] {
            Arg::Expr(x) => Arg::Expr(normalize_in(x, interner)),
            Arg::Spread(x) => Arg::Spread(normalize_in(x, interner)),
        };
        out.push(a);
        i = i + 1;
    }
    out
}

fn normalize_elements(v: &Vec<Element>, interner: &mut Interner) -> (r: Vec<Element>)
    requires
        old(interner).wf(),
    ensures
        final(interner).wf(),
        final(interner).extends(old(interner)),
        elements_norm(v@, r@),
    decreases v, 0nat,
{
    let mut out: Vec<Element> = Vec::new();
    let mut i: usize = 0;
    while i < v.len()
        invariant
            interner.wf(),
            interner.extends(old(interner)),
            i <= v@.len(),
            out@.len() == i,
            forall|j: int|
                0 <= j < i ==> match #[trigger] v@[j] {
                    Element::Expr(x) => (out@[j] matches Element::Expr(y) && normalizes(x, y)),
                    Element::Spread(x) => (out@[j] matches Element::Spread(y) && normalizes(x, y)),
                },
        decreases v@.len() - i,
    {
        proof {
            assert(decreases_to!(*v => v@[i as int]));
        }
        let a = match &v[i] {
            Element::Expr(x) => Element::Expr(normalize_in(x, interner)),
            Element::Spread(x) => Element::Spread(normalize_in(x, interner)),
        };
        out.push(a);
        i = i + 1;
    }
    out
}

fn normalize_fields(v: &Vec<Field>, interner: &mut Interner) -> (r: Vec<Field>)
    requires
        old(interner).wf(),
    ensures
        final(interner).wf(),
        final(interner).extends(old(interner)),
        fields_norm(v@, r@),
    decreases v, 0nat,
{
    let mut out: Vec<Field> = Vec::new();
    let mut i: usize = 0;
    while i < v.len()
        invariant
            interner.wf(),
            interner.extends(old(interner)),
            i <= v@.len(),
            out@.len() == i,
            forall|j: int|
                0 <= j < i ==> match #[trigger] v@[j] {
                    Field::Field { key, value } => (out@[j] matches Field::Field { key: k, value: w } && k == key
                        && normalizes(value, w)),
                    Field::Computed { key, value } => (out@[j] matches Field::Computed { key: k, value: w }
                        && normalizes(key, k) && normalizes(value, w)),
                    Field::Spread(x) => (out@[j] matches Field::Spread(y) && normalizes(x, y)),
                },
        decreases v@.len() - i,
    {
        proof {
            assert(decreases_to!(*v => v@[i as int]));
        }
        let a = match &v[i] {
            Field::Field { key, value } => Field::Field { key: key.clone(), value: normalize_in(value, interner) },
            Field::Computed { key, value } => {
                let k = normalize_in(key, interner);
                let w = normalize_in(value, interner);
                Field::Computed { key: k, value: w }
            },
            Field::Spread(x) => Field::Spread(normalize_in(x, interner)),
        };
        out.push(a);
        i = i + 1;
    }
    out
}

fn normalize_opt(o: &Option<Box<Expr>>, interner: &mut Interner) -> (r: Option<Box<Expr>>)
    requires
        old(interner).wf(),
    ensures
        final(interner).wf(),
        final(interner).extends(old(interner)),
        opt_norm(*o, r),
    decreases o, 0nat,
{
    match o {
        Some(x) => Some(Box::new(normalize_in(x, interner))),
        None => None,
    }
}

fn normalize_form(f: &AccessForm, interner: &mut Interner) -> (r: AccessForm)
    requires
        old(interner).wf(),
    ensures
        final(interner).wf(),
        final(interner).extends(old(interner)),
        form_norm(*f, r),
    decreases f, 0nat,
{
    match f {
        AccessForm::Field(n) => AccessForm::Field(n.clone()),
        AccessForm::Index(x) => AccessForm::Index(Box::new(normalize_in(x, interner))),
        AccessForm::Slice { lo, hi } => {
            let l = normalize_opt(lo, interner);
            let h = normalize_opt(hi, interner);
            AccessForm::Slice { lo: l, hi: h }
        },
    }
}

fn normalize_bind(b: &Bind, interner: &mut Interner) -> (r: Bind)
    requires
        old(interner).wf(),
    ensures
        final(interner).wf(),
        final(interner).extends(old(interner)),
        bind_norm(*b, r),
    decreases b, 0nat,
{
    let target = match &b.target {
        BindTarget::Name(n) => BindTarget::Name(n.clone()),
        BindTarget::Pattern(p) => BindTarget::Pattern(clone_pat(p)),
    };
    let value = normalize_in(&b.value, interner);
    Bind { target, value, exported: b.exported }
}

fn normalize_match(m: &Match, interner: &mut Interner) -> (r: Match)
    requires
        old(interner).wf(),
    ensures
        final(interner).wf(),
        final(interner).extends(old(interner)),
        match_norm(*m, r),
    decreases m, 0nat,
{
    let scrutinee = normalize_opt(&m.scrutinee, interner);
    let items = normalize_items(&m.items, interner);
    Match { scrutinee, items }
}

fn normalize_items(v: &Vec<MatchItem>, interner: &mut Interner) -> (r: Vec<MatchItem>)
    requires
        old(interner).wf(),
    ensures
        final(interner).wf(),
        final(interner).extends(old(interner)),
        items_norm(v@, r@),
    decreases v, 0nat,
{
    let mut out: Vec<MatchItem> = Vec::new();
    let mut i: usize = 0;
    while i < v.len()
        invariant
            interner.wf(),
            interner.extends(old(interner)),
            i <= v@.len(),
            out@.len() == i,
            forall|j: int|
                0 <= j < i ==> match #[trigger] v@[j] {
                    MatchItem::Bind(x) => (out@[j] matches MatchItem::Bind(y) && bind_norm(x, y)),
                    MatchItem::Stmt(x) => (out@[j] matches MatchItem::Stmt(y) && normalizes(x, y)),
                    MatchItem::Arm(x) => (out@[j] matches MatchItem::Arm(y) && opt_pat_deq(x.pattern, y.pattern)
                        && guard_norm(x.guard, y.guard) && normalizes(x.result, y.result)),
                },
        decreases v@.len() - i,
    {
        proof {
            assert(decreases_to!(*v => v@[i as int]));
        }
        let item = match &v[i] {
            MatchItem::Bind(b) => MatchItem::Bind(normalize_bind(b, interner)),
            MatchItem::Stmt(x) => MatchItem::Stmt(normalize_in(x, interner)),
            MatchItem::Arm(a) => {
                let pattern = match &a.pattern {
                    Some(p) => Some(clone_pat(p)),
                    None => None,
                };
                let guard = match &a.guard {
                    Some(g) => Some(normalize_in(g, interner)),
                    None => None,
                };
                let result = normalize_in(&a.result, interner);
                MatchItem::Arm(Arm { pattern, guard, result })
            },
        };
        out.push(item);
        i = i + 1;
    }
    out
}

fn normalize_template(ps: &Vec<TemplatePart>, interner: &mut Interner) -> (r: Expr)
    requires
        old(interner).wf(),
    ensures
        final(interner).wf(),
        final(interner).extends(old(interner)),
        exists|qs: Seq<TemplatePart>| #![trigger interpolated(ps@, qs)] parts_norm(ps@, qs) && template_result(qs, r),
        r is Const ==> final(interner).holds(r->Const_0),
    decreases ps, 0nat,
{
    let mut qs: Vec<TemplatePart> = Vec::new();
    let mut i: usize = 0;
    while i < ps.len()
        invariant
            interner.wf(),
            interner.extends(old(interner)),
            i <= ps@.len(),
            qs@.len() == i,
            forall|j: int|
                0 <= j < i ==> match #[trigger] ps@[j] {
                    TemplatePart::Segment(s) => qs@[j] == TemplatePart::Segment(s),
                    TemplatePart::Interp(x) => (qs@[j] matches TemplatePart::Interp(y) && normalizes(x, y)),
                },
        decreases ps@.len() - i,
    {
        proof {
            assert(decreases_to!(*ps => ps@[i as int]));
        }
        let q = match &ps[i] {
            TemplatePart::Segment(s) => TemplatePart::Segment(s.clone()),
            TemplatePart::Interp(x) => TemplatePart::Interp(normalize_in(x, interner)),
        };
        qs.push(q);
        i = i + 1;
    }
    let ghost qv = qs@;
    proof {
        assert(parts_norm(ps@, qv));
    }
    let folded = fold_segments(qs);
    let ghost f = fold_view(parts_view(qv));
    let mut all = true;
    let mut text: Vec<char> = Vec::new();
    let mut j: usize = 0;
    while j < folded.len()
        invariant
            j <= folded@.len(),
            parts_view(folded@) == f,
            all == all_segments(f.take(j as int)),
            all ==> text@ == seg_text(f.take(j as int)),
        decreases folded@.len() - j,
    {
        proof {
            assert(f.take(j + 1).drop_last() =~= f.take(j as int));
            assert(f.take(j + 1).last() == f[j as int]);
            assert(f[j as int] == part_view(folded@[j as int]));
        }
        match &folded[j] {
            TemplatePart::Segment(s) => {
                if all {
                    crate::text::push_chars(&mut text, s.as_str());
                }
                proof {
                    if all {
                        assert forall|q: int| 0 <= q < j + 1 implies (#[trigger] f.take(j + 1)[q]) is Seg by {
                            if q < j {
                                assert(f.take(j + 1)[q] == f.take(j as int)[q]);
                            }
                        }
                    } else {
                        let q = choose|q: int| 0 <= q < j && !(f.take(j as int)[q] is Seg);
                        assert(f.take(j + 1)[q] == f.take(j as int)[q]);
                    }
                }
            },
            TemplatePart::Interp(_) => {
                all = false;
                proof {
                    assert(!(f.take(j + 1)[j as int] is Seg));
                }
            },
        }
        j = j + 1;
    }
    proof {
        assert(f.take(f.len() as int) =~= f);
    }
    let r = if all {
        let st = string_from_chars(&text);
        let v = interner.string(st.as_str());
        Expr::Const(v)
    } else {
        Expr::Template(folded)
    };
    proof {
        assert(template_result(qv, r));
        assert(interpolated(ps@, qv));
    }
    r
}

/// Copies an import.
fn copy_import(i: &Import) -> (r: Import)
    ensures
        r.module == i.module,
        names_same(i.names, r.names),
{
    let names = match &i.names {
        Some(ns) => {
            let mut out: Vec<String> = Vec::new();
            let mut k: usize = 0;
            while k < ns.len()
                invariant
                    k <= ns@.len(),
                    out@ == ns@.take(k as int),
                decreases ns@.len() - k,
            {
                out.push(ns[k].clone());
                k = k + 1;
                assert(out@ =~= ns@.take(k as int));
            }
            assert(ns@.take(ns@.len() as int) =~= ns@);
            Some(out)
        },
        None => None,
    };
    Import { names, module: i.module.clone() }
}

/// Normalizes a module, item by item.
pub fn normalize_module(module: &Module, interner: &mut Interner) -> (r: Module)
    requires
        old(interner).wf(),
    ensures
        final(interner).wf(),
        final(interner).extends(old(interner)),
        module_norm(*module, r),
{
    let mut items: Vec<Item> = Vec::new();
    let mut i: usize = 0;
    while i < module.items.len()
        invariant
            interner.wf(),
            interner.extends(old(interner)),
            i <= module.items@.len(),
            items@.len() == i,
            forall|j: int| 0 <= j < i ==> item_norm(#[trigger] module.items@[j], items@[j]),
        decreases module.items@.len() - i,
    {
        let item = match &module.items[i] {
            Item::Bind(b) => Item::Bind(normalize_bind(b, interner)),
            Item::SlotDecl(d) => {
                let init = normalize_in(&d.init, interner);
                Item::SlotDecl(SlotDecl { reactive: d.reactive, name: d.name.clone(), init, exported: d.exported })
            },
            Item::ActBind(a) => {
                let lambda = normalize_lambda(&a.lambda, interner);
                Item::ActBind(ActBind { kind: a.kind, name: a.name.clone(), lambda, exported: a.exported })
            },
            Item::Where(w) => {
                let input_contract = normalize_in(&w.input_contract, interner);
                let return_contract = normalize_in(&w.return_contract, interner);
                Item::Where(Where { name: w.name.clone(), input_contract, return_contract })
            },
            Item::Import(imp) => Item::Import(copy_import(imp)),
            Item::Stmt(x) => Item::Stmt(normalize_in(x, interner)),
        };
        items.push(item);
        i = i + 1;
    }
    let name = match &module.name {
        Some(n) => Some(n.clone()),
        None => None,
    };
    Module { name, items }
}

} // verus!
