//! Structural comparison of kernel terms: the same form throughout, names and
//! text by their characters, and constants by their interned handle.

use crate::ast::{
    AccessForm, Arg, Arm, Bind, BindTarget, BindingRef, Element, Expr, Field, Lambda, Match, MatchItem, Pat, PatElem,
    PatField, Ref, SlotRef, TemplatePart,
};
use crate::intern::Term;
use vstd::prelude::*;

verus! {

pub open spec fn opt_name_same(a: Option<String>, b: Option<String>) -> bool {
    match a {
        Some(x) => (b matches Some(y) && x@ == y@),
        None => b is None,
    }
}

pub open spec fn ref_same(a: Ref, b: Ref) -> bool {
    match a {
        Ref::Immutable(BindingRef::Name(n)) => (b matches Ref::Immutable(BindingRef::Name(m)) && n@ == m@),
        Ref::Immutable(BindingRef::Positional(i)) => b == Ref::Immutable(BindingRef::Positional(i)),
        Ref::Location(l) => b == Ref::Location(l),
        Ref::Mu(m) => b == Ref::Mu(m),
    }
}

pub open spec fn slot_same(a: SlotRef, b: SlotRef) -> bool {
    match a {
        SlotRef::Name(n) => (b matches SlotRef::Name(m) && n@ == m@),
        SlotRef::Location(l) => b == SlotRef::Location(l),
    }
}

/// `a` and `b` are the same term.
pub open spec fn expr_same(a: Expr, b: Expr) -> bool
    decreases a,
{
    match a {
        Expr::Const(v) => (b matches Expr::Const(w) && v.handle() == w.handle()),
        Expr::Ref(r) => (b matches Expr::Ref(s) && ref_same(r, s)),
        Expr::Lambda(l) => (b matches Expr::Lambda(m) && lambda_same(l, m)),
        Expr::Apply { callee, args } => (b matches Expr::Apply { callee: c, args: bs } && expr_same(*callee, *c)
            && args_same(args@, bs@)),
        Expr::PrimOp { op, args } => (b matches Expr::PrimOp { op: o, args: bs } && o == op && exprs_same(args@, bs@)),
        Expr::Match(m) => (b matches Expr::Match(n) && match_same(m, n)),
        Expr::TupleCons(es) => (b matches Expr::TupleCons(fs) && elements_same(es@, fs@)),
        Expr::RecordCons(es) => (b matches Expr::RecordCons(fs) && fields_same(es@, fs@)),
        Expr::Access { target, form, total } => (b matches Expr::Access { target: t, form: f, total: u } && u == total
            && expr_same(*target, *t) && form_same(form, f)),
        Expr::Template(ps) => (b matches Expr::Template(qs) && parts_same(ps@, qs@)),
        Expr::Write { slot, value } => (b matches Expr::Write { slot: s, value: v } && slot_same(slot, s) && expr_same(
            *value,
            *v,
        )),
    }
}

pub open spec fn opt_expr_same(a: Option<Box<Expr>>, b: Option<Box<Expr>>) -> bool
    decreases a,
{
    match a {
        Some(x) => (b matches Some(y) && expr_same(*x, *y)),
        None => b is None,
    }
}

pub open spec fn guard_same(a: Option<Expr>, b: Option<Expr>) -> bool
    decreases a,
{
    match a {
        Some(x) => (b matches Some(y) && expr_same(x, y)),
        None => b is None,
    }
}

pub open spec fn exprs_same(a: Seq<Expr>, b: Seq<Expr>) -> bool
    decreases a,
{
    a.len() == b.len() && forall|i: int| 0 <= i < a.len() ==> expr_same(#[trigger] a[i], b[i])
}

/// `a` and `b` are the same function shape.
pub open spec fn lambda_same(a: Lambda, b: Lambda) -> bool
    decreases a,
{
    a.act_kind == b.act_kind && pat_same(a.params, b.params) && expr_same(*a.body, *b.body)
}

pub open spec fn arg_same(a: Arg, b: Arg) -> bool
    decreases a,
{
    match a {
        Arg::Expr(x) => (b matches Arg::Expr(y) && expr_same(x, y)),
        Arg::Spread(x) => (b matches Arg::Spread(y) && expr_same(x, y)),
    }
}

pub open spec fn args_same(a: Seq<Arg>, b: Seq<Arg>) -> bool
    decreases a,
{
    a.len() == b.len() && forall|i: int| 0 <= i < a.len() ==> arg_same(#[trigger] a[i], b[i])
}

pub open spec fn element_same(a: Element, b: Element) -> bool
    decreases a,
{
    match a {
        Element::Expr(x) => (b matches Element::Expr(y) && expr_same(x, y)),
        Element::Spread(x) => (b matches Element::Spread(y) && expr_same(x, y)),
    }
}

pub open spec fn elements_same(a: Seq<Element>, b: Seq<Element>) -> bool
    decreases a,
{
    a.len() == b.len() && forall|i: int| 0 <= i < a.len() ==> element_same(#[trigger] a[i], b[i])
}

pub open spec fn field_same(a: Field, b: Field) -> bool
    decreases a,
{
    match a {
        Field::Field { key, value } => (b matches Field::Field { key: k, value: v } && k@ == key@ && expr_same(value, v)),
        Field::Computed { key, value } => (b matches Field::Computed { key: k, value: v } && expr_same(key, k)
            && expr_same(value, v)),
        Field::Spread(x) => (b matches Field::Spread(y) && expr_same(x, y)),
    }
}

pub open spec fn fields_same(a: Seq<Field>, b: Seq<Field>) -> bool
    decreases a,
{
    a.len() == b.len() && forall|i: int| 0 <= i < a.len() ==> field_same(#[trigger] a[i], b[i])
}

pub open spec fn form_same(a: AccessForm, b: AccessForm) -> bool
    decreases a,
{
    match a {
        AccessForm::Field(n) => (b matches AccessForm::Field(m) && n@ == m@),
        AccessForm::Index(x) => (b matches AccessForm::Index(y) && expr_same(*x, *y)),
        AccessForm::Slice { lo, hi } => (b matches AccessForm::Slice { lo: l, hi: h } && opt_expr_same(lo, l)
            && opt_expr_same(hi, h)),
    }
}

pub open spec fn part_same(a: TemplatePart, b: TemplatePart) -> bool
    decreases a,
{
    match a {
        TemplatePart::Segment(s) => (b matches TemplatePart::Segment(t) && s@ == t@),
        TemplatePart::Interp(x) => (b matches TemplatePart::Interp(y) && expr_same(x, y)),
    }
}

pub open spec fn parts_same(a: Seq<TemplatePart>, b: Seq<TemplatePart>) -> bool
    decreases a,
{
    a.len() == b.len() && forall|i: int| 0 <= i < a.len() ==> part_same(#[trigger] a[i], b[i])
}

pub open spec fn match_same(a: Match, b: Match) -> bool
    decreases a,
{
    opt_expr_same(a.scrutinee, b.scrutinee) && items_same(a.items@, b.items@)
}

pub open spec fn item_same(a: MatchItem, b: MatchItem) -> bool
    decreases a,
{
    match a {
        MatchItem::Bind(x) => (b matches MatchItem::Bind(y) && bind_same(x, y)),
        MatchItem::Stmt(x) => (b matches MatchItem::Stmt(y) && expr_same(x, y)),
        MatchItem::Arm(x) => (b matches MatchItem::Arm(y) && arm_same(x, y)),
    }
}

pub open spec fn items_same(a: Seq<MatchItem>, b: Seq<MatchItem>) -> bool
    decreases a,
{
    a.len() == b.len() && forall|i: int| 0 <= i < a.len() ==> item_same(#[trigger] a[i], b[i])
}

pub open spec fn arm_same(a: Arm, b: Arm) -> bool
    decreases a,
{
    opt_pat_same(a.pattern, b.pattern) && guard_same(a.guard, b.guard) && expr_same(a.result, b.result)
}

pub open spec fn bind_same(a: Bind, b: Bind) -> bool
    decreases a,
{
    a.exported == b.exported && expr_same(a.value, b.value) && match a.target {
        BindTarget::Name(n) => (b.target matches BindTarget::Name(m) && n@ == m@),
        BindTarget::Pattern(p) => (b.target matches BindTarget::Pattern(q) && pat_same(p, q)),
    }
}

pub open spec fn opt_pat_same(a: Option<Pat>, b: Option<Pat>) -> bool
    decreases a,
{
    match a {
        Some(x) => (b matches Some(y) && pat_same(x, y)),
        None => b is None,
    }
}

pub open spec fn pat_same(a: Pat, b: Pat) -> bool
    decreases a,
{
    match a {
        Pat::Const(v) => (b matches Pat::Const(w) && v.handle() == w.handle()),
        Pat::Bind(n) => (b matches Pat::Bind(m) && n@ == m@),
        Pat::Wild => b is Wild,
        Pat::Tuple(es) => (b matches Pat::Tuple(fs) && pat_elems_same(es@, fs@)),
        Pat::Record { fields, exact } => (b matches Pat::Record { fields: fs, exact: x } && x == exact
            && pat_fields_same(fields@, fs@)),
        Pat::Contract(r) => (b matches Pat::Contract(s) && ref_same(r, s)),
    }
}

pub open spec fn pat_elem_same(a: PatElem, b: PatElem) -> bool
    decreases a,
{
    match a {
        PatElem::Pat(p) => (b matches PatElem::Pat(q) && pat_same(p, q)),
        PatElem::Rest(n) => (b matches PatElem::Rest(m) && opt_name_same(n, m)),
    }
}

pub open spec fn pat_elems_same(a: Seq<PatElem>, b: Seq<PatElem>) -> bool
    decreases a,
{
    a.len() == b.len() && forall|i: int| 0 <= i < a.len() ==> pat_elem_same(#[trigger] a[i], b[i])
}

pub open spec fn pat_field_same(a: PatField, b: PatField) -> bool
    decreases a,
{
    match a {
        PatField::Field { key, pat } => (b matches PatField::Field { key: k, pat: q } && k@ == key@ && pat_same(pat, q)),
        PatField::Rest(n) => (b matches PatField::Rest(m) && opt_name_same(n, m)),
    }
}

pub open spec fn pat_fields_same(a: Seq<PatField>, b: Seq<PatField>) -> bool
    decreases a,
{
    a.len() == b.len() && forall|i: int| 0 <= i < a.len() ==> pat_field_same(#[trigger] a[i], b[i])
}

impl Term for Lambda {
    open spec fn same_as(&self, other: &Lambda) -> bool {
        lambda_same(*self, *other)
    }

    proof fn lemma_same_refl(a: &Lambda) {
        lemma_lambda_same_refl(*a);
    }

    proof fn lemma_same_sym(a: &Lambda, b: &Lambda) {
        lemma_lambda_same_sym(*a, *b);
    }

    proof fn lemma_same_trans(a: &Lambda, b: &Lambda, c: &Lambda) {
        lemma_lambda_same_trans(*a, *b, *c);
    }

    fn same_term(&self, other: &Lambda) -> (r: bool) {
        lambda_eq(self, other)
    }
}

// ── Deciding it ──────────────────────────────────────────────────────────────

fn opt_name_eq(a: &Option<String>, b: &Option<String>) -> (r: bool)
    ensures
        r == opt_name_same(*a, *b),
{
    match (a, b) {
        (Some(x), Some(y)) => *x == *y,
        (None, None) => true,
        _ => false,
    }
}

fn ref_eq(a: &Ref, b: &Ref) -> (r: bool)
    ensures
        r == ref_same(*a, *b),
{
    match (a, b) {
        (Ref::Immutable(BindingRef::Name(n)), Ref::Immutable(BindingRef::Name(m))) => *n == *m,
        (Ref::Immutable(BindingRef::Positional(i)), Ref::Immutable(BindingRef::Positional(j))) => *i == *j,
        (Ref::Location(l), Ref::Location(k)) => l.0 == k.0,
        (Ref::Mu(m), Ref::Mu(n)) => m.0 == n.0,
        _ => false,
    }
}

fn slot_eq(a: &SlotRef, b: &SlotRef) -> (r: bool)
    ensures
        r == slot_same(*a, *b),
{
    match (a, b) {
        (SlotRef::Name(n), SlotRef::Name(m)) => *n == *m,
        (SlotRef::Location(l), SlotRef::Location(k)) => l.0 == k.0,
        _ => false,
    }
}

/// Whether `a` and `b` are the same term.
pub fn expr_eq(a: &Expr, b: &Expr) -> (r: bool)
    ensures
        r == expr_same(*a, *b),
    decreases a,
{
    match (a, b) {
        (Expr::Const(v), Expr::Const(w)) => v.ptr_eq(w),
        (Expr::Ref(r), Expr::Ref(s)) => ref_eq(r, s),
        (Expr::Lambda(l), Expr::Lambda(m)) => lambda_eq(l, m),
        (Expr::Apply { callee, args }, Expr::Apply { callee: c, args: bs }) => expr_eq(callee, c) && args_eq(args, bs),
        (Expr::PrimOp { op, args }, Expr::PrimOp { op: o, args: bs }) => *o == *op && exprs_eq(args, bs),
        (Expr::Match(m), Expr::Match(n)) => match_eq(m, n),
        (Expr::TupleCons(es), Expr::TupleCons(fs)) => elements_eq(es, fs),
        (Expr::RecordCons(es), Expr::RecordCons(fs)) => fields_eq(es, fs),
        (Expr::Access { target, form, total }, Expr::Access { target: t, form: f, total: u }) => *u == *total
            && expr_eq(target, t) && form_eq(form, f),
        (Expr::Template(ps), Expr::Template(qs)) => parts_eq(ps, qs),
        (Expr::Write { slot, value }, Expr::Write { slot: s, value: v }) => slot_eq(slot, s) && expr_eq(value, v),
        _ => false,
    }
}

fn opt_expr_eq(a: &Option<Box<Expr>>, b: &Option<Box<Expr>>) -> (r: bool)
    ensures
        r == opt_expr_same(*a, *b),
    decreases a,
{
    match (a, b) {
        (Some(x), Some(y)) => expr_eq(x, y),
        (None, None) => true,
        _ => false,
    }
}

fn guard_eq(a: &Option<Expr>, b: &Option<Expr>) -> (r: bool)
    ensures
        r == guard_same(*a, *b),
    decreases a,
{
    match (a, b) {
        (Some(x), Some(y)) => expr_eq(x, y),
        (None, None) => true,
        _ => false,
    }
}

fn exprs_eq(a: &Vec<Expr>, b: &Vec<Expr>) -> (r: bool)
    ensures
        r == exprs_same(a@, b@),
    decreases a,
{
    if a.len() != b.len() {
        return false;
    }
    let mut i: usize = 0;
    while i < a.len()
        invariant
            i <= a@.len(),
            a@.len() == b@.len(),
            forall|j: int| 0 <= j < i ==> expr_same(#[trigger] a@[j], b@[j]),
        decreases a@.len() - i,
    {
        proof {
            assert(decreases_to!(*a => a[i as int]));
        }
        if !expr_eq(&a[i], &b[i]) {
            return false;
        }
        i = i + 1;
    }
    true
}

/// Whether `a` and `b` are the same function shape.
pub fn lambda_eq(a: &Lambda, b: &Lambda) -> (r: bool)
    ensures
        r == lambda_same(*a, *b),
    decreases a,
{
    a.act_kind == b.act_kind && pat_eq(&a.params, &b.params) && expr_eq(&a.body, &b.body)
}

fn arg_eq(a: &Arg, b: &Arg) -> (r: bool)
    ensures
        r == arg_same(*a, *b),
    decreases a,
{
    match (a, b) {
        (Arg::Expr(x), Arg::Expr(y)) => expr_eq(x, y),
        (Arg::Spread(x), Arg::Spread(y)) => expr_eq(x, y),
        _ => false,
    }
}

fn args_eq(a: &Vec<Arg>, b: &Vec<Arg>) -> (r: bool)
    ensures
        r == args_same(a@, b@),
    decreases a,
{
    if a.len() != b.len() {
        return false;
    }
    let mut i: usize = 0;
    while i < a.len()
        invariant
            i <= a@.len(),
            a@.len() == b@.len(),
            forall|j: int| 0 <= j < i ==> arg_same(#[trigger] a@[j], b@[j]),
        decreases a@.len() - i,
    {
        proof {
            assert(decreases_to!(*a => a[i as int]));
        }
        if !arg_eq(&a[i], &b[i]) {
            return false;
        }
        i = i + 1;
    }
    true
}

fn element_eq(a: &Element, b: &Element) -> (r: bool)
    ensures
        r == element_same(*a, *b),
    decreases a,
{
    match (a, b) {
        (Element::Expr(x), Element::Expr(y)) => expr_eq(x, y),
        (Element::Spread(x), Element::Spread(y)) => expr_eq(x, y),
        _ => false,
    }
}

fn elements_eq(a: &Vec<Element>, b: &Vec<Element>) -> (r: bool)
    ensures
        r == elements_same(a@, b@),
    decreases a,
{
    if a.len() != b.len() {
        return false;
    }
    let mut i: usize = 0;
    while i < a.len()
        invariant
            i <= a@.len(),
            a@.len() == b@.len(),
            forall|j: int| 0 <= j < i ==> element_same(#[trigger] a@[j], b@[j]),
        decreases a@.len() - i,
    {
        proof {
            assert(decreases_to!(*a => a[i as int]));
        }
        if !element_eq(&a[i], &b[i]) {
            return false;
        }
        i = i + 1;
    }
    true
}

fn field_eq(a: &Field, b: &Field) -> (r: bool)
    ensures
        r == field_same(*a, *b),
    decreases a,
{
    match (a, b) {
        (Field::Field { key, value }, Field::Field { key: k, value: v }) => *k == *key && expr_eq(value, v),
        (Field::Computed { key, value }, Field::Computed { key: k, value: v }) => expr_eq(key, k) && expr_eq(value, v),
        (Field::Spread(x), Field::Spread(y)) => expr_eq(x, y),
        _ => false,
    }
}

fn fields_eq(a: &Vec<Field>, b: &Vec<Field>) -> (r: bool)
    ensures
        r == fields_same(a@, b@),
    decreases a,
{
    if a.len() != b.len() {
        return false;
    }
    let mut i: usize = 0;
    while i < a.len()
        invariant
            i <= a@.len(),
            a@.len() == b@.len(),
            forall|j: int| 0 <= j < i ==> field_same(#[trigger] a@[j], b@[j]),
        decreases a@.len() - i,
    {
        proof {
            assert(decreases_to!(*a => a[i as int]));
        }
        if !field_eq(&a[i], &b[i]) {
            return false;
        }
        i = i + 1;
    }
    true
}

fn form_eq(a: &AccessForm, b: &AccessForm) -> (r: bool)
    ensures
        r == form_same(*a, *b),
    decreases a,
{
    match (a, b) {
        (AccessForm::Field(n), AccessForm::Field(m)) => *n == *m,
        (AccessForm::Index(x), AccessForm::Index(y)) => expr_eq(x, y),
        (AccessForm::Slice { lo, hi }, AccessForm::Slice { lo: l, hi: h }) => opt_expr_eq(lo, l) && opt_expr_eq(hi, h),
        _ => false,
    }
}

fn part_eq(a: &TemplatePart, b: &TemplatePart) -> (r: bool)
    ensures
        r == part_same(*a, *b),
    decreases a,
{
    match (a, b) {
        (TemplatePart::Segment(s), TemplatePart::Segment(t)) => *s == *t,
        (TemplatePart::Interp(x), TemplatePart::Interp(y)) => expr_eq(x, y),
        _ => false,
    }
}

fn parts_eq(a: &Vec<TemplatePart>, b: &Vec<TemplatePart>) -> (r: bool)
    ensures
        r == parts_same(a@, b@),
    decreases a,
{
    if a.len() != b.len() {
        return false;
    }
    let mut i: usize = 0;
    while i < a.len()
        invariant
            i <= a@.len(),
            a@.len() == b@.len(),
            forall|j: int| 0 <= j < i ==> part_same(#[trigger] a@[j], b@[j]),
        decreases a@.len() - i,
    {
        proof {
            assert(decreases_to!(*a => a[i as int]));
        }
        if !part_eq(&a[i], &b[i]) {
            return false;
        }
        i = i + 1;
    }
    true
}

fn match_eq(a: &Match, b: &Match) -> (r: bool)
    ensures
        r == match_same(*a, *b),
    decreases a,
{
    opt_expr_eq(&a.scrutinee, &b.scrutinee) && items_eq(&a.items, &b.items)
}

fn item_eq(a: &MatchItem, b: &MatchItem) -> (r: bool)
    ensures
        r == item_same(*a, *b),
    decreases a,
{
    match (a, b) {
        (MatchItem::Bind(x), MatchItem::Bind(y)) => bind_eq(x, y),
        (MatchItem::Stmt(x), MatchItem::Stmt(y)) => expr_eq(x, y),
        (MatchItem::Arm(x), MatchItem::Arm(y)) => arm_eq(x, y),
        _ => false,
    }
}

fn items_eq(a: &Vec<MatchItem>, b: &Vec<MatchItem>) -> (r: bool)
    ensures
        r == items_same(a@, b@),
    decreases a,
{
    if a.len() != b.len() {
        return false;
    }
    let mut i: usize = 0;
    while i < a.len()
        invariant
            i <= a@.len(),
            a@.len() == b@.len(),
            forall|j: int| 0 <= j < i ==> item_same(#[trigger] a@[j], b@[j]),
        decreases a@.len() - i,
    {
        proof {
            assert(decreases_to!(*a => a[i as int]));
        }
        if !item_eq(&a[i], &b[i]) {
            return false;
        }
        i = i + 1;
    }
    true
}

fn arm_eq(a: &Arm, b: &Arm) -> (r: bool)
    ensures
        r == arm_same(*a, *b),
    decreases a,
{
    opt_pat_eq(&a.pattern, &b.pattern) && guard_eq(&a.guard, &b.guard) && expr_eq(&a.result, &b.result)
}

fn bind_eq(a: &Bind, b: &Bind) -> (r: bool)
    ensures
        r == bind_same(*a, *b),
    decreases a,
{
    a.exported == b.exported && expr_eq(&a.value, &b.value) && match (&a.target, &b.target) {
        (BindTarget::Name(n), BindTarget::Name(m)) => *n == *m,
        (BindTarget::Pattern(p), BindTarget::Pattern(q)) => pat_eq(p, q),
        _ => false,
    }
}

fn opt_pat_eq(a: &Option<Pat>, b: &Option<Pat>) -> (r: bool)
    ensures
        r == opt_pat_same(*a, *b),
    decreases a,
{
    match (a, b) {
        (Some(x), Some(y)) => pat_eq(x, y),
        (None, None) => true,
        _ => false,
    }
}

fn pat_eq(a: &Pat, b: &Pat) -> (r: bool)
    ensures
        r == pat_same(*a, *b),
    decreases a,
{
    match (a, b) {
        (Pat::Const(v), Pat::Const(w)) => v.ptr_eq(w),
        (Pat::Bind(n), Pat::Bind(m)) => *n == *m,
        (Pat::Wild, Pat::Wild) => true,
        (Pat::Tuple(es), Pat::Tuple(fs)) => pat_elems_eq(es, fs),
        (Pat::Record { fields, exact }, Pat::Record { fields: fs, exact: x }) => *x == *exact && pat_fields_eq(fields, fs),
        (Pat::Contract(r), Pat::Contract(s)) => ref_eq(r, s),
        _ => false,
    }
}

fn pat_elem_eq(a: &PatElem, b: &PatElem) -> (r: bool)
    ensures
        r == pat_elem_same(*a, *b),
    decreases a,
{
    match (a, b) {
        (PatElem::Pat(p), PatElem::Pat(q)) => pat_eq(p, q),
        (PatElem::Rest(n), PatElem::Rest(m)) => opt_name_eq(n, m),
        _ => false,
    }
}

fn pat_elems_eq(a: &Vec<PatElem>, b: &Vec<PatElem>) -> (r: bool)
    ensures
        r == pat_elems_same(a@, b@),
    decreases a,
{
    if a.len() != b.len() {
        return false;
    }
    let mut i: usize = 0;
    while i < a.len()
        invariant
            i <= a@.len(),
            a@.len() == b@.len(),
            forall|j: int| 0 <= j < i ==> pat_elem_same(#[trigger] a@[j], b@[j]),
        decreases a@.len() - i,
    {
        proof {
            assert(decreases_to!(*a => a[i as int]));
        }
        if !pat_elem_eq(&a[i], &b[i]) {
            return false;
        }
        i = i + 1;
    }
    true
}

fn pat_field_eq(a: &PatField, b: &PatField) -> (r: bool)
    ensures
        r == pat_field_same(*a, *b),
    decreases a,
{
    match (a, b) {
        (PatField::Field { key, pat }, PatField::Field { key: k, pat: q }) => *k == *key && pat_eq(pat, q),
        (PatField::Rest(n), PatField::Rest(m)) => opt_name_eq(n, m),
        _ => false,
    }
}

fn pat_fields_eq(a: &Vec<PatField>, b: &Vec<PatField>) -> (r: bool)
    ensures
        r == pat_fields_same(a@, b@),
    decreases a,
{
    if a.len() != b.len() {
        return false;
    }
    let mut i: usize = 0;
    while i < a.len()
        invariant
            i <= a@.len(),
            a@.len() == b@.len(),
            forall|j: int| 0 <= j < i ==> pat_field_same(#[trigger] a@[j], b@[j]),
        decreases a@.len() - i,
    {
        proof {
            assert(decreases_to!(*a => a[i as int]));
        }
        if !pat_field_eq(&a[i], &b[i]) {
            return false;
        }
        i = i + 1;
    }
    true
}

// ── Sameness is transitive ───────────────────────────────────────────────────

pub proof fn lemma_expr_same_trans(a: Expr, b: Expr, c: Expr)
    requires
        expr_same(a, b),
        expr_same(b, c),
    ensures
        expr_same(a, c),
    decreases a,
{
    match a {
        Expr::Lambda(l) => lemma_lambda_same_trans(l, b->Lambda_0, c->Lambda_0),
        Expr::Apply { callee, args } => {
            lemma_expr_same_trans(*callee, *b->Apply_callee, *c->Apply_callee);
            lemma_args_same_trans(args@, b->Apply_args@, c->Apply_args@);
        },
        Expr::PrimOp { op, args } => lemma_exprs_same_trans(args@, b->PrimOp_args@, c->PrimOp_args@),
        Expr::Match(m) => lemma_match_same_trans(m, b->Match_0, c->Match_0),
        Expr::TupleCons(es) => lemma_elements_same_trans(es@, b->TupleCons_0@, c->TupleCons_0@),
        Expr::RecordCons(fs) => lemma_fields_same_trans(fs@, b->RecordCons_0@, c->RecordCons_0@),
        Expr::Access { target, form, total } => {
            lemma_expr_same_trans(*target, *b->Access_target, *c->Access_target);
            lemma_form_same_trans(form, b->Access_form, c->Access_form);
        },
        Expr::Template(ps) => lemma_parts_same_trans(ps@, b->Template_0@, c->Template_0@),
        Expr::Write { slot, value } => lemma_expr_same_trans(*value, *b->Write_value, *c->Write_value),
        _ => {},
    }
}

proof fn lemma_opt_expr_same_trans(a: Option<Box<Expr>>, b: Option<Box<Expr>>, c: Option<Box<Expr>>)
    requires
        opt_expr_same(a, b),
        opt_expr_same(b, c),
    ensures
        opt_expr_same(a, c),
    decreases a,
{
    if let Some(x) = a {
        lemma_expr_same_trans(*x, *b->Some_0, *c->Some_0);
    }
}

proof fn lemma_guard_same_trans(a: Option<Expr>, b: Option<Expr>, c: Option<Expr>)
    requires
        guard_same(a, b),
        guard_same(b, c),
    ensures
        guard_same(a, c),
    decreases a,
{
    if let Some(x) = a {
        lemma_expr_same_trans(x, b->Some_0, c->Some_0);
    }
}

proof fn lemma_exprs_same_trans(a: Seq<Expr>, b: Seq<Expr>, c: Seq<Expr>)
    requires
        exprs_same(a, b),
        exprs_same(b, c),
    ensures
        exprs_same(a, c),
    decreases a,
{
    assert forall|i: int| 0 <= i < a.len() implies expr_same(#[trigger] a[i], c[i]) by {
        lemma_expr_same_trans(a[i], b[i], c[i]);
    }
}

pub proof fn lemma_lambda_same_trans(a: Lambda, b: Lambda, c: Lambda)
    requires
        lambda_same(a, b),
        lambda_same(b, c),
    ensures
        lambda_same(a, c),
    decreases a,
{
    lemma_pat_same_trans(a.params, b.params, c.params);
    lemma_expr_same_trans(*a.body, *b.body, *c.body);
}

proof fn lemma_args_same_trans(a: Seq<Arg>, b: Seq<Arg>, c: Seq<Arg>)
    requires
        args_same(a, b),
        args_same(b, c),
    ensures
        args_same(a, c),
    decreases a,
{
    assert forall|i: int| 0 <= i < a.len() implies arg_same(#[trigger] a[i], c[i]) by {
        match a[i] {
            Arg::Expr(x) => lemma_expr_same_trans(x, b[i]->Expr_0, c[i]->Expr_0),
            Arg::Spread(x) => lemma_expr_same_trans(x, b[i]->Spread_0, c[i]->Spread_0),
        }
    }
}

proof fn lemma_elements_same_trans(a: Seq<Element>, b: Seq<Element>, c: Seq<Element>)
    requires
        elements_same(a, b),
        elements_same(b, c),
    ensures
        elements_same(a, c),
    decreases a,
{
    assert forall|i: int| 0 <= i < a.len() implies element_same(#[trigger] a[i], c[i]) by {
        match a[i] {
            Element::Expr(x) => lemma_expr_same_trans(x, b[i]->Expr_0, c[i]->Expr_0),
            Element::Spread(x) => lemma_expr_same_trans(x, b[i]->Spread_0, c[i]->Spread_0),
        }
    }
}

proof fn lemma_fields_same_trans(a: Seq<Field>, b: Seq<Field>, c: Seq<Field>)
    requires
        fields_same(a, b),
        fields_same(b, c),
    ensures
        fields_same(a, c),
    decreases a,
{
    assert forall|i: int| 0 <= i < a.len() implies field_same(#[trigger] a[i], c[i]) by {
        match a[i] {
            Field::Field { key, value } => lemma_expr_same_trans(value, b[i]->Field_value, c[i]->Field_value),
            Field::Computed { key, value } => {
                lemma_expr_same_trans(key, b[i]->Computed_key, c[i]->Computed_key);
                lemma_expr_same_trans(value, b[i]->Computed_value, c[i]->Computed_value);
            },
            Field::Spread(x) => lemma_expr_same_trans(x, b[i]->Spread_0, c[i]->Spread_0),
        }
    }
}

proof fn lemma_form_same_trans(a: AccessForm, b: AccessForm, c: AccessForm)
    requires
        form_same(a, b),
        form_same(b, c),
    ensures
        form_same(a, c),
    decreases a,
{
    match a {
        AccessForm::Index(x) => lemma_expr_same_trans(*x, *b->Index_0, *c->Index_0),
        AccessForm::Slice { lo, hi } => {
            lemma_opt_expr_same_trans(lo, b->Slice_lo, c->Slice_lo);
            lemma_opt_expr_same_trans(hi, b->Slice_hi, c->Slice_hi);
        },
        _ => {},
    }
}

proof fn lemma_parts_same_trans(a: Seq<TemplatePart>, b: Seq<TemplatePart>, c: Seq<TemplatePart>)
    requires
        parts_same(a, b),
        parts_same(b, c),
    ensures
        parts_same(a, c),
    decreases a,
{
    assert forall|i: int| 0 <= i < a.len() implies part_same(#[trigger] a[i], c[i]) by {
        match a[i] {
            TemplatePart::Interp(x) => lemma_expr_same_trans(x, b[i]->Interp_0, c[i]->Interp_0),
            _ => {},
        }
    }
}

proof fn lemma_match_same_trans(a: Match, b: Match, c: Match)
    requires
        match_same(a, b),
        match_same(b, c),
    ensures
        match_same(a, c),
    decreases a,
{
    lemma_opt_expr_same_trans(a.scrutinee, b.scrutinee, c.scrutinee);
    lemma_items_same_trans(a.items@, b.items@, c.items@);
}

proof fn lemma_items_same_trans(a: Seq<MatchItem>, b: Seq<MatchItem>, c: Seq<MatchItem>)
    requires
        items_same(a, b),
        items_same(b, c),
    ensures
        items_same(a, c),
    decreases a,
{
    assert forall|i: int| 0 <= i < a.len() implies item_same(#[trigger] a[i], c[i]) by {
        match a[i] {
            MatchItem::Bind(x) => lemma_bind_same_trans(x, b[i]->Bind_0, c[i]->Bind_0),
            MatchItem::Stmt(x) => lemma_expr_same_trans(x, b[i]->Stmt_0, c[i]->Stmt_0),
            MatchItem::Arm(x) => {
                let (y, z) = (b[i]->Arm_0, c[i]->Arm_0);
                lemma_opt_pat_same_trans(x.pattern, y.pattern, z.pattern);
                lemma_guard_same_trans(x.guard, y.guard, z.guard);
                lemma_expr_same_trans(x.result, y.result, z.result);
            },
        }
    }
}

proof fn lemma_bind_same_trans(a: Bind, b: Bind, c: Bind)
    requires
        bind_same(a, b),
        bind_same(b, c),
    ensures
        bind_same(a, c),
    decreases a,
{
    lemma_expr_same_trans(a.value, b.value, c.value);
    if let BindTarget::Pattern(p) = a.target {
        lemma_pat_same_trans(p, b.target->Pattern_0, c.target->Pattern_0);
    }
}

proof fn lemma_opt_pat_same_trans(a: Option<Pat>, b: Option<Pat>, c: Option<Pat>)
    requires
        opt_pat_same(a, b),
        opt_pat_same(b, c),
    ensures
        opt_pat_same(a, c),
    decreases a,
{
    if let Some(x) = a {
        lemma_pat_same_trans(x, b->Some_0, c->Some_0);
    }
}

proof fn lemma_pat_same_trans(a: Pat, b: Pat, c: Pat)
    requires
        pat_same(a, b),
        pat_same(b, c),
    ensures
        pat_same(a, c),
    decreases a,
{
    match a {
        Pat::Tuple(es) => {
            let (f, g) = (b->Tuple_0@, c->Tuple_0@);
            assert forall|i: int| 0 <= i < es@.len() implies pat_elem_same(#[trigger] es@[i], g[i]) by {
                if let PatElem::Pat(p) = es@[i] {
                    lemma_pat_same_trans(p, f[i]->Pat_0, g[i]->Pat_0);
                }
            }
        },
        Pat::Record { fields, exact } => {
            let (f, g) = (b->Record_fields@, c->Record_fields@);
            assert forall|i: int| 0 <= i < fields@.len() implies pat_field_same(#[trigger] fields@[i], g[i]) by {
                if let PatField::Field { key, pat } = fields@[i] {
                    lemma_pat_same_trans(pat, f[i]->Field_pat, g[i]->Field_pat);
                }
            }
        },
        _ => {},
    }
}

// ── Sameness is symmetric ────────────────────────────────────────────────────

pub proof fn lemma_expr_same_sym(a: Expr, b: Expr)
    requires
        expr_same(a, b),
    ensures
        expr_same(b, a),
    decreases a,
{
    match a {
        Expr::Lambda(l) => lemma_lambda_same_sym(l, b->Lambda_0),
        Expr::Apply { callee, args } => {
            lemma_expr_same_sym(*callee, *b->Apply_callee);
            lemma_args_same_sym(args@, b->Apply_args@);
        },
        Expr::PrimOp { op, args } => lemma_exprs_same_sym(args@, b->PrimOp_args@),
        Expr::Match(m) => lemma_match_same_sym(m, b->Match_0),
        Expr::TupleCons(es) => lemma_elements_same_sym(es@, b->TupleCons_0@),
        Expr::RecordCons(fs) => lemma_fields_same_sym(fs@, b->RecordCons_0@),
        Expr::Access { target, form, total } => {
            lemma_expr_same_sym(*target, *b->Access_target);
            lemma_form_same_sym(form, b->Access_form);
        },
        Expr::Template(ps) => lemma_parts_same_sym(ps@, b->Template_0@),
        Expr::Write { slot, value } => lemma_expr_same_sym(*value, *b->Write_value),
        _ => {},
    }
}

proof fn lemma_opt_expr_same_sym(a: Option<Box<Expr>>, b: Option<Box<Expr>>)
    requires
        opt_expr_same(a, b),
    ensures
        opt_expr_same(b, a),
    decreases a,
{
    if let Some(x) = a {
        lemma_expr_same_sym(*x, *b->Some_0);
    }
}

proof fn lemma_guard_same_sym(a: Option<Expr>, b: Option<Expr>)
    requires
        guard_same(a, b),
    ensures
        guard_same(b, a),
    decreases a,
{
    if let Some(x) = a {
        lemma_expr_same_sym(x, b->Some_0);
    }
}

proof fn lemma_exprs_same_sym(a: Seq<Expr>, b: Seq<Expr>)
    requires
        exprs_same(a, b),
    ensures
        exprs_same(b, a),
    decreases a,
{
    assert forall|i: int| 0 <= i < a.len() implies expr_same(#[trigger] b[i], a[i]) by {
        lemma_expr_same_sym(a[i], b[i]);
    }
}

pub proof fn lemma_lambda_same_sym(a: Lambda, b: Lambda)
    requires
        lambda_same(a, b),
    ensures
        lambda_same(b, a),
    decreases a,
{
    lemma_pat_same_sym(a.params, b.params);
    lemma_expr_same_sym(*a.body, *b.body);
}

proof fn lemma_args_same_sym(a: Seq<Arg>, b: Seq<Arg>)
    requires
        args_same(a, b),
    ensures
        args_same(b, a),
    decreases a,
{
    assert forall|i: int| 0 <= i < a.len() implies arg_same(#[trigger] b[i], a[i]) by {
        match a[i] {
            Arg::Expr(x) => lemma_expr_same_sym(x, b[i]->Expr_0),
            Arg::Spread(x) => lemma_expr_same_sym(x, b[i]->Spread_0),
        }
    }
}

proof fn lemma_elements_same_sym(a: Seq<Element>, b: Seq<Element>)
    requires
        elements_same(a, b),
    ensures
        elements_same(b, a),
    decreases a,
{
    assert forall|i: int| 0 <= i < a.len() implies element_same(#[trigger] b[i], a[i]) by {
        match a[i] {
            Element::Expr(x) => lemma_expr_same_sym(x, b[i]->Expr_0),
            Element::Spread(x) => lemma_expr_same_sym(x, b[i]->Spread_0),
        }
    }
}

proof fn lemma_fields_same_sym(a: Seq<Field>, b: Seq<Field>)
    requires
        fields_same(a, b),
    ensures
        fields_same(b, a),
    decreases a,
{
    assert forall|i: int| 0 <= i < a.len() implies field_same(#[trigger] b[i], a[i]) by {
        match a[i] {
            Field::Field { key, value } => lemma_expr_same_sym(value, b[i]->Field_value),
            Field::Computed { key, value } => {
                lemma_expr_same_sym(key, b[i]->Computed_key);
                lemma_expr_same_sym(value, b[i]->Computed_value);
            },
            Field::Spread(x) => lemma_expr_same_sym(x, b[i]->Spread_0),
        }
    }
}

proof fn lemma_form_same_sym(a: AccessForm, b: AccessForm)
    requires
        form_same(a, b),
    ensures
        form_same(b, a),
    decreases a,
{
    match a {
        AccessForm::Index(x) => lemma_expr_same_sym(*x, *b->Index_0),
        AccessForm::Slice { lo, hi } => {
            lemma_opt_expr_same_sym(lo, b->Slice_lo);
            lemma_opt_expr_same_sym(hi, b->Slice_hi);
        },
        _ => {},
    }
}

proof fn lemma_parts_same_sym(a: Seq<TemplatePart>, b: Seq<TemplatePart>)
    requires
        parts_same(a, b),
    ensures
        parts_same(b, a),
    decreases a,
{
    assert forall|i: int| 0 <= i < a.len() implies part_same(#[trigger] b[i], a[i]) by {
        match a[i] {
            TemplatePart::Interp(x) => lemma_expr_same_sym(x, b[i]->Interp_0),
            _ => {},
        }
    }
}

proof fn lemma_match_same_sym(a: Match, b: Match)
    requires
        match_same(a, b),
    ensures
        match_same(b, a),
    decreases a,
{
    lemma_opt_expr_same_sym(a.scrutinee, b.scrutinee);
    lemma_items_same_sym(a.items@, b.items@);
}

proof fn lemma_items_same_sym(a: Seq<MatchItem>, b: Seq<MatchItem>)
    requires
        items_same(a, b),
    ensures
        items_same(b, a),
    decreases a,
{
    assert forall|i: int| 0 <= i < a.len() implies item_same(#[trigger] b[i], a[i]) by {
        match a[i] {
            MatchItem::Bind(x) => lemma_bind_same_sym(x, b[i]->Bind_0),
            MatchItem::Stmt(x) => lemma_expr_same_sym(x, b[i]->Stmt_0),
            MatchItem::Arm(x) => {
                let y = b[i]->Arm_0;
                lemma_opt_pat_same_sym(x.pattern, y.pattern);
                lemma_guard_same_sym(x.guard, y.guard);
                lemma_expr_same_sym(x.result, y.result);
            },
        }
    }
}

proof fn lemma_bind_same_sym(a: Bind, b: Bind)
    requires
        bind_same(a, b),
    ensures
        bind_same(b, a),
    decreases a,
{
    lemma_expr_same_sym(a.value, b.value);
    if let BindTarget::Pattern(p) = a.target {
        lemma_pat_same_sym(p, b.target->Pattern_0);
    }
}

proof fn lemma_opt_pat_same_sym(a: Option<Pat>, b: Option<Pat>)
    requires
        opt_pat_same(a, b),
    ensures
        opt_pat_same(b, a),
    decreases a,
{
    if let Some(x) = a {
        lemma_pat_same_sym(x, b->Some_0);
    }
}

proof fn lemma_pat_same_sym(a: Pat, b: Pat)
    requires
        pat_same(a, b),
    ensures
        pat_same(b, a),
    decreases a,
{
    match a {
        Pat::Tuple(es) => {
            let f = b->Tuple_0@;
            assert forall|i: int| 0 <= i < es@.len() implies pat_elem_same(#[trigger] f[i], es@[i]) by {
                if let PatElem::Pat(p) = es@[i] {
                    lemma_pat_same_sym(p, f[i]->Pat_0);
                }
            }
        },
        Pat::Record { fields, exact } => {
            let f = b->Record_fields@;
            assert forall|i: int| 0 <= i < fields@.len() implies pat_field_same(#[trigger] f[i], fields@[i]) by {
                if let PatField::Field { key, pat } = fields@[i] {
                    lemma_pat_same_sym(pat, f[i]->Field_pat);
                }
            }
        },
        _ => {},
    }
}

// ── Sameness is reflexive ────────────────────────────────────────────────────

pub proof fn lemma_expr_same_refl(a: Expr)
    ensures
        expr_same(a, a),
    decreases a,
{
    match a {
        Expr::Lambda(l) => lemma_lambda_same_refl(l),
        Expr::Apply { callee, args } => {
            lemma_expr_same_refl(*callee);
            lemma_args_same_refl(args@);
        },
        Expr::PrimOp { op, args } => lemma_exprs_same_refl(args@),
        Expr::Match(m) => lemma_match_same_refl(m),
        Expr::TupleCons(es) => lemma_elements_same_refl(es@),
        Expr::RecordCons(fs) => lemma_fields_same_refl(fs@),
        Expr::Access { target, form, total } => {
            lemma_expr_same_refl(*target);
            lemma_form_same_refl(form);
        },
        Expr::Template(ps) => lemma_parts_same_refl(ps@),
        Expr::Write { slot, value } => lemma_expr_same_refl(*value),
        _ => {},
    }
}

proof fn lemma_opt_expr_same_refl(a: Option<Box<Expr>>)
    ensures
        opt_expr_same(a, a),
    decreases a,
{
    if let Some(x) = a {
        lemma_expr_same_refl(*x);
    }
}

proof fn lemma_guard_same_refl(a: Option<Expr>)
    ensures
        guard_same(a, a),
    decreases a,
{
    if let Some(x) = a {
        lemma_expr_same_refl(x);
    }
}

proof fn lemma_exprs_same_refl(a: Seq<Expr>)
    ensures
        exprs_same(a, a),
    decreases a,
{
    assert forall|i: int| 0 <= i < a.len() implies expr_same(#[trigger] a[i], a[i]) by {
        lemma_expr_same_refl(a[i]);
    }
}

pub proof fn lemma_lambda_same_refl(a: Lambda)
    ensures
        lambda_same(a, a),
    decreases a,
{
    lemma_pat_same_refl(a.params);
    lemma_expr_same_refl(*a.body);
}

proof fn lemma_args_same_refl(a: Seq<Arg>)
    ensures
        args_same(a, a),
    decreases a,
{
    assert forall|i: int| 0 <= i < a.len() implies arg_same(#[trigger] a[i], a[i]) by {
        match a[i] {
            Arg::Expr(x) => lemma_expr_same_refl(x),
            Arg::Spread(x) => lemma_expr_same_refl(x),
        }
    }
}

proof fn lemma_elements_same_refl(a: Seq<Element>)
    ensures
        elements_same(a, a),
    decreases a,
{
    assert forall|i: int| 0 <= i < a.len() implies element_same(#[trigger] a[i], a[i]) by {
        match a[i] {
            Element::Expr(x) => lemma_expr_same_refl(x),
            Element::Spread(x) => lemma_expr_same_refl(x),
        }
    }
}

proof fn lemma_fields_same_refl(a: Seq<Field>)
    ensures
        fields_same(a, a),
    decreases a,
{
    assert forall|i: int| 0 <= i < a.len() implies field_same(#[trigger] a[i], a[i]) by {
        match a[i] {
            Field::Field { key, value } => lemma_expr_same_refl(value),
            Field::Computed { key, value } => {
                lemma_expr_same_refl(key);
                lemma_expr_same_refl(value);
            },
            Field::Spread(x) => lemma_expr_same_refl(x),
        }
    }
}

proof fn lemma_form_same_refl(a: AccessForm)
    ensures
        form_same(a, a),
    decreases a,
{
    match a {
        AccessForm::Index(x) => lemma_expr_same_refl(*x),
        AccessForm::Slice { lo, hi } => {
            lemma_opt_expr_same_refl(lo);
            lemma_opt_expr_same_refl(hi);
        },
        _ => {},
    }
}

proof fn lemma_parts_same_refl(a: Seq<TemplatePart>)
    ensures
        parts_same(a, a),
    decreases a,
{
    assert forall|i: int| 0 <= i < a.len() implies part_same(#[trigger] a[i], a[i]) by {
        match a[i] {
            TemplatePart::Interp(x) => lemma_expr_same_refl(x),
            _ => {},
        }
    }
}

proof fn lemma_match_same_refl(a: Match)
    ensures
        match_same(a, a),
    decreases a,
{
    lemma_opt_expr_same_refl(a.scrutinee);
    lemma_items_same_refl(a.items@);
}

proof fn lemma_items_same_refl(a: Seq<MatchItem>)
    ensures
        items_same(a, a),
    decreases a,
{
    assert forall|i: int| 0 <= i < a.len() implies item_same(#[trigger] a[i], a[i]) by {
        match a[i] {
            MatchItem::Bind(x) => lemma_bind_same_refl(x),
            MatchItem::Stmt(x) => lemma_expr_same_refl(x),
            MatchItem::Arm(x) => {
                let y = a[i]->Arm_0;
                lemma_opt_pat_same_refl(x.pattern);
                lemma_guard_same_refl(x.guard);
                lemma_expr_same_refl(x.result);
            },
        }
    }
}

proof fn lemma_bind_same_refl(a: Bind)
    ensures
        bind_same(a, a),
    decreases a,
{
    lemma_expr_same_refl(a.value);
    if let BindTarget::Pattern(p) = a.target {
        lemma_pat_same_refl(p);
    }
}

proof fn lemma_opt_pat_same_refl(a: Option<Pat>)
    ensures
        opt_pat_same(a, a),
    decreases a,
{
    if let Some(x) = a {
        lemma_pat_same_refl(x);
    }
}

proof fn lemma_pat_same_refl(a: Pat)
    ensures
        pat_same(a, a),
    decreases a,
{
    match a {
        Pat::Tuple(es) => {
            let f = es@;
            assert forall|i: int| 0 <= i < es@.len() implies pat_elem_same(#[trigger] es@[i], es@[i]) by {
                if let PatElem::Pat(p) = es@[i] {
                    lemma_pat_same_refl(p);
                }
            }
        },
        Pat::Record { fields, exact } => {
            let f = fields@;
            assert forall|i: int| 0 <= i < fields@.len() implies pat_field_same(#[trigger] fields@[i], fields@[i]) by {
                if let PatField::Field { key, pat } = fields@[i] {
                    lemma_pat_same_refl(pat);
                }
            }
        },
        _ => {},
    }
}

} // verus!
