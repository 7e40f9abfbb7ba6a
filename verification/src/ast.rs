//! Kernel AST — the form that exists after parsing and desugaring: what the
//! normalizer rewrites and analysis keys identity on. Surface sugar never
//! reaches here. Kernel forms carry no source spans.

use crate::rational::{same_value, value_lt};
use crate::value::ValueRef;
use vstd::prelude::*;

verus! {

/// Act-kind — a component of function shape.
#[derive(Clone, Copy, PartialEq, Eq, Debug, Structural)]
pub enum ActKind {
    Pure,
    Mutator,
    Effect,
}

/// An immutable-binding reference: a surface name, or (after
/// canonicalization) a position.
#[derive(Debug, PartialEq, Eq)]
pub enum BindingRef {
    Name(String),
    Positional(u32),
}

/// A Box (`@state`/`@mutable`) location marker.
#[derive(Clone, Copy, PartialEq, Eq, Debug)]
pub struct LocationId(pub u32);

/// A μ-marker for a self/group reference still under initialization.
#[derive(Clone, Copy, PartialEq, Eq, Debug)]
pub struct MuMarker(pub u32);

/// The three resolved reference flavors.
#[derive(Debug, PartialEq, Eq)]
pub enum Ref {
    Immutable(BindingRef),
    Location(LocationId),
    Mu(MuMarker),
}

#[derive(Debug, PartialEq, Eq)]
pub enum Expr {
    /// An interned value embedded directly.
    Const(ValueRef),
    /// A reference to a binding.
    Ref(Ref),
    /// The only function form.
    Lambda(Lambda),
    /// Application — one node for all calls.
    Apply { callee: Box<Expr>, args: Vec<Arg> },
    /// Built-in operation (no truthiness/logic/conditional op: those are `Match`).
    PrimOp { op: PrimOp, args: Vec<Expr> },
    /// The sole control node.
    Match(Match),
    /// Tuple construction.
    TupleCons(Vec<Element>),
    /// Record construction; later fields win.
    RecordCons(Vec<Field>),
    /// The one access node; `total` is the `?.` family.
    Access { target: Box<Expr>, form: AccessForm, total: bool },
    /// Interpolated template.
    Template(Vec<TemplatePart>),
    /// The mutation primitive.
    Write { slot: SlotRef, value: Box<Expr> },
}

/// A mutation target: a surface name, or a resolved location.
#[derive(Debug, PartialEq, Eq)]
pub enum SlotRef {
    Name(String),
    Location(LocationId),
}

/// The one function form: a pattern over the complete argument tuple.
#[derive(Debug, PartialEq, Eq)]
pub struct Lambda {
    pub params: Pat,
    pub body: Box<Expr>,
    pub act_kind: ActKind,
}

/// An argument in `Apply`; `...e` is `Spread`.
#[derive(Debug, PartialEq, Eq)]
pub enum Arg {
    Expr(Expr),
    Spread(Expr),
}

/// An element in `TupleCons`.
#[derive(Debug, PartialEq, Eq)]
pub enum Element {
    Expr(Expr),
    Spread(Expr),
}

/// A field in `RecordCons`.
#[derive(Debug, PartialEq, Eq)]
pub enum Field {
    Field { key: String, value: Expr },
    Computed { key: Expr, value: Expr },
    Spread(Expr),
}

/// Built-in operations. String concatenation is `Add` over two strings.
#[derive(Clone, Copy, PartialEq, Eq, Debug, Structural)]
pub enum PrimOp {
    Add,
    Sub,
    Mul,
    Div,
    Rem,
    Pow,
    Neg,
    Lt,
    Le,
    Gt,
    Ge,
    Eq,
    Ne,
}

/// What a kernel comparison primitive says of two numbers `p` and `q`.
pub open spec fn prim_compares(op: PrimOp, p: (int, int), q: (int, int)) -> Option<bool> {
    match op {
        PrimOp::Eq => Some(same_value(p, q)),
        PrimOp::Ne => Some(!same_value(p, q)),
        PrimOp::Lt => Some(value_lt(p, q)),
        PrimOp::Le => Some(!value_lt(q, p)),
        PrimOp::Gt => Some(value_lt(q, p)),
        PrimOp::Ge => Some(!value_lt(p, q)),
        _ => None,
    }
}

/// The number a kernel arithmetic primitive computes from `p` and `q`, as a
/// fraction: the quotient and the remainder (its sign following the dividend)
/// only for a nonzero divisor, a power only for a whole exponent `>= 0`.
pub open spec fn prim_computes(op: PrimOp, p: (int, int), q: (int, int)) -> Option<(int, int)> {
    match op {
        PrimOp::Add => Some((p.0 * q.1 + q.0 * p.1, p.1 * q.1)),
        PrimOp::Sub => Some((p.0 * q.1 - q.0 * p.1, p.1 * q.1)),
        PrimOp::Mul => Some((p.0 * q.0, p.1 * q.1)),
        PrimOp::Div => if q.0 != 0 {
            Some((p.0 * q.1, p.1 * q.0))
        } else {
            None
        },
        PrimOp::Rem => if q.0 != 0 {
            Some(crate::rational::frac_rem(p, q))
        } else {
            None
        },
        PrimOp::Pow => if q.1 > 0 && q.0 >= 0 && q.0 % q.1 == 0 {
            Some(crate::contract::frac_pow(p, (q.0 / q.1) as nat))
        } else {
            None
        },
        _ => None,
    }
}

/// Access target shape.
#[derive(Debug, PartialEq, Eq)]
pub enum AccessForm {
    Field(String),
    Index(Box<Expr>),
    /// Half-open window; always clamped.
    Slice { lo: Option<Box<Expr>>, hi: Option<Box<Expr>> },
}

/// A template part: a literal segment or an interpolation.
#[derive(Debug, PartialEq, Eq)]
pub enum TemplatePart {
    Segment(String),
    Interp(Expr),
}

/// The sole control node. Items run in order; an arm that matches exits.
#[derive(Debug, PartialEq, Eq)]
pub struct Match {
    pub scrutinee: Option<Box<Expr>>,
    pub items: Vec<MatchItem>,
}

#[derive(Debug, PartialEq, Eq)]
pub enum MatchItem {
    Bind(Bind),
    Stmt(Expr),
    Arm(Arm),
}

/// `Arm(pattern?, guard?, result)`.
#[derive(Debug, PartialEq, Eq)]
pub struct Arm {
    pub pattern: Option<Pat>,
    pub guard: Option<Expr>,
    pub result: Expr,
}

/// Patterns. Pins and alternation do not exist in the kernel.
#[derive(Debug, PartialEq, Eq)]
pub enum Pat {
    Const(ValueRef),
    Bind(String),
    Wild,
    Tuple(Vec<PatElem>),
    Record { fields: Vec<PatField>, exact: bool },
    Contract(Ref),
}

/// A tuple-pattern element: a sub-pattern or a rest.
#[derive(Debug, PartialEq, Eq)]
pub enum PatElem {
    Pat(Pat),
    Rest(Option<String>),
}

/// A record-pattern field: a key bound to a sub-pattern, or a rest.
#[derive(Debug, PartialEq, Eq)]
pub enum PatField {
    Field { key: String, pat: Pat },
    Rest(Option<String>),
}

/// A module: its name (when it exports) and its items.
#[derive(Debug, PartialEq, Eq)]
pub struct Module {
    pub name: Option<String>,
    pub items: Vec<Item>,
}

#[derive(Debug, PartialEq, Eq)]
pub enum Item {
    Bind(Bind),
    SlotDecl(SlotDecl),
    ActBind(ActBind),
    Import(Import),
    Where(Where),
    Stmt(Expr),
}

/// `Bind(target, Expr, exported?)`.
#[derive(Debug, PartialEq, Eq)]
pub struct Bind {
    pub target: BindTarget,
    pub value: Expr,
    pub exported: bool,
}

#[derive(Debug, PartialEq, Eq)]
pub enum BindTarget {
    Name(String),
    Pattern(Pat),
}

/// Declares a Box location (`reactive` for `@state`).
#[derive(Debug, PartialEq, Eq)]
pub struct SlotDecl {
    pub reactive: bool,
    pub name: String,
    pub init: Expr,
    pub exported: bool,
}

/// Binds a mutator or effect declaration.
#[derive(Debug, PartialEq, Eq)]
pub struct ActBind {
    pub kind: ActKind,
    pub name: String,
    pub lambda: Lambda,
    pub exported: bool,
}

/// Binds imported names (`names = None` aliases the whole namespace).
#[derive(Debug, PartialEq, Eq)]
pub struct Import {
    pub names: Option<Vec<String>>,
    pub module: String,
}

/// The name-level signature assertion.
#[derive(Debug, PartialEq, Eq)]
pub struct Where {
    pub name: String,
    pub input_contract: Expr,
    pub return_contract: Expr,
}


/// Structural equality of expressions: leaves equal, vectors compared element
/// by element.
pub open spec fn expr_deq(a: Expr, b: Expr) -> bool
    decreases a,
{
    match a {
        Expr::Const(v) => b == Expr::Const(v),
        Expr::Ref(r) => b == Expr::Ref(r),
        Expr::Lambda(l) => (b matches Expr::Lambda(m) && lambda_deq(l, m)),
        Expr::Apply { callee, args } => (b matches Expr::Apply { callee: c, args: bs } && expr_deq(*callee, *c)
            && args_deq(args@, bs@)),
        Expr::PrimOp { op, args } => (b matches Expr::PrimOp { op: o, args: bs } && o == op && exprs_deq(args@, bs@)),
        Expr::Match(m) => (b matches Expr::Match(n) && match_deq(m, n)),
        Expr::TupleCons(es) => (b matches Expr::TupleCons(fs) && elements_deq(es@, fs@)),
        Expr::RecordCons(es) => (b matches Expr::RecordCons(fs) && fields_deq(es@, fs@)),
        Expr::Access { target, form, total } => (b matches Expr::Access { target: t, form: f, total: u }
            && u == total && expr_deq(*target, *t) && access_form_deq(form, f)),
        Expr::Template(ps) => (b matches Expr::Template(qs) && template_deq(ps@, qs@)),
        Expr::Write { slot, value } => (b matches Expr::Write { slot: s, value: v } && s == slot
            && expr_deq(*value, *v)),
    }
}

/// Structural equality of optional boxed expressions.
pub open spec fn opt_expr_deq(a: Option<Box<Expr>>, b: Option<Box<Expr>>) -> bool
    decreases a,
{
    match a {
        Some(x) => (b matches Some(y) && expr_deq(*x, *y)),
        None => b is None,
    }
}

/// Structural equality of optional expressions.
pub open spec fn guard_deq(a: Option<Expr>, b: Option<Expr>) -> bool
    decreases a,
{
    match a {
        Some(x) => (b matches Some(y) && expr_deq(x, y)),
        None => b is None,
    }
}

pub open spec fn exprs_deq(a: Seq<Expr>, b: Seq<Expr>) -> bool
    decreases a,
{
    a.len() == b.len() && forall|i: int| 0 <= i < a.len() ==> expr_deq(#[trigger] a[i], b[i])
}

pub open spec fn lambda_deq(a: Lambda, b: Lambda) -> bool
    decreases a,
{
    a.act_kind == b.act_kind && pat_deq(a.params, b.params) && expr_deq(*a.body, *b.body)
}

pub open spec fn arg_deq(a: Arg, b: Arg) -> bool
    decreases a,
{
    match a {
        Arg::Expr(x) => (b matches Arg::Expr(y) && expr_deq(x, y)),
        Arg::Spread(x) => (b matches Arg::Spread(y) && expr_deq(x, y)),
    }
}

pub open spec fn args_deq(a: Seq<Arg>, b: Seq<Arg>) -> bool
    decreases a,
{
    a.len() == b.len() && forall|i: int| 0 <= i < a.len() ==> arg_deq(#[trigger] a[i], b[i])
}

pub open spec fn element_deq(a: Element, b: Element) -> bool
    decreases a,
{
    match a {
        Element::Expr(x) => (b matches Element::Expr(y) && expr_deq(x, y)),
        Element::Spread(x) => (b matches Element::Spread(y) && expr_deq(x, y)),
    }
}

pub open spec fn elements_deq(a: Seq<Element>, b: Seq<Element>) -> bool
    decreases a,
{
    a.len() == b.len() && forall|i: int| 0 <= i < a.len() ==> element_deq(#[trigger] a[i], b[i])
}

pub open spec fn field_deq(a: Field, b: Field) -> bool
    decreases a,
{
    match a {
        Field::Field { key, value } => (b matches Field::Field { key: k, value: v } && k == key
            && expr_deq(value, v)),
        Field::Computed { key, value } => (b matches Field::Computed { key: k, value: v } && expr_deq(key, k)
            && expr_deq(value, v)),
        Field::Spread(x) => (b matches Field::Spread(y) && expr_deq(x, y)),
    }
}

pub open spec fn fields_deq(a: Seq<Field>, b: Seq<Field>) -> bool
    decreases a,
{
    a.len() == b.len() && forall|i: int| 0 <= i < a.len() ==> field_deq(#[trigger] a[i], b[i])
}

pub open spec fn access_form_deq(a: AccessForm, b: AccessForm) -> bool
    decreases a,
{
    match a {
        AccessForm::Field(n) => b == AccessForm::Field(n),
        AccessForm::Index(x) => (b matches AccessForm::Index(y) && expr_deq(*x, *y)),
        AccessForm::Slice { lo, hi } => (b matches AccessForm::Slice { lo: l, hi: h } && opt_expr_deq(lo, l)
            && opt_expr_deq(hi, h)),
    }
}

pub open spec fn template_part_deq(a: TemplatePart, b: TemplatePart) -> bool
    decreases a,
{
    match a {
        TemplatePart::Segment(s) => b == TemplatePart::Segment(s),
        TemplatePart::Interp(x) => (b matches TemplatePart::Interp(y) && expr_deq(x, y)),
    }
}

pub open spec fn template_deq(a: Seq<TemplatePart>, b: Seq<TemplatePart>) -> bool
    decreases a,
{
    a.len() == b.len() && forall|i: int| 0 <= i < a.len() ==> template_part_deq(#[trigger] a[i], b[i])
}

pub open spec fn match_deq(a: Match, b: Match) -> bool
    decreases a,
{
    opt_expr_deq(a.scrutinee, b.scrutinee) && match_items_deq(a.items@, b.items@)
}

pub open spec fn match_item_deq(a: MatchItem, b: MatchItem) -> bool
    decreases a,
{
    match a {
        MatchItem::Bind(x) => (b matches MatchItem::Bind(y) && bind_deq(x, y)),
        MatchItem::Stmt(x) => (b matches MatchItem::Stmt(y) && expr_deq(x, y)),
        MatchItem::Arm(x) => (b matches MatchItem::Arm(y) && arm_deq(x, y)),
    }
}

pub open spec fn match_items_deq(a: Seq<MatchItem>, b: Seq<MatchItem>) -> bool
    decreases a,
{
    a.len() == b.len() && forall|i: int| 0 <= i < a.len() ==> match_item_deq(#[trigger] a[i], b[i])
}

pub open spec fn arm_deq(a: Arm, b: Arm) -> bool
    decreases a,
{
    opt_pat_deq(a.pattern, b.pattern) && guard_deq(a.guard, b.guard) && expr_deq(a.result, b.result)
}

pub open spec fn bind_deq(a: Bind, b: Bind) -> bool
    decreases a,
{
    a.exported == b.exported && expr_deq(a.value, b.value) && match a.target {
        BindTarget::Name(n) => b.target == BindTarget::Name(n),
        BindTarget::Pattern(p) => (b.target matches BindTarget::Pattern(q) && pat_deq(p, q)),
    }
}

pub open spec fn opt_pat_deq(a: Option<Pat>, b: Option<Pat>) -> bool
    decreases a,
{
    match a {
        Some(x) => (b matches Some(y) && pat_deq(x, y)),
        None => b is None,
    }
}

pub open spec fn pat_deq(a: Pat, b: Pat) -> bool
    decreases a,
{
    match a {
        Pat::Tuple(es) => (b matches Pat::Tuple(fs) && pat_elems_deq(es@, fs@)),
        Pat::Record { fields, exact } => (b matches Pat::Record { fields: fs, exact: x } && x == exact
            && pat_fields_deq(fields@, fs@)),
        _ => b == a,
    }
}

pub open spec fn pat_elem_deq(a: PatElem, b: PatElem) -> bool
    decreases a,
{
    match a {
        PatElem::Pat(p) => (b matches PatElem::Pat(q) && pat_deq(p, q)),
        PatElem::Rest(n) => b == PatElem::Rest(n),
    }
}

pub open spec fn pat_elems_deq(a: Seq<PatElem>, b: Seq<PatElem>) -> bool
    decreases a,
{
    a.len() == b.len() && forall|i: int| 0 <= i < a.len() ==> pat_elem_deq(#[trigger] a[i], b[i])
}

pub open spec fn pat_field_deq(a: PatField, b: PatField) -> bool
    decreases a,
{
    match a {
        PatField::Field { key, pat } => (b matches PatField::Field { key: k, pat: q } && k == key && pat_deq(pat, q)),
        PatField::Rest(n) => b == PatField::Rest(n),
    }
}

pub open spec fn pat_fields_deq(a: Seq<PatField>, b: Seq<PatField>) -> bool
    decreases a,
{
    a.len() == b.len() && forall|i: int| 0 <= i < a.len() ==> pat_field_deq(#[trigger] a[i], b[i])
}


// ── Structural equality is transitive ───────────────────────────────────────

pub proof fn lemma_expr_deq_trans(a: Expr, b: Expr, c: Expr)
    requires
        expr_deq(a, b),
        expr_deq(b, c),
    ensures
        expr_deq(a, c),
    decreases a,
{
    match a {
        Expr::Lambda(l) => lemma_lambda_deq_trans(l, b->Lambda_0, c->Lambda_0),
        Expr::Apply { callee, args } => {
            lemma_expr_deq_trans(*callee, *b->Apply_callee, *c->Apply_callee);
            lemma_args_deq_trans(args@, b->Apply_args@, c->Apply_args@);
        },
        Expr::PrimOp { op, args } => lemma_exprs_deq_trans(args@, b->PrimOp_args@, c->PrimOp_args@),
        Expr::Match(m) => lemma_match_deq_trans(m, b->Match_0, c->Match_0),
        Expr::TupleCons(es) => lemma_elements_deq_trans(es@, b->TupleCons_0@, c->TupleCons_0@),
        Expr::RecordCons(fs) => lemma_fields_deq_trans(fs@, b->RecordCons_0@, c->RecordCons_0@),
        Expr::Access { target, form, total } => {
            lemma_expr_deq_trans(*target, *b->Access_target, *c->Access_target);
            lemma_access_form_deq_trans(form, b->Access_form, c->Access_form);
        },
        Expr::Template(ps) => lemma_template_deq_trans(ps@, b->Template_0@, c->Template_0@),
        Expr::Write { slot, value } => lemma_expr_deq_trans(*value, *b->Write_value, *c->Write_value),
        _ => {},
    }
}

proof fn lemma_opt_expr_deq_trans(a: Option<Box<Expr>>, b: Option<Box<Expr>>, c: Option<Box<Expr>>)
    requires
        opt_expr_deq(a, b),
        opt_expr_deq(b, c),
    ensures
        opt_expr_deq(a, c),
    decreases a,
{
    if let Some(x) = a {
        lemma_expr_deq_trans(*x, *b->Some_0, *c->Some_0);
    }
}

proof fn lemma_guard_deq_trans(a: Option<Expr>, b: Option<Expr>, c: Option<Expr>)
    requires
        guard_deq(a, b),
        guard_deq(b, c),
    ensures
        guard_deq(a, c),
    decreases a,
{
    if let Some(x) = a {
        lemma_expr_deq_trans(x, b->Some_0, c->Some_0);
    }
}

proof fn lemma_exprs_deq_trans(a: Seq<Expr>, b: Seq<Expr>, c: Seq<Expr>)
    requires
        exprs_deq(a, b),
        exprs_deq(b, c),
    ensures
        exprs_deq(a, c),
    decreases a,
{
    assert forall|i: int| 0 <= i < a.len() implies expr_deq(#[trigger] a[i], c[i]) by {
        lemma_expr_deq_trans(a[i], b[i], c[i]);
    }
}

proof fn lemma_lambda_deq_trans(a: Lambda, b: Lambda, c: Lambda)
    requires
        lambda_deq(a, b),
        lambda_deq(b, c),
    ensures
        lambda_deq(a, c),
    decreases a,
{
    lemma_pat_deq_trans(a.params, b.params, c.params);
    lemma_expr_deq_trans(*a.body, *b.body, *c.body);
}

proof fn lemma_args_deq_trans(a: Seq<Arg>, b: Seq<Arg>, c: Seq<Arg>)
    requires
        args_deq(a, b),
        args_deq(b, c),
    ensures
        args_deq(a, c),
    decreases a,
{
    assert forall|i: int| 0 <= i < a.len() implies arg_deq(#[trigger] a[i], c[i]) by {
        match a[i] {
            Arg::Expr(x) => lemma_expr_deq_trans(x, b[i]->Expr_0, c[i]->Expr_0),
            Arg::Spread(x) => lemma_expr_deq_trans(x, b[i]->Spread_0, c[i]->Spread_0),
        }
    }
}

proof fn lemma_elements_deq_trans(a: Seq<Element>, b: Seq<Element>, c: Seq<Element>)
    requires
        elements_deq(a, b),
        elements_deq(b, c),
    ensures
        elements_deq(a, c),
    decreases a,
{
    assert forall|i: int| 0 <= i < a.len() implies element_deq(#[trigger] a[i], c[i]) by {
        match a[i] {
            Element::Expr(x) => lemma_expr_deq_trans(x, b[i]->Expr_0, c[i]->Expr_0),
            Element::Spread(x) => lemma_expr_deq_trans(x, b[i]->Spread_0, c[i]->Spread_0),
        }
    }
}

proof fn lemma_fields_deq_trans(a: Seq<Field>, b: Seq<Field>, c: Seq<Field>)
    requires
        fields_deq(a, b),
        fields_deq(b, c),
    ensures
        fields_deq(a, c),
    decreases a,
{
    assert forall|i: int| 0 <= i < a.len() implies field_deq(#[trigger] a[i], c[i]) by {
        match a[i] {
            Field::Field { key, value } => lemma_expr_deq_trans(value, b[i]->Field_value, c[i]->Field_value),
            Field::Computed { key, value } => {
                lemma_expr_deq_trans(key, b[i]->Computed_key, c[i]->Computed_key);
                lemma_expr_deq_trans(value, b[i]->Computed_value, c[i]->Computed_value);
            },
            Field::Spread(x) => lemma_expr_deq_trans(x, b[i]->Spread_0, c[i]->Spread_0),
        }
    }
}

proof fn lemma_access_form_deq_trans(a: AccessForm, b: AccessForm, c: AccessForm)
    requires
        access_form_deq(a, b),
        access_form_deq(b, c),
    ensures
        access_form_deq(a, c),
    decreases a,
{
    match a {
        AccessForm::Index(x) => lemma_expr_deq_trans(*x, *b->Index_0, *c->Index_0),
        AccessForm::Slice { lo, hi } => {
            lemma_opt_expr_deq_trans(lo, b->Slice_lo, c->Slice_lo);
            lemma_opt_expr_deq_trans(hi, b->Slice_hi, c->Slice_hi);
        },
        _ => {},
    }
}

proof fn lemma_template_deq_trans(a: Seq<TemplatePart>, b: Seq<TemplatePart>, c: Seq<TemplatePart>)
    requires
        template_deq(a, b),
        template_deq(b, c),
    ensures
        template_deq(a, c),
    decreases a,
{
    assert forall|i: int| 0 <= i < a.len() implies template_part_deq(#[trigger] a[i], c[i]) by {
        match a[i] {
            TemplatePart::Interp(x) => lemma_expr_deq_trans(x, b[i]->Interp_0, c[i]->Interp_0),
            _ => {},
        }
    }
}

proof fn lemma_match_deq_trans(a: Match, b: Match, c: Match)
    requires
        match_deq(a, b),
        match_deq(b, c),
    ensures
        match_deq(a, c),
    decreases a,
{
    lemma_opt_expr_deq_trans(a.scrutinee, b.scrutinee, c.scrutinee);
    lemma_match_items_deq_trans(a.items@, b.items@, c.items@);
}

proof fn lemma_match_items_deq_trans(a: Seq<MatchItem>, b: Seq<MatchItem>, c: Seq<MatchItem>)
    requires
        match_items_deq(a, b),
        match_items_deq(b, c),
    ensures
        match_items_deq(a, c),
    decreases a,
{
    assert forall|i: int| 0 <= i < a.len() implies match_item_deq(#[trigger] a[i], c[i]) by {
        match a[i] {
            MatchItem::Bind(x) => lemma_bind_deq_trans(x, b[i]->Bind_0, c[i]->Bind_0),
            MatchItem::Stmt(x) => lemma_expr_deq_trans(x, b[i]->Stmt_0, c[i]->Stmt_0),
            MatchItem::Arm(x) => {
                let (y, z) = (b[i]->Arm_0, c[i]->Arm_0);
                lemma_opt_pat_deq_trans(x.pattern, y.pattern, z.pattern);
                lemma_guard_deq_trans(x.guard, y.guard, z.guard);
                lemma_expr_deq_trans(x.result, y.result, z.result);
            },
        }
    }
}

proof fn lemma_bind_deq_trans(a: Bind, b: Bind, c: Bind)
    requires
        bind_deq(a, b),
        bind_deq(b, c),
    ensures
        bind_deq(a, c),
    decreases a,
{
    lemma_expr_deq_trans(a.value, b.value, c.value);
    if let BindTarget::Pattern(p) = a.target {
        lemma_pat_deq_trans(p, b.target->Pattern_0, c.target->Pattern_0);
    }
}

proof fn lemma_opt_pat_deq_trans(a: Option<Pat>, b: Option<Pat>, c: Option<Pat>)
    requires
        opt_pat_deq(a, b),
        opt_pat_deq(b, c),
    ensures
        opt_pat_deq(a, c),
    decreases a,
{
    if let Some(x) = a {
        lemma_pat_deq_trans(x, b->Some_0, c->Some_0);
    }
}

proof fn lemma_pat_deq_trans(a: Pat, b: Pat, c: Pat)
    requires
        pat_deq(a, b),
        pat_deq(b, c),
    ensures
        pat_deq(a, c),
    decreases a,
{
    match a {
        Pat::Tuple(es) => {
            let (f, g) = (b->Tuple_0@, c->Tuple_0@);
            assert forall|i: int| 0 <= i < es@.len() implies pat_elem_deq(#[trigger] es@[i], g[i]) by {
                if let PatElem::Pat(p) = es@[i] {
                    lemma_pat_deq_trans(p, f[i]->Pat_0, g[i]->Pat_0);
                }
            }
        },
        Pat::Record { fields, exact } => {
            let (f, g) = (b->Record_fields@, c->Record_fields@);
            assert forall|i: int| 0 <= i < fields@.len() implies pat_field_deq(#[trigger] fields@[i], g[i]) by {
                if let PatField::Field { key, pat } = fields@[i] {
                    lemma_pat_deq_trans(pat, f[i]->Field_pat, g[i]->Field_pat);
                }
            }
        },
        _ => {},
    }
}

/// A copy of a string.
fn copy_string(s: &String) -> (r: String)
    ensures
        r == *s,
{
    s.clone()
}

/// A copy of a binding reference.
pub fn clone_binding_ref(b: &BindingRef) -> (r: BindingRef)
    ensures
        r == *b,
{
    match b {
        BindingRef::Name(n) => BindingRef::Name(copy_string(n)),
        BindingRef::Positional(k) => BindingRef::Positional(*k),
    }
}

/// A copy of a reference.
pub fn clone_ref(r0: &Ref) -> (r: Ref)
    ensures
        r == *r0,
{
    match r0 {
        Ref::Immutable(b) => Ref::Immutable(clone_binding_ref(b)),
        Ref::Location(l) => Ref::Location(*l),
        Ref::Mu(m) => Ref::Mu(*m),
    }
}

/// A copy of a slot reference.
pub fn clone_slot(s: &SlotRef) -> (r: SlotRef)
    ensures
        r == *s,
{
    match s {
        SlotRef::Name(n) => SlotRef::Name(copy_string(n)),
        SlotRef::Location(l) => SlotRef::Location(*l),
    }
}

/// A copy of an optional name.
pub fn clone_opt_name(n: &Option<String>) -> (r: Option<String>)
    ensures
        r == *n,
{
    match n {
        Some(s) => Some(copy_string(s)),
        None => None,
    }
}

/// A copy of an expression.
pub fn clone_expr(e: &Expr) -> (r: Expr)
    ensures
        expr_deq(*e, r),
    decreases e,
{
    match e {
        Expr::Const(v) => Expr::Const(v.clone()),
        Expr::Ref(r0) => Expr::Ref(clone_ref(r0)),
        Expr::Lambda(l) => Expr::Lambda(clone_lambda(l)),
        Expr::Apply { callee, args } => {
            let c = clone_expr(callee);
            let out = clone_args(args);
            Expr::Apply { callee: Box::new(c), args: out }
        },
        Expr::PrimOp { op, args } => Expr::PrimOp { op: *op, args: clone_exprs(args) },
        Expr::Match(m) => Expr::Match(clone_match(m)),
        Expr::TupleCons(elems) => Expr::TupleCons(clone_elements(elems)),
        Expr::RecordCons(fields) => Expr::RecordCons(clone_fields(fields)),
        Expr::Access { target, form, total } => Expr::Access {
            target: Box::new(clone_expr(target)),
            form: clone_access_form(form),
            total: *total,
        },
        Expr::Template(parts) => Expr::Template(clone_template(parts)),
        Expr::Write { slot, value } => Expr::Write {
            slot: clone_slot(slot),
            value: Box::new(clone_expr(value)),
        },
    }
}

/// A copy of an optional expression.
pub fn clone_guard(g: &Option<Expr>) -> (r: Option<Expr>)
    ensures
        guard_deq(*g, r),
    decreases g,
{
    match g {
        Some(x) => Some(clone_expr(x)),
        None => None,
    }
}

/// A copy of an optional boxed expression.
pub fn clone_opt_expr(g: &Option<Box<Expr>>) -> (r: Option<Box<Expr>>)
    ensures
        opt_expr_deq(*g, r),
    decreases g,
{
    match g {
        Some(x) => Some(Box::new(clone_expr(x))),
        None => None,
    }
}

/// A copy of a list of expressions.
pub fn clone_exprs(v: &Vec<Expr>) -> (r: Vec<Expr>)
    ensures
        exprs_deq(v@, r@),
    decreases v,
{
    let mut out: Vec<Expr> = Vec::new();
    let mut i: usize = 0;
    while i < v.len()
        invariant
            i <= v@.len(),
            out@.len() == i,
            forall|j: int| 0 <= j < i ==> expr_deq(#[trigger] v@[j], out@[j]),
        decreases v@.len() - i,
    {
        proof {
            assert(decreases_to!(*v => v[i as int]));
        }
        out.push(clone_expr(&v[i]));
        i = i + 1;
    }
    out
}

/// A copy of a list of arguments.
pub fn clone_args(v: &Vec<Arg>) -> (r: Vec<Arg>)
    ensures
        args_deq(v@, r@),
    decreases v,
{
    let mut out: Vec<Arg> = Vec::new();
    let mut i: usize = 0;
    while i < v.len()
        invariant
            i <= v@.len(),
            out@.len() == i,
            forall|j: int| 0 <= j < i ==> arg_deq(#[trigger] v@[j], out@[j]),
        decreases v@.len() - i,
    {
        proof {
            assert(decreases_to!(*v => v[i as int]));
        }
        out.push(clone_arg(&v[i]));
        i = i + 1;
    }
    out
}

/// A copy of a list of tuple elements.
pub fn clone_elements(v: &Vec<Element>) -> (r: Vec<Element>)
    ensures
        elements_deq(v@, r@),
    decreases v,
{
    let mut out: Vec<Element> = Vec::new();
    let mut i: usize = 0;
    while i < v.len()
        invariant
            i <= v@.len(),
            out@.len() == i,
            forall|j: int| 0 <= j < i ==> element_deq(#[trigger] v@[j], out@[j]),
        decreases v@.len() - i,
    {
        proof {
            assert(decreases_to!(*v => v[i as int]));
        }
        out.push(clone_element(&v[i]));
        i = i + 1;
    }
    out
}

/// A copy of a list of record fields.
pub fn clone_fields(v: &Vec<Field>) -> (r: Vec<Field>)
    ensures
        fields_deq(v@, r@),
    decreases v,
{
    let mut out: Vec<Field> = Vec::new();
    let mut i: usize = 0;
    while i < v.len()
        invariant
            i <= v@.len(),
            out@.len() == i,
            forall|j: int| 0 <= j < i ==> field_deq(#[trigger] v@[j], out@[j]),
        decreases v@.len() - i,
    {
        proof {
            assert(decreases_to!(*v => v[i as int]));
        }
        out.push(clone_field(&v[i]));
        i = i + 1;
    }
    out
}

/// A copy of a template.
pub fn clone_template(v: &Vec<TemplatePart>) -> (r: Vec<TemplatePart>)
    ensures
        template_deq(v@, r@),
    decreases v,
{
    let mut out: Vec<TemplatePart> = Vec::new();
    let mut i: usize = 0;
    while i < v.len()
        invariant
            i <= v@.len(),
            out@.len() == i,
            forall|j: int| 0 <= j < i ==> template_part_deq(#[trigger] v@[j], out@[j]),
        decreases v@.len() - i,
    {
        proof {
            assert(decreases_to!(*v => v[i as int]));
        }
        out.push(clone_template_part(&v[i]));
        i = i + 1;
    }
    out
}

/// A copy of a list of match items.
pub fn clone_match_items(v: &Vec<MatchItem>) -> (r: Vec<MatchItem>)
    ensures
        match_items_deq(v@, r@),
    decreases v,
{
    let mut out: Vec<MatchItem> = Vec::new();
    let mut i: usize = 0;
    while i < v.len()
        invariant
            i <= v@.len(),
            out@.len() == i,
            forall|j: int| 0 <= j < i ==> match_item_deq(#[trigger] v@[j], out@[j]),
        decreases v@.len() - i,
    {
        proof {
            assert(decreases_to!(*v => v[i as int]));
        }
        out.push(clone_match_item(&v[i]));
        i = i + 1;
    }
    out
}

/// A copy of a list of tuple-pattern elements.
pub fn clone_pat_elems(v: &Vec<PatElem>) -> (r: Vec<PatElem>)
    ensures
        pat_elems_deq(v@, r@),
    decreases v,
{
    let mut out: Vec<PatElem> = Vec::new();
    let mut i: usize = 0;
    while i < v.len()
        invariant
            i <= v@.len(),
            out@.len() == i,
            forall|j: int| 0 <= j < i ==> pat_elem_deq(#[trigger] v@[j], out@[j]),
        decreases v@.len() - i,
    {
        proof {
            assert(decreases_to!(*v => v[i as int]));
        }
        out.push(clone_pat_elem(&v[i]));
        i = i + 1;
    }
    out
}

/// A copy of a list of record-pattern fields.
pub fn clone_pat_fields(v: &Vec<PatField>) -> (r: Vec<PatField>)
    ensures
        pat_fields_deq(v@, r@),
    decreases v,
{
    let mut out: Vec<PatField> = Vec::new();
    let mut i: usize = 0;
    while i < v.len()
        invariant
            i <= v@.len(),
            out@.len() == i,
            forall|j: int| 0 <= j < i ==> pat_field_deq(#[trigger] v@[j], out@[j]),
        decreases v@.len() - i,
    {
        proof {
            assert(decreases_to!(*v => v[i as int]));
        }
        out.push(clone_pat_field(&v[i]));
        i = i + 1;
    }
    out
}

/// A copy of a lambda.
pub fn clone_lambda(l: &Lambda) -> (r: Lambda)
    ensures
        lambda_deq(*l, r),
    decreases l,
{
    Lambda { params: clone_pat(&l.params), body: Box::new(clone_expr(&l.body)), act_kind: l.act_kind }
}

/// A copy of an argument.
pub fn clone_arg(a: &Arg) -> (r: Arg)
    ensures
        arg_deq(*a, r),
    decreases a,
{
    match a {
        Arg::Expr(e) => Arg::Expr(clone_expr(e)),
        Arg::Spread(e) => Arg::Spread(clone_expr(e)),
    }
}

/// A copy of a tuple element.
pub fn clone_element(el: &Element) -> (r: Element)
    ensures
        element_deq(*el, r),
    decreases el,
{
    match el {
        Element::Expr(e) => Element::Expr(clone_expr(e)),
        Element::Spread(e) => Element::Spread(clone_expr(e)),
    }
}

/// A copy of a record field.
pub fn clone_field(f: &Field) -> (r: Field)
    ensures
        field_deq(*f, r),
    decreases f,
{
    match f {
        Field::Field { key, value } => Field::Field { key: copy_string(key), value: clone_expr(value) },
        Field::Computed { key, value } => Field::Computed { key: clone_expr(key), value: clone_expr(value) },
        Field::Spread(e) => Field::Spread(clone_expr(e)),
    }
}

/// A copy of an access form.
pub fn clone_access_form(f: &AccessForm) -> (r: AccessForm)
    ensures
        access_form_deq(*f, r),
    decreases f,
{
    match f {
        AccessForm::Field(n) => AccessForm::Field(copy_string(n)),
        AccessForm::Index(e) => AccessForm::Index(Box::new(clone_expr(e))),
        AccessForm::Slice { lo, hi } => AccessForm::Slice { lo: clone_opt_expr(lo), hi: clone_opt_expr(hi) },
    }
}

/// A copy of a template part.
pub fn clone_template_part(p: &TemplatePart) -> (r: TemplatePart)
    ensures
        template_part_deq(*p, r),
    decreases p,
{
    match p {
        TemplatePart::Segment(s) => TemplatePart::Segment(copy_string(s)),
        TemplatePart::Interp(e) => TemplatePart::Interp(clone_expr(e)),
    }
}

/// A copy of a match.
pub fn clone_match(m: &Match) -> (r: Match)
    ensures
        match_deq(*m, r),
    decreases m,
{
    Match { scrutinee: clone_opt_expr(&m.scrutinee), items: clone_match_items(&m.items) }
}

/// A copy of a match item.
pub fn clone_match_item(i0: &MatchItem) -> (r: MatchItem)
    ensures
        match_item_deq(*i0, r),
    decreases i0,
{
    match i0 {
        MatchItem::Bind(b) => MatchItem::Bind(clone_bind(b)),
        MatchItem::Stmt(e) => MatchItem::Stmt(clone_expr(e)),
        MatchItem::Arm(a) => MatchItem::Arm(clone_arm(a)),
    }
}

/// A copy of an optional pattern.
pub fn clone_opt_pat(p: &Option<Pat>) -> (r: Option<Pat>)
    ensures
        opt_pat_deq(*p, r),
    decreases p,
{
    match p {
        Some(x) => Some(clone_pat(x)),
        None => None,
    }
}

/// A copy of an arm.
pub fn clone_arm(a: &Arm) -> (r: Arm)
    ensures
        arm_deq(*a, r),
    decreases a,
{
    Arm { pattern: clone_opt_pat(&a.pattern), guard: clone_guard(&a.guard), result: clone_expr(&a.result) }
}

/// A copy of a binding.
pub fn clone_bind(b: &Bind) -> (r: Bind)
    ensures
        bind_deq(*b, r),
    decreases b,
{
    Bind {
        target: match &b.target {
            BindTarget::Name(n) => BindTarget::Name(copy_string(n)),
            BindTarget::Pattern(p) => BindTarget::Pattern(clone_pat(p)),
        },
        value: clone_expr(&b.value),
        exported: b.exported,
    }
}

/// A copy of a pattern.
pub fn clone_pat(p: &Pat) -> (r: Pat)
    ensures
        pat_deq(*p, r),
    decreases p,
{
    match p {
        Pat::Const(v) => Pat::Const(v.clone()),
        Pat::Bind(n) => Pat::Bind(copy_string(n)),
        Pat::Wild => Pat::Wild,
        Pat::Tuple(elems) => Pat::Tuple(clone_pat_elems(elems)),
        Pat::Record { fields, exact } => Pat::Record { fields: clone_pat_fields(fields), exact: *exact },
        Pat::Contract(r0) => Pat::Contract(clone_ref(r0)),
    }
}

/// A copy of a tuple-pattern element.
pub fn clone_pat_elem(e: &PatElem) -> (r: PatElem)
    ensures
        pat_elem_deq(*e, r),
    decreases e,
{
    match e {
        PatElem::Pat(p) => PatElem::Pat(clone_pat(p)),
        PatElem::Rest(n) => PatElem::Rest(clone_opt_name(n)),
    }
}

/// A copy of a record-pattern field.
pub fn clone_pat_field(f: &PatField) -> (r: PatField)
    ensures
        pat_field_deq(*f, r),
    decreases f,
{
    match f {
        PatField::Field { key, pat } => PatField::Field { key: copy_string(key), pat: clone_pat(pat) },
        PatField::Rest(n) => PatField::Rest(clone_opt_name(n)),
    }
}

} // verus!
