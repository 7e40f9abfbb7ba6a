//! Desugaring: surface AST to kernel AST.
//!
//! The catalog is closed: every surface form that is not already a kernel node
//! lowers here, and [`rules`] states what each one becomes. Constants are
//! interned as they are produced. The output is kernel AST before
//! canonicalization: references and write slots still carry surface names.
//!
//! The corners not lowered yet (nested pins, index mutation, mixed hask holes,
//! the reactive layer) return a [`DesugarError`] rather than guessing.

pub mod rules;
mod hask;

use crate::ast::{
    clone_expr, clone_guard, clone_opt_name, expr_deq, ActBind, ActKind, Arg, AccessForm, Arm, Bind, BindTarget, BindingRef, Element, Expr,
    Field, Import, Item, Lambda, Match, MatchItem, Module, Pat, PatElem, PatField, PrimOp, Ref, SlotDecl, SlotRef,
    TemplatePart, Where,
};
use crate::desugar::hask::{build_hask_params, next_name, register_hole, register_rest_hole, stack_wf, HaskScope};
use crate::desugar::rules::{
    arm_res, bool_match_shape, combine, lemma_lambda_shape, lowers_at, lowers_item, lowers_program, names_same, ok_at, ok_item, where_input, yields_lambda, copied_from, holes_mutation, lowers_mutation, ok_mutation, path_fields, prim_of_mut, read_path_is, slice_read, update_is, update_leaf, alt_at, arm_count, holes_arm, holes_arms, holes_arrow, holes_guard_opt, holes_stmt, holes_stmts, lowers_alt, lowers_arm, lowers_arms, lowers_arrow, lowers_binding, lowers_block, lowers_guard, lowers_guard_opt, lowers_stmt, ok_arm, ok_arm_pat, ok_arm_pattern, ok_arrow, ok_binding, ok_block_stmt, pin_eq, binds, elem_binds, field_binds, lowers_pat, lowers_pat_elem, lowers_pat_elems, lowers_pat_field, lowers_pat_fields, lowers_param, lowers_params, lowers_target, ok_pat, ok_pat_elem, ok_pat_elems, ok_pat_field, ok_pat_fields, ok_param, ok_params, ok_target, escaped_and_shape, escaped_or_shape, loosened, lowers_binary, lowers_unary, prim2, prim_arg, prim_of, holes_arg, holes_field, holes_fields, holes_template, holes_part, lowers_arg, lowers_field, lowers_part, ok_arg, ok_field, ok_part, holes_access, holes_args, holes_opt, lowers_access, lowers_opt, ok_access, ok_opt, const_bool, const_null, falsy_match_shape, holes, holes_elems, lemma_combine_assoc,
    lemma_combine_unit, lowers, lowers_elem, name_ref, no_holes, null_or_shape, ok_elem, ok_expr, scrut, synthetic,
    synthetic_ref, hask_ok, hask_params, hole_use, rest_use, HoleSum,
};
use crate::interner::Interner;
use crate::normalize::{module_norm, normalize_module};
use crate::surface::{SAt, SProgram, MutOp, SPathSeg, SArm, SArrow, SArrowBody, SBinding, SStmt, SBindTarget, SParam, SPatElem, SPatField, SPattern, BinOp, UnOp, Hole, PipeDir, SAccessForm, SArg, SElem, SExpr, SField, STemplatePart};
use crate::text::{clone_units, join_dot, str_chars, str_is, string_from_chars, string_from_utf16_lossy, string_of};
use vstd::prelude::*;

verus! {

/// Why a surface program does not lower.
#[derive(Debug, PartialEq, Eq)]
pub struct DesugarError {
    pub message: String,
}

fn err<T>(message: &str) -> (r: Result<T, DesugarError>)
    ensures
        r matches Err(e) && e.message@ == message@,
{
    Err(DesugarError { message: string_of(message) })
}

/// Lowers surface syntax to kernel AST, interning constants through `interner`.
pub struct Desugarer<'a> {
    interner: &'a mut Interner,
    gensym: u32,
    /// Active hask scopes, innermost last. A `#` pushes one; holes inside
    /// register against the top scope.
    hask_stack: Vec<HaskScope>,
}

impl<'a> Desugarer<'a> {
    /// The interner is well formed and every hask scope agrees with its holes.
    pub closed spec fn inv(&self) -> bool {
        self.interner.wf() && stack_wf(self.hask_stack@)
    }

    /// Whether lowering is inside a hask `#`.
    pub closed spec fn in_hask(&self) -> bool {
        self.hask_stack@.len() > 0
    }

    /// The holes registered so far in the innermost hask.
    pub closed spec fn top(&self) -> HoleSum {
        self.hask_stack@.last().total()
    }

    /// Same hask depth, and the scopes below the innermost one unchanged.
    pub closed spec fn kept(&self, old: &Desugarer<'a>) -> bool {
        &&& self.hask_stack@.len() == old.hask_stack@.len()
        &&& forall|i: int| 0 <= i < old.hask_stack@.len() - 1 ==> #[trigger] self.hask_stack@[i] == old.hask_stack@[i]
    }

    /// After lowering something whose holes are `u`: the innermost hask has
    /// registered `u` on top of what it had.
    pub open spec fn advanced(&self, old: &Desugarer<'a>, u: HoleSum) -> bool {
        self.kept(old) && (old.in_hask() ==> self.top() == combine(old.top(), u))
    }

    /// `x` is the parameter the innermost hask gave the hole `h`: the latest
    /// plain hole's name, or the name of index `n`.
    pub closed spec fn hole_param(&self, h: Hole, x: Seq<char>) -> bool {
        match h {
            Hole::Anon => self.hask_stack@.last().anon_names().last() == x,
            Hole::Indexed(n) => self.hask_stack@.last().index_name(n) == Some(x),
        }
    }

    /// Nothing was registered.
    pub open spec fn unchanged_holes(&self, old: &Desugarer<'a>) -> bool {
        self.kept(old) && (old.in_hask() ==> self.top() == old.top())
    }

    proof fn lemma_advance(d2: &Desugarer<'a>, d1: &Desugarer<'a>, d0: &Desugarer<'a>, u1: HoleSum, u2: HoleSum)
        requires
            d1.advanced(d0, u1),
            d2.advanced(d1, u2),
        ensures
            d2.advanced(d0, combine(u1, u2)),
    {
        if d0.in_hask() {
            lemma_combine_assoc(d0.top(), u1, u2);
        }
    }

    proof fn lemma_unchanged(d1: &Desugarer<'a>, d0: &Desugarer<'a>)
        requires
            d1.unchanged_holes(d0),
        ensures
            d1.advanced(d0, no_holes()),
    {
        if d0.in_hask() {
            lemma_combine_unit(d0.top());
        }
    }

    pub fn new(interner: &'a mut Interner) -> (r: Desugarer<'a>)
        requires
            old(interner).wf(),
        ensures
            r.inv(),
            !r.in_hask(),
    {
        Desugarer { interner, gensym: 0, hask_stack: Vec::new() }
    }

    /// Ends lowering, handing back the interner.
    pub fn into_interner(self) -> (r: &'a mut Interner)
        requires
            self.inv(),
        ensures
            r.wf(),
    {
        self.interner
    }

    /// A fresh synthetic binding name. The `%` prefix never occurs in a
    /// surface identifier, so generated names never collide with user names.
    fn fresh(&mut self, tag: &str) -> (r: String)
        requires
            old(self).inv(),
        ensures
            final(self).inv(),
            final(self).unchanged_holes(old(self)),
            synthetic(r@),
    {
        next_name(&mut self.gensym, tag)
    }

    // ── Constants ────────────────────────────────────────────────────────────

    fn c_bool(&mut self, b: bool) -> (r: Expr)
        requires
            old(self).inv(),
        ensures
            final(self).inv(),
            final(self).unchanged_holes(old(self)),
            const_bool(r, b),
    {
        Expr::Const(self.interner.boolean(b))
    }

    fn c_null(&mut self) -> (r: Expr)
        requires
            old(self).inv(),
        ensures
            final(self).inv(),
            final(self).unchanged_holes(old(self)),
            const_null(r),
    {
        Expr::Const(self.interner.null())
    }

    fn p_bool(&mut self, b: bool) -> (r: Pat)
        requires
            old(self).inv(),
        ensures
            final(self).inv(),
            final(self).unchanged_holes(old(self)),
            r matches Pat::Const(v) && v.key() == crate::value::ValueKey::Boolean(b),
    {
        Pat::Const(self.interner.boolean(b))
    }

    fn p_null(&mut self) -> (r: Pat)
        requires
            old(self).inv(),
        ensures
            final(self).inv(),
            final(self).unchanged_holes(old(self)),
            r matches Pat::Const(v) && v.key() == crate::value::ValueKey::Null,
    {
        Pat::Const(self.interner.null())
    }

    /// A read of the binding `name`.
    fn name_ref(name: &String) -> (r: Expr)
        ensures
            name_ref(r, name@),
    {
        Expr::Ref(Ref::Immutable(BindingRef::Name(name.clone())))
    }

    // ── Holes ────────────────────────────────────────────────────────────────

    /// Registers a plain hole, returning its parameter name.
    fn register_hole(&mut self, h: Hole) -> (r: Result<String, DesugarError>)
        requires
            old(self).inv(),
        ensures
            final(self).inv(),
            r is Ok <==> old(self).in_hask(),
            r matches Ok(n) ==> synthetic(n@) && final(self).advanced(old(self), hole_use(h)),
            r matches Ok(n) ==> final(self).hole_param(h, n@),
    {
        register_hole(&mut self.hask_stack, &mut self.gensym, h)
    }

    /// Registers a rest hole, returning its parameter name.
    fn register_rest_hole(&mut self, h: Hole) -> (r: Result<String, DesugarError>)
        requires
            old(self).inv(),
        ensures
            final(self).inv(),
            r is Ok <==> old(self).in_hask(),
            r matches Ok(n) ==> synthetic(n@) && final(self).advanced(old(self), rest_use(h)),
    {
        register_rest_hole(&mut self.hask_stack, &mut self.gensym, h)
    }

    /// `# body`: a pure lambda over the hole positions of `body`.
    fn hask(&mut self, body: &SExpr) -> (r: Result<Expr, DesugarError>)
        requires
            old(self).inv(),
        ensures
            final(self).inv(),
            r is Ok <==> ok_expr(*body, true) && hask_ok(holes(*body)),
            r is Ok ==> final(self).unchanged_holes(old(self)),
            r matches Ok(k) ==> (k matches Expr::Lambda(l) && l.act_kind == ActKind::Pure && lowers(*body, *l.body)
                && hask_params(holes(*body), l.params)),
        decreases body, 4nat,
    {
        let ghost d0 = *self;
        self.hask_stack.push(HaskScope::empty());
        proof {
            assert(stack_wf(self.hask_stack@)) by {
                assert forall|i: int| 0 <= i < self.hask_stack@.len() implies (#[trigger] self.hask_stack@[i]).wf() by {
                    if i < d0.hask_stack@.len() {
                        assert(self.hask_stack@[i] == d0.hask_stack@[i]);
                    }
                }
            }
        }
        let ghost d1 = *self;
        let body_expr = match self.expr(body) {
            Ok(k) => k,
            Err(e) => {
                return Err(e);
            },
        };
        proof {
            lemma_combine_unit(holes(*body));
        }
        let scope = self.hask_stack.pop().unwrap();
        proof {
            assert(self.hask_stack@ =~= d0.hask_stack@);
        }
        let params = match build_hask_params(scope, &mut self.gensym) {
            Ok(p) => p,
            Err(e) => {
                return Err(e);
            },
        };
        Ok(Expr::Lambda(Lambda { params, body: Box::new(body_expr), act_kind: ActKind::Pure }))
    }

    // ── Program and declarations ─────────────────────────────────────────────

    /// Lowers a whole program: one kernel item per statement, the module named
    /// by its dotted header.
    pub fn program(&mut self, p: &SProgram) -> (r: Result<Module, DesugarError>)
        requires
            old(self).inv(),
        ensures
            final(self).inv(),
            r is Ok <==> forall|i: int| 0 <= i < p.statements@.len() ==> ok_item(
                #[trigger] p.statements@[i],
                old(self).in_hask(),
            ),
            r matches Ok(m) ==> lowers_program(*p, m),
    {
        let ghost h = self.in_hask();
        let mut items: Vec<Item> = Vec::new();
        let mut i: usize = 0;
        while i < p.statements.len()
            invariant
                i <= p.statements@.len(),
                self.inv(),
                self.in_hask() == h,
                h == old(self).in_hask(),
                items@.len() == i,
                forall|j: int| 0 <= j < i ==> ok_item(#[trigger] p.statements@[j], h),
                forall|j: int| 0 <= j < i ==> lowers_item(#[trigger] p.statements@[j], items@[j]),
            decreases p.statements@.len() - i,
        {
            let it = match self.top_item(&p.statements[i]) {
                Ok(it) => it,
                Err(x) => {
                    assert(!ok_item(p.statements@[i as int], h));
                    return Err(x);
                },
            };
            items.push(it);
            i = i + 1;
        }
        let name = match &p.header {
            Some(parts) => Some(join_dot(parts)),
            None => None,
        };
        Ok(Module { name, items })
    }

    fn top_item(&mut self, s: &SStmt) -> (r: Result<Item, DesugarError>)
        requires
            old(self).inv(),
        ensures
            final(self).inv(),
            r is Ok <==> ok_item(*s, old(self).in_hask()),
            r is Ok ==> final(self).in_hask() == old(self).in_hask(),
            r matches Ok(it) ==> lowers_item(*s, it),
    {
        match s {
            SStmt::Binding(b) => match self.binding(b) {
                Ok(x) => Ok(Item::Bind(x)),
                Err(e) => Err(e),
            },
            SStmt::Import { names, module } => Ok(Item::Import(Import { names: clone_names(names), module: join_dot(module) })),
            SStmt::Where { name, inputs, ret } => match self.where_clause(name, inputs, ret) {
                Ok(w) => Ok(Item::Where(w)),
                Err(e) => Err(e),
            },
            SStmt::At(at) => self.at_item(at),
            SStmt::Mutation { .. } => match self.mutation(s) {
                Ok(k) => Ok(Item::Stmt(k)),
                Err(e) => Err(e),
            },
            SStmt::Expr(x) => match self.expr(x) {
                Ok(k) => Ok(Item::Stmt(k)),
                Err(e) => Err(e),
            },
            _ => err("arm exits (`=>` / `when`) are only legal inside a block body"),
        }
    }

    /// A `where` clause: a list of input contracts is a contract over the
    /// argument tuple.
    fn where_clause(&mut self, name: &String, inputs: &Vec<SExpr>, ret: &SExpr) -> (r: Result<Where, DesugarError>)
        requires
            old(self).inv(),
        ensures
            final(self).inv(),
            r is Ok <==> (forall|i: int| 0 <= i < inputs@.len() ==> ok_expr(#[trigger] inputs@[i], old(self).in_hask()))
                && ok_expr(*ret, old(self).in_hask()),
            r is Ok ==> final(self).in_hask() == old(self).in_hask(),
            r matches Ok(w) ==> w.name@ == name@ && lowers(*ret, w.return_contract) && where_input(
                inputs@,
                w.input_contract,
            ),
    {
        let ghost h = self.in_hask();
        let input_contract = if inputs.len() == 1 {
            match self.expr(&inputs[0]) {
                Ok(k) => k,
                Err(e) => {
                    return Err(e);
                },
            }
        } else {
            let mut elems: Vec<Element> = Vec::new();
            let mut i: usize = 0;
            while i < inputs.len()
                invariant
                    i <= inputs@.len(),
                    self.inv(),
                    self.in_hask() == h,
                    h == old(self).in_hask(),
                    elems@.len() == i,
                    forall|j: int| 0 <= j < i ==> ok_expr(#[trigger] inputs@[j], h),
                    forall|j: int| 0 <= j < i ==> (#[trigger] elems@[j] matches Element::Expr(x) && lowers(inputs@[j], x)),
                decreases inputs@.len() - i,
            {
                let k = match self.expr(&inputs[i]) {
                    Ok(k) => k,
                    Err(e) => {
                        assert(!ok_expr(inputs@[i as int], h));
                        return Err(e);
                    },
                };
                elems.push(Element::Expr(k));
                i = i + 1;
            }
            Expr::TupleCons(elems)
        };
        let return_contract = match self.expr(ret) {
            Ok(k) => k,
            Err(e) => {
                return Err(e);
            },
        };
        Ok(Where { name: name.clone(), input_contract, return_contract })
    }

    /// A privileged `@op` declaration.
    fn at_item(&mut self, at: &SAt) -> (r: Result<Item, DesugarError>)
        requires
            old(self).inv(),
        ensures
            final(self).inv(),
            r is Ok <==> ok_at(*at, old(self).in_hask()),
            r is Ok ==> final(self).in_hask() == old(self).in_hask(),
            r matches Ok(it) ==> lowers_at(*at, it),
    {
        match at {
            SAt::Binding { op, binding } => {
                let slot = str_is(op, "state") || str_is(op, "mutable");
                let act = str_is(op, "mutate") || str_is(op, "effect");
                if !slot && !act {
                    if str_is(op, "computed") || str_is(op, "reactive") {
                        return err("@computed/@reactive are the fenced reactive layer; not implemented");
                    }
                    return Err(DesugarError { message: message_about("unknown privileged operation `@", op, "`") });
                }
                let name = match &binding.target {
                    SBindTarget::Name(n) => n.clone(),
                    _ => {
                        if slot {
                            return err("@state/@mutable require a simple name target");
                        }
                        return err("@mutate/@effect require a simple name target");
                    },
                };
                if slot {
                    let init = match self.expr(&binding.value) {
                        Ok(k) => k,
                        Err(e) => {
                            return Err(e);
                        },
                    };
                    Ok(Item::SlotDecl(SlotDecl { reactive: str_is(op, "state"), name, init, exported: binding.exported }))
                } else {
                    let kind = if str_is(op, "mutate") {
                        ActKind::Mutator
                    } else {
                        ActKind::Effect
                    };
                    let mut lambda = match self.expect_lambda(&binding.value) {
                        Ok(l) => l,
                        Err(e) => {
                            return Err(e);
                        },
                    };
                    lambda.act_kind = kind;
                    Ok(Item::ActBind(ActBind { kind, name, lambda, exported: binding.exported }))
                }
            },
            SAt::Anon { op, .. } => Err(DesugarError {
                message: message_about("anonymous `@", op, "` declarations are the fenced reactive layer"),
            }),
        }
    }

    /// The right side of an `@mutate`/`@effect` declaration must lower to a
    /// function.
    fn expect_lambda(&mut self, e: &SExpr) -> (r: Result<Lambda, DesugarError>)
        requires
            old(self).inv(),
        ensures
            final(self).inv(),
            r is Ok <==> ok_expr(*e, old(self).in_hask()) && yields_lambda(*e),
            r is Ok ==> final(self).in_hask() == old(self).in_hask(),
            r matches Ok(l) ==> lowers(*e, Expr::Lambda(l)) && l.act_kind == ActKind::Pure,
    {
        let k = match self.expr(e) {
            Ok(k) => k,
            Err(x) => {
                return Err(x);
            },
        };
        proof {
            lemma_lambda_shape(*e, k);
        }
        match k {
            Expr::Lambda(l) => Ok(l),
            _ => err("expected an arrow function on the right of this `@`-declaration"),
        }
    }

    // ── Shapes ───────────────────────────────────────────────────────────────

    /// `Match(scrut, [true => t, false => f])`.
    fn bool_match(&mut self, s: Expr, t: Expr, f: Expr) -> (r: Expr)
        requires
            old(self).inv(),
        ensures
            final(self).inv(),
            final(self).unchanged_holes(old(self)),
            bool_match_shape(r),
            scrut(r) == s,
            arm_res(r, 0) == t,
            arm_res(r, 1) == f,
    {
        let tp = self.p_bool(true);
        let fp = self.p_bool(false);
        let r = Expr::Match(Match {
            scrutinee: Some(Box::new(s)),
            items: vec![
                MatchItem::Arm(Arm { pattern: Some(tp), guard: None, result: t }),
                MatchItem::Arm(Arm { pattern: Some(fp), guard: None, result: f }),
            ],
        });
        r
    }

    /// The falsy-set test: `false`/`null` give `falsy`, anything else `other`.
    fn falsy_set_match(&mut self, s: Expr, falsy: Expr, other: Expr) -> (r: Expr)
        requires
            old(self).inv(),
            falsy is Const,
        ensures
            final(self).inv(),
            final(self).unchanged_holes(old(self)),
            falsy_match_shape(r),
            scrut(r) == s,
            arm_res(r, 0) == falsy,
            arm_res(r, 1) == falsy,
            arm_res(r, 2) == other,
    {
        let falsy2 = clone_expr(&falsy);
        let fp = self.p_bool(false);
        let np = self.p_null();
        Expr::Match(Match {
            scrutinee: Some(Box::new(s)),
            items: vec![
                MatchItem::Arm(Arm { pattern: Some(fp), guard: None, result: falsy }),
                MatchItem::Arm(Arm { pattern: Some(np), guard: None, result: falsy2 }),
                MatchItem::Arm(Arm { pattern: Some(Pat::Wild), guard: None, result: other }),
            ],
        })
    }

    /// `Match(a, [null => b, v => v])`: `b` when `a` is null, else `a` itself
    /// (evaluated once).
    fn null_or(&mut self, a: Expr, b: Expr) -> (r: Expr)
        requires
            old(self).inv(),
        ensures
            final(self).inv(),
            final(self).unchanged_holes(old(self)),
            null_or_shape(r),
            scrut(r) == a,
            arm_res(r, 0) == b,
    {
        let v = self.fresh("nn");
        let null_pat = self.p_null();
        let vr = Self::name_ref(&v);
        Expr::Match(Match {
            scrutinee: Some(Box::new(a)),
            items: vec![
                MatchItem::Arm(Arm { pattern: Some(null_pat), guard: None, result: b }),
                MatchItem::Arm(Arm { pattern: Some(Pat::Bind(v)), guard: None, result: vr }),
            ],
        })
    }

    // ── Expressions ──────────────────────────────────────────────────────────

    /// Lowers one surface expression.
    pub fn expr(&mut self, e: &SExpr) -> (r: Result<Expr, DesugarError>)
        requires
            old(self).inv(),
        ensures
            final(self).inv(),
            r is Ok <==> ok_expr(*e, old(self).in_hask()),
            r is Ok ==> final(self).advanced(old(self), holes(*e)),
            r matches Ok(k) ==> lowers(*e, k),
            r matches Ok(k) ==> (*e matches SExpr::Hole(h) ==> (k matches Expr::Ref(Ref::Immutable(BindingRef::Name(x)))
                && final(self).hole_param(h, x@))),
        decreases e, 3nat,
    {
        let ghost d0 = *self;
        match e {
            SExpr::Number(n) => {
                let v = self.interner.number(n.clone());
                proof {
                    Self::lemma_unchanged(&*self, &d0);
                }
                Ok(Expr::Const(v))
            },
            SExpr::Str(u) => {
                let v = self.interner.string_units(clone_units(u));
                proof {
                    Self::lemma_unchanged(&*self, &d0);
                }
                Ok(Expr::Const(v))
            },
            SExpr::Ident(name) => {
                let k = if str_is(name, "true") {
                    self.c_bool(true)
                } else if str_is(name, "false") {
                    self.c_bool(false)
                } else if str_is(name, "null") {
                    self.c_null()
                } else {
                    Self::name_ref(name)
                };
                proof {
                    Self::lemma_unchanged(&*self, &d0);
                }
                Ok(k)
            },
            SExpr::Hole(h) => {
                let n = match self.register_hole(*h) {
                    Ok(n) => n,
                    Err(e) => {
                        return Err(e);
                    },
                };
                Ok(Self::name_ref(&n))
            },
            SExpr::Grouping(inner) => self.expr(inner),
            SExpr::Tuple(elems) => {
                let ks = match self.elements(elems) {
                    Ok(ks) => ks,
                    Err(e) => {
                        return Err(e);
                    },
                };
                Ok(Expr::TupleCons(ks))
            },
            SExpr::Hask(body) => {
                let k = self.hask(body);
                proof {
                    if k is Ok {
                        Self::lemma_unchanged(&*self, &d0);
                    }
                }
                k
            },
            SExpr::Template(parts) => {
                let ps = match self.template(parts) {
                    Ok(ps) => ps,
                    Err(e) => {
                        return Err(e);
                    },
                };
                Ok(Expr::Template(ps))
            },
            SExpr::Record(fields) => {
                let ks = match self.fields(fields) {
                    Ok(ks) => ks,
                    Err(e) => {
                        return Err(e);
                    },
                };
                Ok(Expr::RecordCons(ks))
            },
            SExpr::Block(stmts) => {
                let m = match self.block_match(stmts) {
                    Ok(m) => m,
                    Err(e) => {
                        return Err(e);
                    },
                };
                Ok(Expr::Match(m))
            },
            SExpr::Arrow(a) => {
                let l = match self.arrow(a) {
                    Ok(l) => l,
                    Err(e) => {
                        return Err(e);
                    },
                };
                Ok(Expr::Lambda(l))
            },
            SExpr::Match { .. } => self.match_expr(e),
            SExpr::Pipe { .. } => self.pipe(e),
            SExpr::Ternary { .. } => self.ternary(e),
            SExpr::Binary { .. } => self.binary(e),
            SExpr::Unary { .. } => self.unary(e),
            SExpr::Access { .. } => self.access(e),
            SExpr::Call { .. } => self.call(e),
        }
    }

    /// Tuple elements; a spread hole inside a hask is a rest hole.
    fn elements(&mut self, v: &Vec<SElem>) -> (r: Result<Vec<Element>, DesugarError>)
        requires
            old(self).inv(),
        ensures
            final(self).inv(),
            r is Ok <==> forall|i: int| 0 <= i < v@.len() ==> ok_elem(#[trigger] v@[i], old(self).in_hask()),
            r is Ok ==> final(self).advanced(old(self), holes_elems(v@)),
            r matches Ok(ks) ==> ks@.len() == v@.len() && forall|i: int| 0 <= i < v@.len() ==> lowers_elem(
                #[trigger] v@[i],
                ks@[i],
            ),
        decreases v, 0nat,
    {
        let ghost d0 = *self;
        let ghost h = self.in_hask();
        let mut out: Vec<Element> = Vec::new();
        let mut i: usize = 0;
        proof {
            assert(v@.take(0) =~= Seq::<SElem>::empty());
            lemma_combine_unit(d0.top());
        }
        while i < v.len()
            invariant
                i <= v@.len(),
                h == d0.in_hask(),
                h == old(self).in_hask(),
                self.inv(),
                self.advanced(&d0, holes_elems(v@.take(i as int))),
                out@.len() == i,
                forall|j: int| 0 <= j < i ==> ok_elem(#[trigger] v@[j], h),
                forall|j: int| 0 <= j < i ==> lowers_elem(#[trigger] v@[j], out@[j]),
            decreases v@.len() - i,
        {
            proof {
                assert(decreases_to!(*v => v@[i as int]));
            }
            let ghost d1 = *self;
            let el = &v[i];
            let k = match el {
                SElem::Expr(x) => match self.expr(x) {
                    Ok(k) => Element::Expr(k),
                    Err(e) => {
                        assert(!ok_elem(v@[i as int], h));
                        return Err(e);
                    },
                },
                SElem::Spread(x) => {
                    let is_rest = match x {
                        SExpr::Hole(_) => self.hask_stack.len() > 0,
                        _ => false,
                    };
                    if is_rest {
                        let hl = match x {
                            SExpr::Hole(hl) => *hl,
                            _ => Hole::Anon,
                        };
                        match self.register_rest_hole(hl) {
                            Ok(n) => Element::Spread(Self::name_ref(&n)),
                            Err(e) => {
                                return Err(e);
                            },
                        }
                    } else {
                        match self.expr(x) {
                            Ok(k) => Element::Spread(k),
                            Err(e) => {
                                assert(!ok_elem(v@[i as int], h));
                                return Err(e);
                            },
                        }
                    }
                },
            };
            proof {
                Self::lemma_advance(&*self, &d1, &d0, holes_elems(v@.take(i as int)), crate::desugar::rules::holes_elem(v@[i as int]));
                assert(v@.take(i + 1).drop_last() =~= v@.take(i as int));
            }
            out.push(k);
            i = i + 1;
        }
        proof {
            assert(v@.take(v@.len() as int) =~= v@);
        }
        Ok(out)
    }

    proof fn lemma_then_unchanged(d2: &Desugarer<'a>, d1: &Desugarer<'a>, d0: &Desugarer<'a>, u: HoleSum)
        requires
            d1.advanced(d0, u),
            d2.unchanged_holes(d1),
        ensures
            d2.advanced(d0, u),
    {
    }

    fn ternary(&mut self, e: &SExpr) -> (r: Result<Expr, DesugarError>)
        requires
            old(self).inv(),
            e is Ternary,
        ensures
            final(self).inv(),
            r is Ok <==> ok_expr(*e, old(self).in_hask()),
            r is Ok ==> final(self).advanced(old(self), holes(*e)),
            r matches Ok(k) ==> lowers(*e, k),
        decreases e, 2nat,
    {
        let ghost d0 = *self;
        match e {
            SExpr::Ternary { cond, then, els } => {
                let s = match self.expr(cond) {
                    Ok(k) => k,
                    Err(x) => {
                        return Err(x);
                    },
                };
                let ghost d1 = *self;
                let t = match self.expr(then) {
                    Ok(k) => k,
                    Err(x) => {
                        return Err(x);
                    },
                };
                let ghost d2 = *self;
                let f = match self.expr(els) {
                    Ok(k) => k,
                    Err(x) => {
                        return Err(x);
                    },
                };
                let ghost d3 = *self;
                let k = self.bool_match(s, t, f);
                proof {
                    Self::lemma_advance(&d2, &d1, &d0, holes(**cond), holes(**then));
                    Self::lemma_advance(&d3, &d2, &d0, combine(holes(**cond), holes(**then)), holes(**els));
                    Self::lemma_then_unchanged(&*self, &d3, &d0, holes(*e));
                }
                Ok(k)
            },
            _ => err("expected a conditional expression"),
        }
    }

    /// `x |> f` and `f <| x` are both `Apply(f, [x])`.
    fn pipe(&mut self, e: &SExpr) -> (r: Result<Expr, DesugarError>)
        requires
            old(self).inv(),
            e is Pipe,
        ensures
            final(self).inv(),
            r is Ok <==> ok_expr(*e, old(self).in_hask()),
            r is Ok ==> final(self).advanced(old(self), holes(*e)),
            r matches Ok(k) ==> lowers(*e, k),
        decreases e, 2nat,
    {
        let ghost d0 = *self;
        match e {
            SExpr::Pipe { dir, left, right } => {
                let forward = match dir {
                    PipeDir::Forward => true,
                    PipeDir::Backward => false,
                };
                let (callee, arg) = if forward {
                    (right, left)
                } else {
                    (left, right)
                };
                let c = match self.expr(callee) {
                    Ok(k) => k,
                    Err(x) => {
                        return Err(x);
                    },
                };
                let ghost d1 = *self;
                let a = match self.expr(arg) {
                    Ok(k) => k,
                    Err(x) => {
                        return Err(x);
                    },
                };
                proof {
                    Self::lemma_advance(&*self, &d1, &d0, holes(**callee), holes(**arg));
                }
                Ok(Expr::Apply { callee: Box::new(c), args: vec![Arg::Expr(a)] })
            },
            _ => err("expected a pipe"),
        }
    }

    fn access(&mut self, e: &SExpr) -> (r: Result<Expr, DesugarError>)
        requires
            old(self).inv(),
            e is Access,
        ensures
            final(self).inv(),
            r is Ok <==> ok_expr(*e, old(self).in_hask()),
            r is Ok ==> final(self).advanced(old(self), holes(*e)),
            r matches Ok(k) ==> lowers(*e, k),
        decreases e, 2nat,
    {
        let ghost d0 = *self;
        match e {
            SExpr::Access { target, form, total } => {
                let t = match self.expr(target) {
                    Ok(k) => k,
                    Err(x) => {
                        return Err(x);
                    },
                };
                let ghost d1 = *self;
                let f = match self.access_form(form) {
                    Ok(k) => k,
                    Err(x) => {
                        return Err(x);
                    },
                };
                proof {
                    Self::lemma_advance(&*self, &d1, &d0, holes(**target), holes_access(*form));
                }
                Ok(Expr::Access { target: Box::new(t), form: f, total: *total })
            },
            _ => err("expected an access"),
        }
    }

    fn call(&mut self, e: &SExpr) -> (r: Result<Expr, DesugarError>)
        requires
            old(self).inv(),
            e is Call,
        ensures
            final(self).inv(),
            r is Ok <==> ok_expr(*e, old(self).in_hask()),
            r is Ok ==> final(self).advanced(old(self), holes(*e)),
            r matches Ok(k) ==> lowers(*e, k),
        decreases e, 2nat,
    {
        let ghost d0 = *self;
        match e {
            SExpr::Call { callee, args } => {
                let c = match self.expr(callee) {
                    Ok(k) => k,
                    Err(x) => {
                        return Err(x);
                    },
                };
                let ghost d1 = *self;
                let a = match self.args(args) {
                    Ok(k) => k,
                    Err(x) => {
                        return Err(x);
                    },
                };
                proof {
                    Self::lemma_advance(&*self, &d1, &d0, holes(**callee), holes_args(args@));
                }
                Ok(Expr::Apply { callee: Box::new(c), args: a })
            },
            _ => err("expected a call"),
        }
    }

    fn access_form(&mut self, f: &SAccessForm) -> (r: Result<AccessForm, DesugarError>)
        requires
            old(self).inv(),
        ensures
            final(self).inv(),
            r is Ok <==> ok_access(*f, old(self).in_hask()),
            r is Ok ==> final(self).advanced(old(self), holes_access(*f)),
            r matches Ok(k) ==> lowers_access(*f, k),
        decreases f, 0nat,
    {
        let ghost d0 = *self;
        match f {
            SAccessForm::Field(name) => {
                proof {
                    lemma_combine_unit(d0.top());
                }
                Ok(AccessForm::Field(name.clone()))
            },
            SAccessForm::Index(x) => {
                let k = match self.expr(x) {
                    Ok(k) => k,
                    Err(x) => {
                        return Err(x);
                    },
                };
                Ok(AccessForm::Index(Box::new(k)))
            },
            SAccessForm::Slice { lo, hi } => {
                let l = match self.opt_expr(lo) {
                    Ok(k) => k,
                    Err(x) => {
                        return Err(x);
                    },
                };
                let ghost d1 = *self;
                let h = match self.opt_expr(hi) {
                    Ok(k) => k,
                    Err(x) => {
                        return Err(x);
                    },
                };
                proof {
                    Self::lemma_advance(&*self, &d1, &d0, holes_opt(*lo), holes_opt(*hi));
                }
                Ok(AccessForm::Slice { lo: l, hi: h })
            },
        }
    }

    fn opt_expr(&mut self, o: &Option<Box<SExpr>>) -> (r: Result<Option<Box<Expr>>, DesugarError>)
        requires
            old(self).inv(),
        ensures
            final(self).inv(),
            r is Ok <==> ok_opt(*o, old(self).in_hask()),
            r is Ok ==> final(self).advanced(old(self), holes_opt(*o)),
            r matches Ok(k) ==> lowers_opt(*o, k),
        decreases o, 0nat,
    {
        let ghost d0 = *self;
        match o {
            Some(x) => {
                let k = match self.expr(x) {
                    Ok(k) => k,
                    Err(x) => {
                        return Err(x);
                    },
                };
                Ok(Some(Box::new(k)))
            },
            None => {
                proof {
                    lemma_combine_unit(d0.top());
                }
                Ok(None)
            },
        }
    }

    /// Template parts: literal segments as text, interpolations lowered.
    fn template(&mut self, v: &Vec<STemplatePart>) -> (r: Result<Vec<TemplatePart>, DesugarError>)
        requires
            old(self).inv(),
        ensures
            final(self).inv(),
            r is Ok <==> forall|i: int| 0 <= i < v@.len() ==> ok_part(#[trigger] v@[i], old(self).in_hask()),
            r is Ok ==> final(self).advanced(old(self), holes_template(v@)),
            r matches Ok(ks) ==> ks@.len() == v@.len() && forall|i: int| 0 <= i < v@.len() ==> lowers_part(
                #[trigger] v@[i],
                ks@[i],
            ),
        decreases v, 0nat,
    {
        let ghost d0 = *self;
        let ghost h = self.in_hask();
        let mut out: Vec<TemplatePart> = Vec::new();
        let mut i: usize = 0;
        proof {
            assert(v@.take(0) =~= Seq::<STemplatePart>::empty());
            lemma_combine_unit(d0.top());
        }
        while i < v.len()
            invariant
                i <= v@.len(),
                h == d0.in_hask(),
                h == old(self).in_hask(),
                self.inv(),
                self.advanced(&d0, holes_template(v@.take(i as int))),
                out@.len() == i,
                forall|j: int| 0 <= j < i ==> ok_part(#[trigger] v@[j], h),
                forall|j: int| 0 <= j < i ==> lowers_part(#[trigger] v@[j], out@[j]),
            decreases v@.len() - i,
        {
            proof {
                assert(decreases_to!(*v => v@[i as int]));
            }
            let ghost d1 = *self;
            let k = match &v[i] {
                STemplatePart::Str(u) => TemplatePart::Segment(string_from_utf16_lossy(u)),
                STemplatePart::Interp(x) => TemplatePart::Interp(match self.expr(x) {
                Ok(k) => k,
                Err(x) => {
                    assert(!ok_part(v@[i as int], h));
                    return Err(x);
                },
            }),
            };
            proof {
                if v@[i as int] is Str {
                    lemma_combine_unit(d1.top());
                }
            }
            proof {
                Self::lemma_advance(&*self, &d1, &d0, holes_template(v@.take(i as int)), holes_part(v@[i as int]));
                assert(v@.take(i + 1).drop_last() =~= v@.take(i as int));
            }
            out.push(k);
            i = i + 1;
        }
        proof {
            assert(v@.take(v@.len() as int) =~= v@);
        }
        Ok(out)
    }

    /// Record fields; the shorthand `{ x }` reads `x`.
    fn fields(&mut self, v: &Vec<SField>) -> (r: Result<Vec<Field>, DesugarError>)
        requires
            old(self).inv(),
        ensures
            final(self).inv(),
            r is Ok <==> forall|i: int| 0 <= i < v@.len() ==> ok_field(#[trigger] v@[i], old(self).in_hask()),
            r is Ok ==> final(self).advanced(old(self), holes_fields(v@)),
            r matches Ok(ks) ==> ks@.len() == v@.len() && forall|i: int| 0 <= i < v@.len() ==> lowers_field(
                #[trigger] v@[i],
                ks@[i],
            ),
        decreases v, 0nat,
    {
        let ghost d0 = *self;
        let ghost h = self.in_hask();
        let mut out: Vec<Field> = Vec::new();
        let mut i: usize = 0;
        proof {
            assert(v@.take(0) =~= Seq::<SField>::empty());
            lemma_combine_unit(d0.top());
        }
        while i < v.len()
            invariant
                i <= v@.len(),
                h == d0.in_hask(),
                h == old(self).in_hask(),
                self.inv(),
                self.advanced(&d0, holes_fields(v@.take(i as int))),
                out@.len() == i,
                forall|j: int| 0 <= j < i ==> ok_field(#[trigger] v@[j], h),
                forall|j: int| 0 <= j < i ==> lowers_field(#[trigger] v@[j], out@[j]),
            decreases v@.len() - i,
        {
            proof {
                assert(decreases_to!(*v => v@[i as int]));
            }
            let ghost d1 = *self;
            let k = match &v[i] {
                SField::Shorthand(name) => {
                    proof {
                        lemma_combine_unit(d1.top());
                    }
                    Field::Field { key: name.clone(), value: Self::name_ref(name) }
                },
                SField::KeyValue(key, x) => {
                    let value = match self.expr(x) {
                Ok(k) => k,
                Err(x) => {
                    assert(!ok_field(v@[i as int], h));
                    return Err(x);
                },
            };
                    Field::Field { key: key.clone(), value }
                },
                SField::Computed(kx, x) => {
                    let key = match self.expr(kx) {
                Ok(k) => k,
                Err(x) => {
                    assert(!ok_field(v@[i as int], h));
                    return Err(x);
                },
            };
                    let ghost d2 = *self;
                    let value = match self.expr(x) {
                Ok(k) => k,
                Err(x) => {
                    assert(!ok_field(v@[i as int], h));
                    return Err(x);
                },
            };
                    proof {
                        Self::lemma_advance(&*self, &d2, &d1, holes(*kx), holes(*x));
                    }
                    Field::Computed { key, value }
                },
                SField::Spread(x) => Field::Spread(match self.expr(x) {
                Ok(k) => k,
                Err(x) => {
                    assert(!ok_field(v@[i as int], h));
                    return Err(x);
                },
            }),
            };
            proof {
                Self::lemma_advance(&*self, &d1, &d0, holes_fields(v@.take(i as int)), holes_field(v@[i as int]));
                assert(v@.take(i + 1).drop_last() =~= v@.take(i as int));
            }
            out.push(k);
            i = i + 1;
        }
        proof {
            assert(v@.take(v@.len() as int) =~= v@);
        }
        Ok(out)
    }

    /// Call arguments; a spread hole inside a hask is a rest hole.
    fn args(&mut self, v: &Vec<SArg>) -> (r: Result<Vec<Arg>, DesugarError>)
        requires
            old(self).inv(),
        ensures
            final(self).inv(),
            r is Ok <==> forall|i: int| 0 <= i < v@.len() ==> ok_arg(#[trigger] v@[i], old(self).in_hask()),
            r is Ok ==> final(self).advanced(old(self), holes_args(v@)),
            r matches Ok(ks) ==> ks@.len() == v@.len() && forall|i: int| 0 <= i < v@.len() ==> lowers_arg(
                #[trigger] v@[i],
                ks@[i],
            ),
        decreases v, 0nat,
    {
        let ghost d0 = *self;
        let ghost h = self.in_hask();
        let mut out: Vec<Arg> = Vec::new();
        let mut i: usize = 0;
        proof {
            assert(v@.take(0) =~= Seq::<SArg>::empty());
            lemma_combine_unit(d0.top());
        }
        while i < v.len()
            invariant
                i <= v@.len(),
                h == d0.in_hask(),
                h == old(self).in_hask(),
                self.inv(),
                self.advanced(&d0, holes_args(v@.take(i as int))),
                out@.len() == i,
                forall|j: int| 0 <= j < i ==> ok_arg(#[trigger] v@[j], h),
                forall|j: int| 0 <= j < i ==> lowers_arg(#[trigger] v@[j], out@[j]),
            decreases v@.len() - i,
        {
            proof {
                assert(decreases_to!(*v => v@[i as int]));
            }
            let ghost d1 = *self;
            let k = match &v[i] {
                SArg::Expr(x) => Arg::Expr(match self.expr(x) {
                Ok(k) => k,
                Err(x) => {
                    assert(!ok_arg(v@[i as int], h));
                    return Err(x);
                },
            }),
                SArg::Spread(x) => {
                    let is_rest = match x {
                        SExpr::Hole(_) => self.hask_stack.len() > 0,
                        _ => false,
                    };
                    if is_rest {
                        let hl = match x {
                            SExpr::Hole(hl) => *hl,
                            _ => Hole::Anon,
                        };
                        let n = match self.register_rest_hole(hl) {
                Ok(k) => k,
                Err(x) => {
                    assert(!ok_arg(v@[i as int], h));
                    return Err(x);
                },
            };
                        Arg::Spread(Self::name_ref(&n))
                    } else {
                        Arg::Spread(match self.expr(x) {
                Ok(k) => k,
                Err(x) => {
                    assert(!ok_arg(v@[i as int], h));
                    return Err(x);
                },
            })
                    }
                },
            };
            proof {
                Self::lemma_advance(&*self, &d1, &d0, holes_args(v@.take(i as int)), holes_arg(v@[i as int]));
                assert(v@.take(i + 1).drop_last() =~= v@.take(i as int));
            }
            out.push(k);
            i = i + 1;
        }
        proof {
            assert(v@.take(v@.len() as int) =~= v@);
        }
        Ok(out)
    }

    /// Binary operators: `&&`, `||` and `??` become matches, `~a || b` and
    /// `~a && b` select on truthiness, the rest are primitives.
    fn binary(&mut self, e: &SExpr) -> (r: Result<Expr, DesugarError>)
        requires
            old(self).inv(),
            e is Binary,
        ensures
            final(self).inv(),
            r is Ok <==> ok_expr(*e, old(self).in_hask()),
            r is Ok ==> final(self).advanced(old(self), holes(*e)),
            r matches Ok(k) ==> lowers_binary(*e, k),
        decreases e, 2nat,
    {
        let ghost d0 = *self;
        match e {
            SExpr::Binary { op, left, right } => {
                let loose = match &**left {
                    SExpr::Unary { op: UnOp::Loosen, .. } => true,
                    _ => false,
                };
                if loose && *op == BinOp::Or {
                    return self.escaped_or(e);
                }
                if loose && *op == BinOp::And {
                    return self.escaped_and(e);
                }
                let a = match self.expr(left) {
                    Ok(k) => k,
                    Err(x) => {
                        return Err(x);
                    },
                };
                let ghost d1 = *self;
                if *op == BinOp::Or {
                    let t = self.c_bool(true);
                    let ghost d1b = *self;
                    let b = match self.expr(right) {
                        Ok(k) => k,
                        Err(x) => {
                            return Err(x);
                        },
                    };
                    let ghost d2 = *self;
                    let k = self.bool_match(a, t, b);
                    proof {
                        Self::lemma_then_unchanged(&d1b, &d1, &d0, holes(**left));
                        Self::lemma_advance(&d2, &d1b, &d0, holes(**left), holes(**right));
                        Self::lemma_then_unchanged(&*self, &d2, &d0, holes(*e));
                    }
                    return Ok(k);
                }
                let b = match self.expr(right) {
                    Ok(k) => k,
                    Err(x) => {
                        return Err(x);
                    },
                };
                let ghost d2 = *self;
                proof {
                    Self::lemma_advance(&d2, &d1, &d0, holes(**left), holes(**right));
                }
                let k = if *op == BinOp::And {
                    let f = self.c_bool(false);
                    self.bool_match(a, b, f)
                } else if *op == BinOp::NullOr {
                    self.null_or(a, b)
                } else {
                    prim(prim_of_binary(*op), a, b)
                };
                proof {
                    Self::lemma_then_unchanged(&*self, &d2, &d0, holes(*e));
                }
                Ok(k)
            },
            _ => err("expected a binary expression"),
        }
    }

    /// `~a || b`: `a` itself when truthy, else `b`.
    fn escaped_or(&mut self, e: &SExpr) -> (r: Result<Expr, DesugarError>)
        requires
            old(self).inv(),
            *e matches SExpr::Binary { left, .. } && loosened(*left),
        ensures
            final(self).inv(),
            r is Ok <==> ok_expr(*e, old(self).in_hask()),
            r is Ok ==> final(self).advanced(old(self), holes(*e)),
            r matches Ok(k) ==> escaped_or_shape(k) && lowers(*(*e->Binary_left)->Unary_operand, scrut(k)) && lowers(*e->Binary_right, arm_res(k, 0)),
        decreases e, 1nat,
    {
        let ghost d0 = *self;
        match e {
            SExpr::Binary { left, right, .. } => match &**left {
                SExpr::Unary { operand, .. } => {
                    proof {
                        assert(ok_expr(**left, d0.in_hask()) == ok_expr(**operand, d0.in_hask()));
                        assert(holes(**left) == holes(**operand));
                    }
                    let s = match self.expr(operand) {
                    Ok(k) => k,
                    Err(x) => {
                        return Err(x);
                    },
                };
                    let ghost d1 = *self;
                    let b1 = match self.expr(right) {
                    Ok(k) => k,
                    Err(x) => {
                        return Err(x);
                    },
                };
                    let ghost d2 = *self;
                    let b2 = clone_expr(&b1);
                    let v = self.fresh("esc");
                    let fp = self.p_bool(false);
                    let np = self.p_null();
                    let vr = Self::name_ref(&v);
                    proof {
                        Self::lemma_advance(&d2, &d1, &d0, holes(**operand), holes(**right));
                        Self::lemma_then_unchanged(&*self, &d2, &d0, holes(*e));
                    }
                    Ok(Expr::Match(Match {
                        scrutinee: Some(Box::new(s)),
                        items: vec![
                            MatchItem::Arm(Arm { pattern: Some(fp), guard: None, result: b1 }),
                            MatchItem::Arm(Arm { pattern: Some(np), guard: None, result: b2 }),
                            MatchItem::Arm(Arm { pattern: Some(Pat::Bind(v)), guard: None, result: vr }),
                        ],
                    }))
                },
                _ => err("expected `~` on the left"),
            },
            _ => err("expected a binary expression"),
        }
    }

    /// `~a && b`: `b` when `a` is truthy, else the falsy value itself.
    fn escaped_and(&mut self, e: &SExpr) -> (r: Result<Expr, DesugarError>)
        requires
            old(self).inv(),
            *e matches SExpr::Binary { left, .. } && loosened(*left),
        ensures
            final(self).inv(),
            r is Ok <==> ok_expr(*e, old(self).in_hask()),
            r is Ok ==> final(self).advanced(old(self), holes(*e)),
            r matches Ok(k) ==> escaped_and_shape(k) && lowers(*(*e->Binary_left)->Unary_operand, scrut(k)) && lowers(*e->Binary_right, arm_res(k, 2)),
        decreases e, 1nat,
    {
        let ghost d0 = *self;
        match e {
            SExpr::Binary { left, right, .. } => match &**left {
                SExpr::Unary { operand, .. } => {
                    proof {
                        assert(ok_expr(**left, d0.in_hask()) == ok_expr(**operand, d0.in_hask()));
                        assert(holes(**left) == holes(**operand));
                    }
                    let s = match self.expr(operand) {
                    Ok(k) => k,
                    Err(x) => {
                        return Err(x);
                    },
                };
                    let ghost d1 = *self;
                    let b1 = match self.expr(right) {
                    Ok(k) => k,
                    Err(x) => {
                        return Err(x);
                    },
                };
                    let ghost d2 = *self;
                    let false_c = self.c_bool(false);
                    let null_c = self.c_null();
                    let fp = self.p_bool(false);
                    let np = self.p_null();
                    let v = self.fresh("esc");
                    proof {
                        Self::lemma_advance(&d2, &d1, &d0, holes(**operand), holes(**right));
                        Self::lemma_then_unchanged(&*self, &d2, &d0, holes(*e));
                    }
                    Ok(Expr::Match(Match {
                        scrutinee: Some(Box::new(s)),
                        items: vec![
                            MatchItem::Arm(Arm { pattern: Some(fp), guard: None, result: false_c }),
                            MatchItem::Arm(Arm { pattern: Some(np), guard: None, result: null_c }),
                            MatchItem::Arm(Arm { pattern: Some(Pat::Bind(v)), guard: None, result: b1 }),
                        ],
                    }))
                },
                _ => err("expected `~` on the left"),
            },
            _ => err("expected a binary expression"),
        }
    }

    /// Unary operators: `-x` is a primitive, `!x` a match on `x`, `!~x` the
    /// falsiness test and `~x` the truthiness test.
    fn unary(&mut self, e: &SExpr) -> (r: Result<Expr, DesugarError>)
        requires
            old(self).inv(),
            e is Unary,
        ensures
            final(self).inv(),
            r is Ok <==> ok_expr(*e, old(self).in_hask()),
            r is Ok ==> final(self).advanced(old(self), holes(*e)),
            r matches Ok(k) ==> lowers_unary(*e, k),
        decreases e, 2nat,
    {
        let ghost d0 = *self;
        match e {
            SExpr::Unary { op, operand } => {
                if *op == UnOp::Neg {
                    let x = match self.expr(operand) {
                    Ok(k) => k,
                    Err(x) => {
                        return Err(x);
                    },
                };
                    return Ok(Expr::PrimOp { op: PrimOp::Neg, args: vec![x] });
                }
                if *op == UnOp::Not {
                    match &**operand {
                        SExpr::Unary { op: UnOp::Loosen, operand: inner } => {
                            proof {
                                assert(ok_expr(**operand, d0.in_hask()) == ok_expr(**inner, d0.in_hask()));
                                assert(holes(**operand) == holes(**inner));
                            }
                            let a = match self.expr(inner) {
                    Ok(k) => k,
                    Err(x) => {
                        return Err(x);
                    },
                };
                            let ghost d1 = *self;
                            let t = self.c_bool(true);
                            let f = self.c_bool(false);
                            let k = self.falsy_set_match(a, t, f);
                            proof {
                                Self::lemma_then_unchanged(&*self, &d1, &d0, holes(*e));
                            }
                            return Ok(k);
                        },
                        _ => {},
                    }
                    let x = match self.expr(operand) {
                    Ok(k) => k,
                    Err(x) => {
                        return Err(x);
                    },
                };
                    let ghost d1 = *self;
                    let f = self.c_bool(false);
                    let t = self.c_bool(true);
                    let k = self.bool_match(x, f, t);
                    proof {
                        Self::lemma_then_unchanged(&*self, &d1, &d0, holes(*e));
                    }
                    return Ok(k);
                }
                let a = match self.expr(operand) {
                    Ok(k) => k,
                    Err(x) => {
                        return Err(x);
                    },
                };
                let ghost d1 = *self;
                let t = self.c_bool(true);
                let f = self.c_bool(false);
                let k = self.falsy_set_match(a, f, t);
                proof {
                    Self::lemma_then_unchanged(&*self, &d1, &d0, holes(*e));
                }
                Ok(k)
            },
            _ => err("expected a unary expression"),
        }
    }

    // ── Matches and arms ─────────────────────────────────────────────────────

    fn match_expr(&mut self, e: &SExpr) -> (r: Result<Expr, DesugarError>)
        requires
            old(self).inv(),
            e is Match,
        ensures
            final(self).inv(),
            r is Ok <==> ok_expr(*e, old(self).in_hask()),
            r is Ok ==> final(self).advanced(old(self), holes(*e)),
            r matches Ok(k) ==> lowers(*e, k),
        decreases e, 2nat,
    {
        let ghost d0 = *self;
        let ghost h = self.in_hask();
        match e {
            SExpr::Match { scrutinee, arms } => {
                let s = match self.expr(scrutinee) {
                    Ok(k) => k,
                    Err(x) => {
                        return Err(x);
                    },
                };
                let ghost hs = holes(**scrutinee);
                let mut items: Vec<MatchItem> = Vec::new();
                let mut i: usize = 0;
                proof {
                    assert(arms@.take(0) =~= Seq::<SArm>::empty());
                    lemma_combine_unit(hs);
                }
                while i < arms.len()
                    invariant
                        i <= arms@.len(),
                        *e == (SExpr::Match { scrutinee: *scrutinee, arms: *arms }),
                        h == d0.in_hask(),
                        h == old(self).in_hask(),
                        hs == holes(**scrutinee),
                        self.inv(),
                        self.advanced(&d0, combine(hs, holes_arms(arms@.take(i as int)))),
                        forall|j: int| 0 <= j < i ==> ok_arm(#[trigger] arms@[j], h),
                        lowers_arms(arms@.take(i as int), items@),
                    decreases arms@.len() - i,
                {
                    proof {
                        assert(decreases_to!(*e => *arms));
                        assert(decreases_to!(*arms => arms@[i as int]));
                    }
                    let ghost d1 = *self;
                    let ghost before = items@;
                    let mut ks = match self.arm(&arms[i]) {
                        Ok(ks) => ks,
                        Err(x) => {
                            assert(!ok_arm(arms@[i as int], h));
                            return Err(x);
                        },
                    };
                    let ghost kss = ks@;
                    items.append(&mut ks);
                    proof {
                        let t = arms@.take(i as int);
                        let t1 = arms@.take(i + 1);
                        Self::lemma_advance(&*self, &d1, &d0, combine(hs, holes_arms(t)), holes_arm(arms@[i as int]));
                        lemma_combine_assoc(hs, holes_arms(t), holes_arm(arms@[i as int]));
                        assert(t1.drop_last() =~= t);
                        assert(items@.subrange(0, items@.len() - kss.len()) =~= before);
                        assert(items@.subrange(items@.len() - kss.len(), items@.len() as int) =~= kss);
                    }
                    i = i + 1;
                }
                proof {
                    assert(arms@.take(arms@.len() as int) =~= arms@);
                }
                Ok(Expr::Match(Match { scrutinee: Some(Box::new(s)), items }))
            },
            _ => err("expected a match"),
        }
    }

    /// One surface arm lowers to one kernel arm per alternative; a top-level
    /// pin becomes an equality guard.
    fn arm(&mut self, a: &SArm) -> (r: Result<Vec<MatchItem>, DesugarError>)
        requires
            old(self).inv(),
        ensures
            final(self).inv(),
            r is Ok <==> ok_arm(*a, old(self).in_hask()),
            r is Ok ==> final(self).advanced(old(self), holes_arm(*a)),
            r matches Ok(ks) ==> lowers_arm(*a, ks@),
        decreases a, 0nat,
    {
        let ghost d0 = *self;
        let result = match self.expr(&a.result) {
            Ok(k) => k,
            Err(x) => {
                return Err(x);
            },
        };
        let ghost d1 = *self;
        let base_guard = match self.opt_guard(&a.guard) {
            Ok(g) => g,
            Err(x) => {
                return Err(x);
            },
        };
        let ghost d2 = *self;
        let out = match self.arm_items(a, result, base_guard) {
            Ok(o) => o,
            Err(x) => {
                return Err(x);
            },
        };
        proof {
            Self::lemma_advance(&d2, &d1, &d0, holes(a.result), holes_guard_opt(a.guard));
            Self::lemma_then_unchanged(&*self, &d2, &d0, holes_arm(*a));
        }
        Ok(out)
    }

    /// An optional arm guard.
    fn opt_guard(&mut self, g: &Option<SExpr>) -> (r: Result<Option<Expr>, DesugarError>)
        requires
            old(self).inv(),
        ensures
            final(self).inv(),
            r is Ok <==> match *g {
                Some(x) => ok_expr(x, old(self).in_hask()),
                None => true,
            },
            r is Ok ==> final(self).advanced(old(self), holes_guard_opt(*g)),
            r matches Ok(k) ==> lowers_guard_opt(*g, k),
        decreases g, 0nat,
    {
        let ghost d0 = *self;
        match g {
            Some(x) => match self.guard(x) {
                Ok(k) => Ok(Some(k)),
                Err(e) => Err(e),
            },
            None => {
                proof {
                    lemma_combine_unit(d0.top());
                }
                Ok(None)
            },
        }
    }

    /// The kernel arms of a surface arm, given its lowered result and guard.
    fn arm_items(&mut self, a: &SArm, result: Expr, base_guard: Option<Expr>) -> (r: Result<Vec<MatchItem>, DesugarError>)
        requires
            old(self).inv(),
            lowers(a.result, result),
            lowers_guard_opt(a.guard, base_guard),
        ensures
            final(self).inv(),
            final(self).unchanged_holes(old(self)),
            r is Ok <==> ok_arm_pattern(a.pattern),
            r matches Ok(ks) ==> lowers_arm(*a, ks@),
    {
        match &a.pattern {
            None => {
                let out = vec![MatchItem::Arm(Arm { pattern: None, guard: base_guard, result })];
                assert(out@.len() == 1);
                assert(lowers_arm(*a, out@));
                Ok(out)
            },
            Some(p) => {
                let out = match self.alternatives(p, &result, &base_guard) {
                    Ok(o) => o,
                    Err(x) => {
                        return Err(x);
                    },
                };
                proof {
                    assert(lowers(a.result, result) && lowers_guard_opt(a.guard, base_guard));
                    assert(out@.len() == arm_count(*a));
                    assert(a.pattern == Some(*p));
                    let ghost r0 = result;
                    let ghost g0 = base_guard;
                    assert(forall|i: int| 0 <= i < out@.len() ==> (#[trigger] out@[i] matches MatchItem::Arm(x) && expr_deq(r0, x.result)
                        && lowers_alt(alt_at(*p, i), g0, x.pattern, x.guard)));
                    assert(lowers(a.result, r0) && lowers_guard_opt(a.guard, g0) && copied_from(r0, g0));
                    assert(lowers_arm(*a, out@));
                }
                Ok(out)
            },
        }
    }

    /// The kernel arms of an arm pattern: one per alternative, each with a
    /// copy of the lowered result and guard.
    fn alternatives(&mut self, p: &SPattern, result: &Expr, base_guard: &Option<Expr>) -> (r: Result<
        Vec<MatchItem>,
        DesugarError,
    >)
        requires
            old(self).inv(),
        ensures
            final(self).inv(),
            final(self).unchanged_holes(old(self)),
            r is Ok <==> ok_arm_pattern(Some(*p)),
            r matches Ok(ks) ==> ks@.len() == (if p is Alt { p->Alt_0@.len() } else { 1 })
                && forall|m: int| 0 <= m < ks@.len() ==> (#[trigger] ks@[m] matches MatchItem::Arm(x) && expr_deq(*result, x.result)
                && lowers_alt(alt_at(*p, m), *base_guard, x.pattern, x.guard)),
    {
        let ghost d0 = *self;
        match p {
            SPattern::Alt(alts) => {
                let mut j: usize = 0;
                while j < alts.len()
                    invariant
                        j <= alts@.len(),
                        *p == SPattern::Alt(*alts),
                        self.inv(),
                        *self == d0,
                        d0 == *old(self),
                        forall|m: int| 0 <= m < j ==> !binds(#[trigger] alts@[m]),
                    decreases alts@.len() - j,
                {
                    if first_binding(&alts[j]).is_some() {
                        assert(binds(alts@[j as int]));
                        return err("alternation alternatives are binding-free");
                    }
                    j = j + 1;
                }
            },
            _ => {},
        }
        let n: usize = match p {
            SPattern::Alt(alts) => alts.len(),
            _ => 1,
        };
        let mut out: Vec<MatchItem> = Vec::new();
        let mut j: usize = 0;
        while j < n
            invariant
                j <= n,
                n == (if p is Alt { p->Alt_0@.len() } else { 1 }),
                p is Alt ==> forall|m: int| 0 <= m < n ==> !binds(#[trigger] p->Alt_0@[m]),
                self.inv(),
                self.unchanged_holes(&d0),
                d0 == *old(self),
                out@.len() == j,
                p is Alt ==> forall|m: int| 0 <= m < j ==> ok_arm_pat(#[trigger] p->Alt_0@[m]),
                !(p is Alt) && j > 0 ==> ok_arm_pat(*p),
                forall|m: int| 0 <= m < j ==> (#[trigger] out@[m] matches MatchItem::Arm(x) && expr_deq(*result, x.result)
                    && lowers_alt(alt_at(*p, m), *base_guard, x.pattern, x.guard)),
            decreases n - j,
        {
            let alt: &SPattern = match p {
                SPattern::Alt(alts) => &alts[j],
                _ => p,
            };
            let g = clone_guard(base_guard);
            let (pat, guard) = match self.arm_pattern(alt, g) {
                Ok(x) => x,
                Err(x) => {
                    assert(!ok_arm_pat(alt_at(*p, j as int)));
                    return Err(x);
                },
            };
            let res = clone_expr(result);
            out.push(MatchItem::Arm(Arm { pattern: Some(pat), guard, result: res }));
            j = j + 1;
        }
        Ok(out)
    }

    /// Lowers one alternative of an arm pattern under the arm's guard: a
    /// top-level pin `^name` binds a fresh temporary and guards on equality.
    fn arm_pattern(&mut self, p: &SPattern, base_guard: Option<Expr>) -> (r: Result<(Pat, Option<Expr>), DesugarError>)
        requires
            old(self).inv(),
        ensures
            final(self).inv(),
            final(self).unchanged_holes(old(self)),
            r is Ok <==> ok_arm_pat(*p),
            r matches Ok((q, g)) ==> (if p is Pin {
                &&& q matches Pat::Bind(t)
                &&& synthetic(t@)
                &&& g matches Some(gk)
                &&& match base_guard {
                    None => pin_eq(gk, t@, p->Pin_0@),
                    Some(b) => bool_match_shape(gk) && pin_eq(scrut(gk), t@, p->Pin_0@) && arm_res(gk, 0) == b
                        && const_bool(arm_res(gk, 1), false),
                }
            } else {
                lowers_pat(*p, q) && g == base_guard
            }),
    {
        match p {
            SPattern::Pin(name) => {
                let tmp = self.fresh("pin");
                let eq = prim(PrimOp::Eq, Self::name_ref(&tmp), Self::name_ref(name));
                let guard = match base_guard {
                    Some(g) => Some(self.and_exprs(eq, g)),
                    None => Some(eq),
                };
                Ok((Pat::Bind(tmp), guard))
            },
            _ => {
                let q = match self.pattern(p) {
                    Ok(q) => q,
                    Err(x) => {
                        return Err(x);
                    },
                };
                Ok((q, base_guard))
            },
        }
    }

    /// Kernel `&&` over two lowered Boolean expressions.
    fn and_exprs(&mut self, a: Expr, b: Expr) -> (r: Expr)
        requires
            old(self).inv(),
        ensures
            final(self).inv(),
            final(self).unchanged_holes(old(self)),
            bool_match_shape(r),
            scrut(r) == a,
            arm_res(r, 0) == b,
            const_bool(arm_res(r, 1), false),
    {
        let f = self.c_bool(false);
        self.bool_match(a, b, f)
    }

    /// A guard is a strict tested seat; a `~`-loosened guard becomes the
    /// truthiness test.
    fn guard(&mut self, g: &SExpr) -> (r: Result<Expr, DesugarError>)
        requires
            old(self).inv(),
        ensures
            final(self).inv(),
            r is Ok <==> ok_expr(*g, old(self).in_hask()),
            r is Ok ==> final(self).advanced(old(self), holes(*g)),
            r matches Ok(k) ==> lowers_guard(*g, k),
        decreases g, 4nat,
    {
        let ghost d0 = *self;
        match g {
            SExpr::Unary { op: UnOp::Loosen, operand } => {
                let a = match self.expr(operand) {
                    Ok(k) => k,
                    Err(x) => {
                        return Err(x);
                    },
                };
                let ghost d1 = *self;
                let t = self.c_bool(true);
                let f = self.c_bool(false);
                let k = self.falsy_set_match(a, f, t);
                proof {
                    Self::lemma_then_unchanged(&*self, &d1, &d0, holes(*g));
                }
                Ok(k)
            },
            _ => self.expr(g),
        }
    }

    // ── Arrows, blocks, bindings ─────────────────────────────────────────────

    fn arrow(&mut self, a: &SArrow) -> (r: Result<Lambda, DesugarError>)
        requires
            old(self).inv(),
        ensures
            final(self).inv(),
            r is Ok <==> ok_arrow(*a, old(self).in_hask()),
            r is Ok ==> final(self).advanced(old(self), holes_arrow(*a)),
            r matches Ok(l) ==> lowers_arrow(*a, l),
        decreases a, 0nat,
    {
        let ghost d0 = *self;
        let params = match self.params_pattern(&a.params) {
            Ok(k) => k,
            Err(x) => {
                return Err(x);
            },
        };
        let ghost d1 = *self;
        let body = match &*a.body {
            SArrowBody::Expr(x) => match self.expr(x) {
                Ok(k) => k,
                Err(x) => {
                    return Err(x);
                },
            },
            SArrowBody::Block(ss) => match self.block_match(ss) {
                Ok(m) => Expr::Match(m),
                Err(x) => {
                    return Err(x);
                },
            },
        };
        proof {
            lemma_combine_unit(holes_arrow(*a));
            Self::lemma_unchanged(&d1, &d0);
            Self::lemma_advance(&*self, &d1, &d0, no_holes(), holes_arrow(*a));
        }
        Ok(Lambda { params, body: Box::new(body), act_kind: ActKind::Pure })
    }

    /// A block lowers to a `Match` with no scrutinee: bindings and statements
    /// in order, arm exits as guarded or unguarded arms.
    fn block_match(&mut self, v: &Vec<SStmt>) -> (r: Result<Match, DesugarError>)
        requires
            old(self).inv(),
        ensures
            final(self).inv(),
            r is Ok <==> forall|i: int| 0 <= i < v@.len() ==> ok_block_stmt(#[trigger] v@[i], old(self).in_hask()),
            r is Ok ==> final(self).advanced(old(self), holes_stmts(v@)),
            r matches Ok(m) ==> lowers_block(v@, m),
        decreases v, 0nat,
    {
        let ghost d0 = *self;
        let ghost h = self.in_hask();
        let mut out: Vec<MatchItem> = Vec::new();
        let mut i: usize = 0;
        proof {
            assert(v@.take(0) =~= Seq::<SStmt>::empty());
            lemma_combine_unit(d0.top());
        }
        while i < v.len()
            invariant
                i <= v@.len(),
                h == d0.in_hask(),
                h == old(self).in_hask(),
                self.inv(),
                self.advanced(&d0, holes_stmts(v@.take(i as int))),
                out@.len() == i,
                forall|j: int| 0 <= j < i ==> ok_block_stmt(#[trigger] v@[j], h),
                forall|j: int| 0 <= j < i ==> lowers_stmt(#[trigger] v@[j], out@[j]),
            decreases v@.len() - i,
        {
            proof {
                assert(decreases_to!(*v => v@[i as int]));
            }
            let ghost d1 = *self;
            let st = &v[i];
            let it = match st {
                SStmt::Binding(b) => match self.binding(b) {
                    Ok(x) => MatchItem::Bind(x),
                    Err(x) => {
                        assert(!ok_block_stmt(v@[i as int], h));
                        return Err(x);
                    },
                },
                SStmt::Expr(x) => match self.expr(x) {
                    Ok(k) => MatchItem::Stmt(k),
                    Err(x) => {
                        assert(!ok_block_stmt(v@[i as int], h));
                        return Err(x);
                    },
                },
                SStmt::Mutation { .. } => match self.mutation(st) {
                    Ok(k) => MatchItem::Stmt(k),
                    Err(x) => {
                        assert(!ok_block_stmt(v@[i as int], h));
                        return Err(x);
                    },
                },
                SStmt::WhenArm { guard, result } => {
                    let g = match self.guard(guard) {
                        Ok(k) => k,
                        Err(x) => {
                            assert(!ok_block_stmt(v@[i as int], h));
                            return Err(x);
                        },
                    };
                    let ghost d2 = *self;
                    let r = match self.expr(result) {
                        Ok(k) => k,
                        Err(x) => {
                            assert(!ok_block_stmt(v@[i as int], h));
                            return Err(x);
                        },
                    };
                    proof {
                        Self::lemma_advance(&*self, &d2, &d1, holes(*guard), holes(*result));
                    }
                    MatchItem::Arm(Arm { pattern: None, guard: Some(g), result: r })
                },
                SStmt::ElseArm { result } => match self.expr(result) {
                    Ok(k) => MatchItem::Arm(Arm { pattern: None, guard: None, result: k }),
                    Err(x) => {
                        assert(!ok_block_stmt(v@[i as int], h));
                        return Err(x);
                    },
                },
                _ => {
                    assert(!ok_block_stmt(v@[i as int], h));
                    return err("declarations are not allowed inside a block body");
                },
            };
            proof {
                Self::lemma_advance(&*self, &d1, &d0, holes_stmts(v@.take(i as int)), holes_stmt(v@[i as int]));
                assert(v@.take(i + 1).drop_last() =~= v@.take(i as int));
            }
            out.push(it);
            i = i + 1;
        }
        proof {
            assert(v@.take(v@.len() as int) =~= v@);
        }
        Ok(Match { scrutinee: None, items: out })
    }

    fn binding(&mut self, b: &SBinding) -> (r: Result<Bind, DesugarError>)
        requires
            old(self).inv(),
        ensures
            final(self).inv(),
            r is Ok <==> ok_binding(*b, old(self).in_hask()),
            r is Ok ==> final(self).advanced(old(self), holes(b.value)),
            r matches Ok(x) ==> lowers_binding(*b, x),
        decreases b, 0nat,
    {
        let ghost d0 = *self;
        let target = match self.bind_target(&b.target) {
            Ok(k) => k,
            Err(x) => {
                return Err(x);
            },
        };
        let ghost d1 = *self;
        let value = match self.expr(&b.value) {
            Ok(k) => k,
            Err(x) => {
                return Err(x);
            },
        };
        proof {
            Self::lemma_unchanged(&d1, &d0);
            Self::lemma_advance(&*self, &d1, &d0, no_holes(), holes(b.value));
            lemma_combine_unit(holes(b.value));
        }
        Ok(Bind { target, value, exported: b.exported })
    }

    // ── Mutation ─────────────────────────────────────────────────────────────

    /// `path op:= value`. A lone slice segment under `:=` splices:
    /// `items[a...b] := r` writes `[...items[...a], ...r, ...items[b...]]`.
    /// A field path writes a functional update of the root whose innermost
    /// value combines the current value with the right-hand side.
    fn mutation(&mut self, s: &SStmt) -> (r: Result<Expr, DesugarError>)
        requires
            old(self).inv(),
        ensures
            final(self).inv(),
            r is Ok <==> ok_mutation(*s, old(self).in_hask()),
            r is Ok ==> final(self).advanced(old(self), holes_mutation(*s)),
            r matches Ok(k) ==> lowers_mutation(*s, k),
        decreases s, 0nat,
    {
        let ghost d0 = *self;
        match s {
            SStmt::Mutation { path, op, value } => {
                let sole_slice = path.segments.len() == 1 && match &path.segments[0] {
                    SPathSeg::Slice { .. } => true,
                    _ => false,
                };
                if sole_slice {
                    if *op != MutOp::Assign {
                        return err("compound assignment on a slice is not defined; use `:=`");
                    }
                    let rv = match self.expr(value) {
                        Ok(k) => k,
                        Err(x) => {
                            return Err(x);
                        },
                    };
                    let ghost d1 = *self;
                    let (lo, hi) = match &path.segments[0] {
                        SPathSeg::Slice { lo, hi } => (lo, hi),
                        _ => {
                            return err("expected a slice");
                        },
                    };
                    let mut elems: Vec<Element> = Vec::new();
                    match lo {
                        Some(a) => {
                            let a_k = match self.expr(a) {
                                Ok(k) => k,
                                Err(x) => {
                                    return Err(x);
                                },
                            };
                            elems.push(Element::Spread(slice_of(&path.root, None, Some(Box::new(a_k)))));
                        },
                        None => {
                            proof {
                                lemma_combine_unit(holes(*value));
                            }
                        },
                    }
                    let ghost d2 = *self;
                    let ghost hl = match lo {
                        Some(a) => holes(*a),
                        None => no_holes(),
                    };
                    proof {
                        if lo is None {
                            lemma_combine_unit(d1.top());
                        }
                        Self::lemma_advance(&d2, &d1, &d0, holes(*value), hl);
                    }
                    elems.push(Element::Spread(rv));
                    match hi {
                        Some(b) => {
                            let b_k = match self.expr(b) {
                                Ok(k) => k,
                                Err(x) => {
                                    return Err(x);
                                },
                            };
                            elems.push(Element::Spread(slice_of(&path.root, Some(Box::new(b_k)), None)));
                        },
                        None => {},
                    }
                    let ghost hh = match hi {
                        Some(b) => holes(*b),
                        None => no_holes(),
                    };
                    proof {
                        if hi is None {
                            lemma_combine_unit(d2.top());
                        }
                        Self::lemma_advance(&*self, &d2, &d0, combine(holes(*value), hl), hh);
                    }
                    return Ok(Expr::Write { slot: SlotRef::Name(path.root.clone()), value: Box::new(Expr::TupleCons(elems)) });
                }
                let fields = match field_names(&path.segments) {
                    Some(fs) => fs,
                    None => {
                        return err("index mutation and non-terminal slices are not lowered");
                    },
                };
                let rhs = match self.expr(value) {
                    Ok(k) => k,
                    Err(x) => {
                        return Err(x);
                    },
                };
                let ghost d1 = *self;
                let new_value = if *op == MutOp::Assign {
                    rhs
                } else {
                    let read = read_path(&path.root, &fields, fields.len());
                    self.combine(*op, read, rhs)
                };
                let updated = field_update(&path.root, &fields, new_value);
                proof {
                    assert(fields@.take(fields@.len() as int) =~= fields@);
                    Self::lemma_then_unchanged(&*self, &d1, &d0, holes(*value));
                }
                Ok(Expr::Write { slot: SlotRef::Name(path.root.clone()), value: Box::new(updated) })
            },
            _ => err("expected a mutation"),
        }
    }

    /// The value a compound assignment writes: `read op rhs`.
    fn combine(&mut self, op: MutOp, read: Expr, rhs: Expr) -> (r: Expr)
        requires
            old(self).inv(),
        ensures
            final(self).inv(),
            final(self).unchanged_holes(old(self)),
            op == MutOp::Assign ==> r == rhs,
            op == MutOp::And ==> bool_match_shape(r) && scrut(r) == read && arm_res(r, 0) == rhs && const_bool(
                arm_res(r, 1),
                false,
            ),
            op == MutOp::Or ==> bool_match_shape(r) && scrut(r) == read && const_bool(arm_res(r, 0), true)
                && arm_res(r, 1) == rhs,
            op == MutOp::Null ==> null_or_shape(r) && scrut(r) == read && arm_res(r, 0) == rhs,
            (op != MutOp::Assign && op != MutOp::And && op != MutOp::Or && op != MutOp::Null) ==> prim2(
                r,
                prim_of_mut(op),
            ) && prim_arg(r, 0) == read && prim_arg(r, 1) == rhs,
    {
        match op {
            MutOp::Assign => rhs,
            MutOp::Add => prim(PrimOp::Add, read, rhs),
            MutOp::Sub => prim(PrimOp::Sub, read, rhs),
            MutOp::Mul => prim(PrimOp::Mul, read, rhs),
            MutOp::Div => prim(PrimOp::Div, read, rhs),
            MutOp::Rem => prim(PrimOp::Rem, read, rhs),
            MutOp::Pow => prim(PrimOp::Pow, read, rhs),
            MutOp::And => {
                let f = self.c_bool(false);
                self.bool_match(read, rhs, f)
            },
            MutOp::Or => {
                let t = self.c_bool(true);
                self.bool_match(read, t, rhs)
            },
            MutOp::Null => self.null_or(read, rhs),
        }
    }

    // ── Patterns ─────────────────────────────────────────────────────────────

    fn pattern(&mut self, p: &SPattern) -> (r: Result<Pat, DesugarError>)
        requires
            old(self).inv(),
        ensures
            final(self).inv(),
            final(self).unchanged_holes(old(self)),
            r is Ok <==> ok_pat(*p),
            r matches Ok(q) ==> lowers_pat(*p, q),
        decreases p,
    {
        match p {
            SPattern::Number(n) => Ok(Pat::Const(self.interner.number(n.clone()))),
            SPattern::Str(u) => Ok(Pat::Const(self.interner.string_units(clone_units(u)))),
            SPattern::Prelude(name) => {
                if str_is(name, "true") {
                    Ok(self.p_bool(true))
                } else if str_is(name, "false") {
                    Ok(self.p_bool(false))
                } else {
                    Ok(self.p_null())
                }
            },
            SPattern::Bind(n) => Ok(Pat::Bind(n.clone())),
            SPattern::Wild => Ok(Pat::Wild),
            SPattern::Contract(n) => Ok(Pat::Contract(Ref::Immutable(BindingRef::Name(n.clone())))),
            SPattern::Tuple(es) => {
                let qs = match self.pat_elems(es) {
                    Ok(qs) => qs,
                    Err(x) => {
                        return Err(x);
                    },
                };
                Ok(Pat::Tuple(qs))
            },
            SPattern::Record(fs, exact) => {
                let qs = match self.pat_fields(fs) {
                    Ok(qs) => qs,
                    Err(x) => {
                        return Err(x);
                    },
                };
                Ok(Pat::Record { fields: qs, exact: *exact })
            },
            SPattern::Pin(_) => err("pins are only supported at the top level of an arm pattern"),
            SPattern::PinHole(_) => err("pins are only supported at the top level of an arm pattern"),
            SPattern::Alt(_) => err("nested alternation is not lowered"),
        }
    }

    fn pat_elems(&mut self, v: &Vec<SPatElem>) -> (r: Result<Vec<PatElem>, DesugarError>)
        requires
            old(self).inv(),
        ensures
            final(self).inv(),
            final(self).unchanged_holes(old(self)),
            r is Ok <==> ok_pat_elems(v@),
            r matches Ok(qs) ==> lowers_pat_elems(v@, qs@),
        decreases v,
    {
        let ghost d0 = *self;
        let mut out: Vec<PatElem> = Vec::new();
        let mut i: usize = 0;
        while i < v.len()
            invariant
                i <= v@.len(),
                self.inv(),
                self.unchanged_holes(&d0),
                d0 == *old(self),
                out@.len() == i,
                forall|j: int| 0 <= j < i ==> ok_pat_elem(#[trigger] v@[j]),
                forall|j: int| 0 <= j < i ==> lowers_pat_elem(#[trigger] v@[j], out@[j]),
            decreases v@.len() - i,
        {
            proof {
                assert(decreases_to!(*v => v@[i as int]));
            }
            let q = match &v[i] {
                SPatElem::Pat(p) => match self.pattern(p) {
                    Ok(q) => PatElem::Pat(q),
                    Err(x) => {
                        assert(!ok_pat_elem(v@[i as int]));
                        return Err(x);
                    },
                },
                SPatElem::Rest(n) => PatElem::Rest(clone_opt_name(n)),
            };
            out.push(q);
            i = i + 1;
        }
        Ok(out)
    }

    fn pat_fields(&mut self, v: &Vec<SPatField>) -> (r: Result<Vec<PatField>, DesugarError>)
        requires
            old(self).inv(),
        ensures
            final(self).inv(),
            final(self).unchanged_holes(old(self)),
            r is Ok <==> ok_pat_fields(v@),
            r matches Ok(qs) ==> lowers_pat_fields(v@, qs@),
        decreases v,
    {
        let ghost d0 = *self;
        let mut out: Vec<PatField> = Vec::new();
        let mut i: usize = 0;
        while i < v.len()
            invariant
                i <= v@.len(),
                self.inv(),
                self.unchanged_holes(&d0),
                d0 == *old(self),
                out@.len() == i,
                forall|j: int| 0 <= j < i ==> ok_pat_field(#[trigger] v@[j]),
                forall|j: int| 0 <= j < i ==> lowers_pat_field(#[trigger] v@[j], out@[j]),
            decreases v@.len() - i,
        {
            proof {
                assert(decreases_to!(*v => v@[i as int]));
            }
            let q = match &v[i] {
                SPatField::Field(key, Some(p)) => match self.pattern(p) {
                    Ok(q) => PatField::Field { key: key.clone(), pat: q },
                    Err(x) => {
                        assert(!ok_pat_field(v@[i as int]));
                        return Err(x);
                    },
                },
                SPatField::Field(key, None) => PatField::Field { key: key.clone(), pat: Pat::Bind(key.clone()) },
                SPatField::Rest(n) => PatField::Rest(clone_opt_name(n)),
            };
            out.push(q);
            i = i + 1;
        }
        Ok(out)
    }

    /// Parameters lower to a pattern over the complete argument tuple.
    fn params_pattern(&mut self, ps: &Vec<SParam>) -> (r: Result<Pat, DesugarError>)
        requires
            old(self).inv(),
        ensures
            final(self).inv(),
            final(self).unchanged_holes(old(self)),
            r is Ok <==> ok_params(ps@),
            r matches Ok(q) ==> lowers_params(ps@, q),
    {
        let ghost d0 = *self;
        let mut elems: Vec<PatElem> = Vec::new();
        let mut i: usize = 0;
        while i < ps.len()
            invariant
                i <= ps@.len(),
                self.inv(),
                self.unchanged_holes(&d0),
                d0 == *old(self),
                elems@.len() == i,
                forall|j: int| 0 <= j < i ==> ok_param(#[trigger] ps@[j]),
                forall|j: int| 0 <= j < i ==> lowers_param(#[trigger] ps@[j], elems@[j]),
            decreases ps@.len() - i,
        {
            let q = match &ps[i] {
                SParam::Ident(n) => PatElem::Pat(Pat::Bind(n.clone())),
                SParam::Tuple(es) => match self.pat_elems(es) {
                    Ok(qs) => PatElem::Pat(Pat::Tuple(qs)),
                    Err(x) => {
                        assert(!ok_param(ps@[i as int]));
                        return Err(x);
                    },
                },
                SParam::Record(fs, exact) => match self.pat_fields(fs) {
                    Ok(qs) => PatElem::Pat(Pat::Record { fields: qs, exact: *exact }),
                    Err(x) => {
                        assert(!ok_param(ps@[i as int]));
                        return Err(x);
                    },
                },
                SParam::Rest(n) => PatElem::Rest(Some(n.clone())),
            };
            elems.push(q);
            i = i + 1;
        }
        Ok(Pat::Tuple(elems))
    }

    fn bind_target(&mut self, t: &SBindTarget) -> (r: Result<BindTarget, DesugarError>)
        requires
            old(self).inv(),
        ensures
            final(self).inv(),
            final(self).unchanged_holes(old(self)),
            r is Ok <==> ok_target(*t),
            r matches Ok(k) ==> lowers_target(*t, k),
    {
        match t {
            SBindTarget::Name(n) => Ok(BindTarget::Name(n.clone())),
            SBindTarget::Tuple(es) => {
                let qs = match self.pat_elems(es) {
                    Ok(qs) => qs,
                    Err(x) => {
                        return Err(x);
                    },
                };
                Ok(BindTarget::Pattern(Pat::Tuple(qs)))
            },
            SBindTarget::Record(fs, exact) => {
                let qs = match self.pat_fields(fs) {
                    Ok(qs) => qs,
                    Err(x) => {
                        return Err(x);
                    },
                };
                Ok(BindTarget::Pattern(Pat::Record { fields: qs, exact: *exact }))
            },
        }
    }
}

/// `op(a, b)`.
fn prim(op: PrimOp, a: Expr, b: Expr) -> (r: Expr)
    ensures
        prim2(r, op),
        prim_arg(r, 0) == a,
        prim_arg(r, 1) == b,
{
    Expr::PrimOp { op, args: vec![a, b] }
}

/// The primitive of a strict binary operator.
fn prim_of_binary(op: BinOp) -> (r: PrimOp)
    ensures
        r == prim_of(op),
{
    match op {
        BinOp::Eq => PrimOp::Eq,
        BinOp::Ne => PrimOp::Ne,
        BinOp::Lt => PrimOp::Lt,
        BinOp::Le => PrimOp::Le,
        BinOp::Gt => PrimOp::Gt,
        BinOp::Ge => PrimOp::Ge,
        BinOp::Add => PrimOp::Add,
        BinOp::Sub => PrimOp::Sub,
        BinOp::Mul => PrimOp::Mul,
        BinOp::Div => PrimOp::Div,
        BinOp::Rem => PrimOp::Rem,
        _ => PrimOp::Pow,
    }
}

/// The first name a surface pattern binds, if any (alternatives must be
/// binding-free). Pins compare; record shorthand and captured rests bind.
fn first_binding(p: &SPattern) -> (r: Option<String>)
    ensures
        r is Some <==> binds(*p),
    decreases p, 1nat,
{
    match p {
        SPattern::Bind(name) => Some(name.clone()),
        SPattern::Tuple(es) => first_in_elems(es),
        SPattern::Record(fs, _) => first_in_fields(fs),
        SPattern::Alt(alts) => first_in_alts(alts),
        _ => None,
    }
}

fn first_in_elems(es: &Vec<SPatElem>) -> (r: Option<String>)
    ensures
        r is Some <==> exists|i: int| 0 <= i < es@.len() && elem_binds(#[trigger] es@[i]),
    decreases es, 0nat,
{
    let mut i: usize = 0;
    while i < es.len()
        invariant
            i <= es@.len(),
            forall|j: int| 0 <= j < i ==> !elem_binds(#[trigger] es@[j]),
        decreases es@.len() - i,
    {
        proof {
            assert(decreases_to!(*es => es@[i as int]));
        }
        let found = match &es[i] {
            SPatElem::Pat(inner) => first_binding(inner),
            SPatElem::Rest(Some(name)) => Some(name.clone()),
            SPatElem::Rest(None) => None,
        };
        if found.is_some() {
            assert(elem_binds(es@[i as int]));
            return found;
        }
        i = i + 1;
    }
    None
}

fn first_in_fields(fs: &Vec<SPatField>) -> (r: Option<String>)
    ensures
        r is Some <==> exists|i: int| 0 <= i < fs@.len() && field_binds(#[trigger] fs@[i]),
    decreases fs, 0nat,
{
    let mut i: usize = 0;
    while i < fs.len()
        invariant
            i <= fs@.len(),
            forall|j: int| 0 <= j < i ==> !field_binds(#[trigger] fs@[j]),
        decreases fs@.len() - i,
    {
        proof {
            assert(decreases_to!(*fs => fs@[i as int]));
        }
        let found = match &fs[i] {
            SPatField::Field(key, None) => Some(key.clone()),
            SPatField::Field(_, Some(inner)) => first_binding(inner),
            SPatField::Rest(Some(name)) => Some(name.clone()),
            SPatField::Rest(None) => None,
        };
        if found.is_some() {
            assert(field_binds(fs@[i as int]));
            return found;
        }
        i = i + 1;
    }
    None
}

fn first_in_alts(alts: &Vec<SPattern>) -> (r: Option<String>)
    ensures
        r is Some <==> exists|i: int| 0 <= i < alts@.len() && binds(#[trigger] alts@[i]),
    decreases alts, 0nat,
{
    let mut i: usize = 0;
    while i < alts.len()
        invariant
            i <= alts@.len(),
            forall|j: int| 0 <= j < i ==> !binds(#[trigger] alts@[j]),
        decreases alts@.len() - i,
    {
        proof {
            assert(decreases_to!(*alts => alts@[i as int]));
        }
        let found = first_binding(&alts[i]);
        if found.is_some() {
            return found;
        }
        i = i + 1;
    }
    None
}

/// The field names of a path made of field segments only.
fn field_names(segs: &Vec<SPathSeg>) -> (r: Option<Vec<String>>)
    ensures
        r is Some <==> forall|j: int| 0 <= j < segs@.len() ==> #[trigger] segs@[j] is Field,
        r matches Some(fs) ==> fs@ == path_fields(segs@),
{
    let mut fields: Vec<String> = Vec::new();
    let mut i: usize = 0;
    while i < segs.len()
        invariant
            i <= segs@.len(),
            fields@.len() == i,
            forall|j: int| 0 <= j < i ==> #[trigger] segs@[j] is Field,
            forall|j: int| 0 <= j < i ==> #[trigger] fields@[j] == segs@[j]->Field_0,
        decreases segs@.len() - i,
    {
        match &segs[i] {
            SPathSeg::Field(f) => fields.push(f.clone()),
            _ => {
                return None;
            },
        }
        i = i + 1;
    }
    assert(fields@ =~= path_fields(segs@));
    Some(fields)
}

/// `root[lo...hi]` (slices are always clamped-total).
fn slice_of(root: &String, lo: Option<Box<Expr>>, hi: Option<Box<Expr>>) -> (r: Expr)
    ensures
        slice_read(r, root@),
        r->Access_form->Slice_lo == lo,
        r->Access_form->Slice_hi == hi,
{
    Expr::Access {
        target: Box::new(Expr::Ref(Ref::Immutable(BindingRef::Name(root.clone())))),
        form: AccessForm::Slice { lo, hi },
        total: false,
    }
}

/// The read `root.f1…fn` of the first `n` fields (demand form).
fn read_path(root: &String, fields: &Vec<String>, n: usize) -> (r: Expr)
    requires
        n <= fields@.len(),
    ensures
        read_path_is(r, root@, fields@.take(n as int)),
{
    let mut node = Expr::Ref(Ref::Immutable(BindingRef::Name(root.clone())));
    let mut i: usize = 0;
    proof {
        assert(fields@.take(0) =~= Seq::<String>::empty());
    }
    while i < n
        invariant
            i <= n,
            n <= fields@.len(),
            read_path_is(node, root@, fields@.take(i as int)),
        decreases n - i,
    {
        node = Expr::Access { target: Box::new(node), form: AccessForm::Field(fields[i].clone()), total: false };
        proof {
            assert(fields@.take(i + 1).drop_last() =~= fields@.take(i as int));
        }
        i = i + 1;
    }
    node
}

/// Functional record update from level `j` down:
/// `{ ...root.f1…fj, fj+1: <update from level j + 1> }`, ending in `new_value`.
fn update_from(root: &String, fields: &Vec<String>, j: usize, new_value: Expr) -> (r: Expr)
    requires
        j <= fields@.len(),
    ensures
        update_is(r, root@, fields@.take(j as int), fields@.skip(j as int)),
        update_leaf(r, (fields@.len() - j) as nat) == new_value,
    decreases fields@.len() - j,
{
    if j == fields.len() {
        return new_value;
    }
    let base = read_path(root, fields, j);
    let inner = update_from(root, fields, j + 1, new_value);
    proof {
        assert(fields@.take(j as int).push(fields@.skip(j as int)[0]) =~= fields@.take(j + 1));
        assert(fields@.skip(j as int).drop_first() =~= fields@.skip(j + 1));
    }
    Expr::RecordCons(vec![Field::Spread(base), Field::Field { key: fields[j].clone(), value: inner }])
}

/// Functional record update: `root.f1.f2 := v` becomes
/// `{ ...root, f1: { ...root.f1, f2: v } }`; a bare `x := v` writes `v`.
fn field_update(root: &String, fields: &Vec<String>, new_value: Expr) -> (r: Expr)
    ensures
        update_is(r, root@, seq![], fields@),
        update_leaf(r, fields@.len()) == new_value,
{
    let r = update_from(root, fields, 0, new_value);
    proof {
        assert(fields@.take(0) =~= Seq::<String>::empty());
        assert(fields@.skip(0) =~= fields@);
    }
    r
}

/// A copy of an optional list of names.
fn clone_names(n: &Option<Vec<String>>) -> (r: Option<Vec<String>>)
    ensures
        names_same(r, *n),
{
    match n {
        Some(v) => {
            let mut out: Vec<String> = Vec::new();
            let mut i: usize = 0;
            while i < v.len()
                invariant
                    i <= v@.len(),
                    out@ == v@.take(i as int),
                decreases v@.len() - i,
            {
                out.push(v[i].clone());
                i = i + 1;
                assert(out@ =~= v@.take(i as int));
            }
            assert(v@.take(v@.len() as int) =~= v@);
            Some(out)
        },
        None => None,
    }
}

/// `before` + `name` + `after`, for error messages.
fn message_about(before: &str, name: &String, after: &str) -> (r: String)
    ensures
        r@ == before@ + name@ + after@,
{
    let mut out: Vec<char> = str_chars(before);
    let n = str_chars(name.as_str());
    let mut i: usize = 0;
    while i < n.len()
        invariant
            i <= n@.len(),
            n@ == name@,
            out@ == before@ + n@.take(i as int),
        decreases n@.len() - i,
    {
        out.push(n[i]);
        i = i + 1;
        assert(n@.take(i as int) == n@.take(i - 1).push(n@[i - 1]));
    }
    assert(n@.take(n@.len() as int) == n@);
    let a = str_chars(after);
    let mut j: usize = 0;
    while j < a.len()
        invariant
            j <= a@.len(),
            a@ == after@,
            out@ == before@ + name@ + a@.take(j as int),
        decreases a@.len() - j,
    {
        out.push(a[j]);
        j = j + 1;
        assert(a@.take(j as int) == a@.take(j - 1).push(a@[j - 1]));
    }
    assert(a@.take(a@.len() as int) == a@);
    string_from_chars(&out)
}

/// Lowers a surface program to normalized kernel AST: desugaring, then
/// normalization.
pub fn lower_program(p: &SProgram, interner: &mut Interner) -> (r: Result<Module, DesugarError>)
    requires
        old(interner).wf(),
    ensures
        r is Ok <==> forall|i: int| 0 <= i < p.statements@.len() ==> ok_item(#[trigger] p.statements@[i], false),
        r matches Ok(m) ==> exists|k: Module| #[trigger] lowers_program(*p, k) && module_norm(k, m),
{
    let mut d = Desugarer::new(interner);
    let lowered = d.program(p);
    let it = d.into_interner();
    match lowered {
        Ok(k) => {
            let m = normalize_module(&k, it);
            proof {
                assert(lowers_program(*p, k) && module_norm(k, m));
            }
            Ok(m)
        },
        Err(e) => Err(e),
    }
}

} // verus!
