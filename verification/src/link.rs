//! Project linking — static whole-program resolution.
//!
//! A project is a set of modules (`module M` headers) plus exactly one
//! headerless entry. Resolution is static and name-level: `import { count }
//! from Counter` names Counter's exported binding; a whole-module import
//! (`import Counter`) makes the namespace name visible, and `Counter.count` —
//! and `m.count` after the alias `m = Counter` — rewrites to a hidden binding
//! spelled `"Counter.count"` (the dot keeps it out of the user namespace). A
//! module name in any other value seat is an error.
//!
//! Aliases resolve through bare `m = Namespace` bindings; local shadowing is
//! honored by tracking names bound by lambdas, patterns and match items.
//! Exported names come from `Name` targets only.

use crate::ast::{
    AccessForm, Arg, Arm, Bind, BindTarget, BindingRef, Element, Expr, Field, Import, Item, Lambda, Match, MatchItem, Module,
    Pat, PatElem, PatField, Ref, TemplatePart,
};
use crate::text::concat3;
use vstd::prelude::*;

verus! {

/// A static linking failure — project-wide, before anything runs.
#[derive(Debug)]
pub enum LinkError {
    /// A source failed lexing, parsing or desugaring; the message carries the
    /// stage.
    Front { source: usize, message: String },
    /// Two files declare the same module name.
    DuplicateModule { name: String, first: usize, second: usize },
    /// The project has no headerless entry file, or more than one.
    Entries(usize),
    /// An import names a module no file declares.
    UnknownModule { importer: String, module: String },
    /// An import names a binding the module does not export.
    NotExported { module: String, name: String },
    /// A module name reached a value seat.
    ModuleInValueSeat { module: String },
    /// Named modules import each other in a cycle.
    ImportCycle,
}

/// A project failure.
#[derive(Debug)]
pub enum ProjectError {
    Link(LinkError),
}

// ── Names ────────────────────────────────────────────────────────────────────

/// The names a pattern binds, in order (captured rests included).
pub open spec fn pattern_names(p: Pat) -> Seq<String>
    decreases p,
{
    match p {
        Pat::Bind(n) => seq![n],
        Pat::Tuple(es) => elem_names(es@),
        Pat::Record { fields, .. } => field_names(fields@),
        _ => seq![],
    }
}

pub open spec fn elem_names(es: Seq<PatElem>) -> Seq<String>
    decreases es,
{
    if es.len() == 0 {
        seq![]
    } else {
        elem_names(es.drop_last()) + match es.last() {
            PatElem::Pat(p) => pattern_names(p),
            PatElem::Rest(Some(n)) => seq![n],
            PatElem::Rest(None) => seq![],
        }
    }
}

pub open spec fn field_names(fs: Seq<PatField>) -> Seq<String>
    decreases fs,
{
    if fs.len() == 0 {
        seq![]
    } else {
        field_names(fs.drop_last()) + match fs.last() {
            PatField::Field { pat, .. } => pattern_names(pat),
            PatField::Rest(Some(n)) => seq![n],
            PatField::Rest(None) => seq![],
        }
    }
}

/// The names a binding target binds.
pub open spec fn target_names(t: BindTarget) -> Seq<String> {
    match t {
        BindTarget::Name(n) => seq![n],
        BindTarget::Pattern(p) => pattern_names(p),
    }
}

/// `n` is among `sh`.
pub open spec fn shadows(sh: Seq<String>, n: Seq<char>) -> bool {
    exists|i: int| 0 <= i < sh.len() && (#[trigger] sh[i])@ == n
}

/// The names of a namespace table: alias, then the module it denotes.
pub open spec fn ns_view(ns: Seq<(String, String)>) -> Seq<(Seq<char>, Seq<char>)> {
    ns.map_values(|p: (String, String)| (p.0@, p.1@))
}

/// The module an alias or namespace name denotes (the latest entry wins).
pub open spec fn ns_lookup(ns: Seq<(Seq<char>, Seq<char>)>, n: Seq<char>) -> Option<Seq<char>>
    decreases ns.len(),
{
    if ns.len() == 0 {
        None
    } else if ns.last().0 == n {
        Some(ns.last().1)
    } else {
        ns_lookup(ns.drop_last(), n)
    }
}

/// The namespace a name denotes where the names `sh` are bound locally.
pub open spec fn namespace_of(ns: Seq<(Seq<char>, Seq<char>)>, sh: Seq<String>, n: Seq<char>) -> Option<Seq<char>> {
    if shadows(sh, n) {
        None
    } else {
        ns_lookup(ns, n)
    }
}

/// A module's export list (the latest entry wins).
pub open spec fn exports_of(ex: Seq<(String, Vec<String>)>, m: Seq<char>) -> Option<Seq<String>>
    decreases ex.len(),
{
    if ex.len() == 0 {
        None
    } else if ex.last().0@ == m {
        Some(ex.last().1@)
    } else {
        exports_of(ex.drop_last(), m)
    }
}

/// An export table as a function from module names to export lists.
pub open spec fn export_fn(ex: Seq<(String, Vec<String>)>) -> spec_fn(Seq<char>) -> Option<Seq<String>> {
    |m: Seq<char>| exports_of(ex, m)
}

/// Every namespace target has an export list.
pub open spec fn targets_known(ns: Seq<(Seq<char>, Seq<char>)>, ex: spec_fn(Seq<char>) -> Option<Seq<String>>) -> bool {
    forall|i: int| 0 <= i < ns.len() ==> (#[trigger] ex(ns[i].1)) is Some
}

/// `field` is among a module's exports.
pub open spec fn exported(ex: spec_fn(Seq<char>) -> Option<Seq<String>>, m: Seq<char>, field: Seq<char>) -> bool {
    shadows(ex(m)->Some_0, field)
}

/// `e` is `NS.field` for a visible namespace `NS`.
pub open spec fn ns_access(e: Expr, ns: Seq<(Seq<char>, Seq<char>)>, sh: Seq<String>) -> bool {
    &&& e matches Expr::Access { target, form: AccessForm::Field(_), .. }
    &&& *target matches Expr::Ref(Ref::Immutable(BindingRef::Name(n)))
    &&& namespace_of(ns, sh, n@) is Some
}

/// The namespace of an `NS.field` access.
pub open spec fn access_ns(e: Expr, ns: Seq<(Seq<char>, Seq<char>)>, sh: Seq<String>) -> Seq<char> {
    namespace_of(ns, sh, (*e->Access_target)->Ref_0->Immutable_0->Name_0@)->Some_0
}

// ── Where a namespace name is misused ────────────────────────────────────────

/// Whether rewriting `e` fails: an `NS.field` access to a name `NS` does not
/// export, or a namespace name in any other value seat.
pub open spec fn violates(e: Expr, ns: Seq<(Seq<char>, Seq<char>)>, ex: spec_fn(Seq<char>) -> Option<Seq<String>>, sh: Seq<String>) -> bool
    decreases e,
{
    if ns_access(e, ns, sh) {
        !exported(ex, access_ns(e, ns, sh), e->Access_form->Field_0@)
    } else {
        match e {
            Expr::Ref(Ref::Immutable(BindingRef::Name(n))) => namespace_of(ns, sh, n@) is Some,
            Expr::Lambda(l) => violates(*l.body, ns, ex, sh + pattern_names(l.params)),
            Expr::Apply { callee, args } => violates(*callee, ns, ex, sh) || exists|i: int|
                0 <= i < args@.len() && arg_violates(#[trigger] args@[i], ns, ex, sh),
            Expr::PrimOp { args, .. } => exists|i: int| 0 <= i < args@.len() && violates(#[trigger] args@[i], ns, ex, sh),
            Expr::Match(m) => (match m.scrutinee {
                Some(s) => violates(*s, ns, ex, sh),
                None => false,
            }) || items_violate(m.items@, ns, ex, sh),
            Expr::TupleCons(es) => exists|i: int| 0 <= i < es@.len() && element_violates(#[trigger] es@[i], ns, ex, sh),
            Expr::RecordCons(fs) => exists|i: int| 0 <= i < fs@.len() && field_violates(#[trigger] fs@[i], ns, ex, sh),
            Expr::Access { target, form, .. } => violates(*target, ns, ex, sh) || match form {
                AccessForm::Field(_) => false,
                AccessForm::Index(x) => violates(*x, ns, ex, sh),
                AccessForm::Slice { lo, hi } => opt_violates(lo, ns, ex, sh) || opt_violates(hi, ns, ex, sh),
            },
            Expr::Template(ps) => exists|i: int| 0 <= i < ps@.len() && part_violates(#[trigger] ps@[i], ns, ex, sh),
            Expr::Write { value, .. } => violates(*value, ns, ex, sh),
            _ => false,
        }
    }
}

pub open spec fn opt_violates(
    e: Option<Box<Expr>>,
    ns: Seq<(Seq<char>, Seq<char>)>,
    ex: spec_fn(Seq<char>) -> Option<Seq<String>>,
    sh: Seq<String>,
) -> bool
    decreases e,
{
    match e {
        Some(x) => violates(*x, ns, ex, sh),
        None => false,
    }
}

pub open spec fn arg_violates(a: Arg, ns: Seq<(Seq<char>, Seq<char>)>, ex: spec_fn(Seq<char>) -> Option<Seq<String>>, sh: Seq<String>) -> bool
    decreases a,
{
    match a {
        Arg::Expr(x) => violates(x, ns, ex, sh),
        Arg::Spread(x) => violates(x, ns, ex, sh),
    }
}

pub open spec fn element_violates(
    a: Element,
    ns: Seq<(Seq<char>, Seq<char>)>,
    ex: spec_fn(Seq<char>) -> Option<Seq<String>>,
    sh: Seq<String>,
) -> bool
    decreases a,
{
    match a {
        Element::Expr(x) => violates(x, ns, ex, sh),
        Element::Spread(x) => violates(x, ns, ex, sh),
    }
}

pub open spec fn field_violates(f: Field, ns: Seq<(Seq<char>, Seq<char>)>, ex: spec_fn(Seq<char>) -> Option<Seq<String>>, sh: Seq<String>) -> bool
    decreases f,
{
    match f {
        Field::Field { value, .. } => violates(value, ns, ex, sh),
        Field::Spread(x) => violates(x, ns, ex, sh),
        Field::Computed { key, value } => violates(key, ns, ex, sh) || violates(value, ns, ex, sh),
    }
}

pub open spec fn part_violates(
    p: TemplatePart,
    ns: Seq<(Seq<char>, Seq<char>)>,
    ex: spec_fn(Seq<char>) -> Option<Seq<String>>,
    sh: Seq<String>,
) -> bool
    decreases p,
{
    match p {
        TemplatePart::Interp(x) => violates(x, ns, ex, sh),
        _ => false,
    }
}

/// The names an arm's pattern brings into its guard and result.
pub open spec fn arm_names(a: Arm) -> Seq<String> {
    match a.pattern {
        Some(p) => pattern_names(p),
        None => seq![],
    }
}

/// Match items in order; a binding shadows for the items after it.
pub open spec fn items_violate(
    items: Seq<MatchItem>,
    ns: Seq<(Seq<char>, Seq<char>)>,
    ex: spec_fn(Seq<char>) -> Option<Seq<String>>,
    sh: Seq<String>,
) -> bool
    decreases items,
{
    if items.len() == 0 {
        false
    } else {
        match items[0] {
            MatchItem::Bind(b) => violates(b.value, ns, ex, sh) || items_violate(
                items.drop_first(),
                ns,
                ex,
                sh + target_names(b.target),
            ),
            MatchItem::Stmt(x) => violates(x, ns, ex, sh) || items_violate(items.drop_first(), ns, ex, sh),
            MatchItem::Arm(a) => (match a.guard {
                Some(g) => violates(g, ns, ex, sh + arm_names(a)),
                None => false,
            }) || violates(a.result, ns, ex, sh + arm_names(a)) || items_violate(items.drop_first(), ns, ex, sh),
        }
    }
}

// ── What the rewrite produces ────────────────────────────────────────────────

/// `k` is `e` with every visible `NS.field` replaced by a read of the binding
/// `"NS.field"`; everything else is kept.
pub open spec fn rewrites(e: Expr, k: Expr, ns: Seq<(Seq<char>, Seq<char>)>, sh: Seq<String>) -> bool
    decreases e,
{
    if ns_access(e, ns, sh) {
        k matches Expr::Ref(Ref::Immutable(BindingRef::Name(s))) && s@ == access_ns(e, ns, sh) + seq!['.']
            + e->Access_form->Field_0@
    } else {
        match e {
            Expr::Lambda(l) => (k matches Expr::Lambda(m) && m.params == l.params && m.act_kind == l.act_kind
                && rewrites(*l.body, *m.body, ns, sh + pattern_names(l.params))),
            Expr::Apply { callee, args } => (k matches Expr::Apply { callee: c, args: bs } && rewrites(*callee, *c, ns, sh)
                && bs@.len() == args@.len() && forall|i: int| 0 <= i < args@.len() ==> arg_rewrites(#[trigger] args@[i], bs@[i], ns, sh)),
            Expr::PrimOp { op, args } => (k matches Expr::PrimOp { op: o, args: bs } && o == op && bs@.len() == args@.len()
                && forall|i: int| 0 <= i < args@.len() ==> rewrites(#[trigger] args@[i], bs@[i], ns, sh)),
            Expr::Match(m) => (k matches Expr::Match(n) && (match m.scrutinee {
                Some(s) => (n.scrutinee matches Some(t) && rewrites(*s, *t, ns, sh)),
                None => n.scrutinee is None,
            }) && items_rewrite(m.items@, n.items@, ns, sh)),
            Expr::TupleCons(es) => (k matches Expr::TupleCons(fs) && fs@.len() == es@.len() && forall|i: int|
                0 <= i < es@.len() ==> element_rewrites(#[trigger] es@[i], fs@[i], ns, sh)),
            Expr::RecordCons(es) => (k matches Expr::RecordCons(fs) && fs@.len() == es@.len() && forall|i: int|
                0 <= i < es@.len() ==> field_rewrites(#[trigger] es@[i], fs@[i], ns, sh)),
            Expr::Access { target, form, total } => (k matches Expr::Access { target: t, form: f, total: u } && u == total
                && rewrites(*target, *t, ns, sh) && match form {
                AccessForm::Field(name) => f == AccessForm::Field(name),
                AccessForm::Index(x) => (f matches AccessForm::Index(y) && rewrites(*x, *y, ns, sh)),
                AccessForm::Slice { lo, hi } => (f matches AccessForm::Slice { lo: l, hi: h } && opt_rewrites(lo, l, ns, sh)
                    && opt_rewrites(hi, h, ns, sh)),
            }),
            Expr::Template(ps) => (k matches Expr::Template(qs) && qs@.len() == ps@.len() && forall|i: int|
                0 <= i < ps@.len() ==> part_rewrites(#[trigger] ps@[i], qs@[i], ns, sh)),
            Expr::Write { slot, value } => (k matches Expr::Write { slot: s, value: v } && s == slot && rewrites(
                *value,
                *v,
                ns,
                sh,
            )),
            _ => k == e,
        }
    }
}

pub open spec fn opt_rewrites(e: Option<Box<Expr>>, k: Option<Box<Expr>>, ns: Seq<(Seq<char>, Seq<char>)>, sh: Seq<String>) -> bool
    decreases e,
{
    match e {
        Some(x) => (k matches Some(y) && rewrites(*x, *y, ns, sh)),
        None => k is None,
    }
}

pub open spec fn arg_rewrites(a: Arg, k: Arg, ns: Seq<(Seq<char>, Seq<char>)>, sh: Seq<String>) -> bool
    decreases a,
{
    match a {
        Arg::Expr(x) => (k matches Arg::Expr(y) && rewrites(x, y, ns, sh)),
        Arg::Spread(x) => (k matches Arg::Spread(y) && rewrites(x, y, ns, sh)),
    }
}

pub open spec fn element_rewrites(a: Element, k: Element, ns: Seq<(Seq<char>, Seq<char>)>, sh: Seq<String>) -> bool
    decreases a,
{
    match a {
        Element::Expr(x) => (k matches Element::Expr(y) && rewrites(x, y, ns, sh)),
        Element::Spread(x) => (k matches Element::Spread(y) && rewrites(x, y, ns, sh)),
    }
}

pub open spec fn field_rewrites(f: Field, k: Field, ns: Seq<(Seq<char>, Seq<char>)>, sh: Seq<String>) -> bool
    decreases f,
{
    match f {
        Field::Field { key, value } => (k matches Field::Field { key: kk, value: v } && kk == key && rewrites(
            value,
            v,
            ns,
            sh,
        )),
        Field::Spread(x) => (k matches Field::Spread(y) && rewrites(x, y, ns, sh)),
        Field::Computed { key, value } => (k matches Field::Computed { key: kk, value: v } && rewrites(key, kk, ns, sh)
            && rewrites(value, v, ns, sh)),
    }
}

pub open spec fn part_rewrites(p: TemplatePart, k: TemplatePart, ns: Seq<(Seq<char>, Seq<char>)>, sh: Seq<String>) -> bool
    decreases p,
{
    match p {
        TemplatePart::Interp(x) => (k matches TemplatePart::Interp(y) && rewrites(x, y, ns, sh)),
        _ => k == p,
    }
}

pub open spec fn items_rewrite(items: Seq<MatchItem>, ks: Seq<MatchItem>, ns: Seq<(Seq<char>, Seq<char>)>, sh: Seq<String>) -> bool
    decreases items,
{
    if items.len() == 0 {
        ks.len() == 0
    } else {
        &&& ks.len() == items.len()
        &&& match items[0] {
            MatchItem::Bind(b) => (ks[0] matches MatchItem::Bind(c) && c.target == b.target && c.exported == b.exported
                && rewrites(b.value, c.value, ns, sh) && items_rewrite(
                items.drop_first(),
                ks.drop_first(),
                ns,
                sh + target_names(b.target),
            )),
            MatchItem::Stmt(x) => (ks[0] matches MatchItem::Stmt(y) && rewrites(x, y, ns, sh) && items_rewrite(
                items.drop_first(),
                ks.drop_first(),
                ns,
                sh,
            )),
            MatchItem::Arm(a) => (ks[0] matches MatchItem::Arm(c) && c.pattern == a.pattern && (match a.guard {
                Some(g) => (c.guard matches Some(h) && rewrites(g, h, ns, sh + arm_names(a))),
                None => c.guard is None,
            }) && rewrites(a.result, c.result, ns, sh + arm_names(a)) && items_rewrite(
                items.drop_first(),
                ks.drop_first(),
                ns,
                sh,
            )),
        }
    }
}


// ── Name collection ──────────────────────────────────────────────────────────

/// A copy of a list of names.
fn copy_names(v: &Vec<String>) -> (r: Vec<String>)
    ensures
        r@ == v@,
{
    let mut out: Vec<String> = Vec::new();
    let mut i: usize = 0;
    while i < v.len()
        invariant
            i <= v@.len(),
            out@ == v@.take(i as int),
        decreases v@.len() - i,
    {
        out.push(v[i].clone());
        i = i + 1;
        assert(out@ =~= v@.take(i as int));
    }
    assert(v@.take(v@.len() as int) =~= v@);
    out
}

/// Appends the names `p` binds, in order.
fn collect_pattern_names(p: &Pat, out: &mut Vec<String>)
    ensures
        final(out)@ == old(out)@ + pattern_names(*p),
    decreases p,
{
    match p {
        Pat::Bind(n) => {
            out.push(n.clone());
            assert(final(out)@ =~= old(out)@ + pattern_names(*p));
        },
        Pat::Tuple(elems) => {
            let ghost o0 = out@;
            let mut i: usize = 0;
            assert(elems@.take(0) =~= Seq::<PatElem>::empty());
            assert(out@ =~= o0 + elem_names(elems@.take(0)));
            while i < elems.len()
                invariant
                    i <= elems@.len(),
                    *p == Pat::Tuple(*elems),
                    out@ == o0 + elem_names(elems@.take(i as int)),
                decreases elems@.len() - i,
            {
                proof {
                    assert(decreases_to!(*elems => elems@[i as int]));
                    assert(decreases_to!(*p => p->Tuple_0));
                }
                match &elems[i] {
                    PatElem::Pat(q) => collect_pattern_names(q, out),
                    PatElem::Rest(Some(n)) => out.push(n.clone()),
                    PatElem::Rest(None) => {},
                }
                proof {
                    assert(elems@.take(i + 1).drop_last() =~= elems@.take(i as int));
                    assert(out@ =~= o0 + elem_names(elems@.take(i + 1)));
                }
                i = i + 1;
            }
            assert(elems@.take(elems@.len() as int) =~= elems@);
        },
        Pat::Record { fields, exact } => {
            let ghost o0 = out@;
            let mut i: usize = 0;
            assert(fields@.take(0) =~= Seq::<PatField>::empty());
            assert(out@ =~= o0 + field_names(fields@.take(0)));
            while i < fields.len()
                invariant
                    i <= fields@.len(),
                    *p == (Pat::Record { fields: *fields, exact: *exact }),
                    out@ == o0 + field_names(fields@.take(i as int)),
                decreases fields@.len() - i,
            {
                proof {
                    assert(decreases_to!(*fields => fields@[i as int]));
                    assert(decreases_to!(*p => p->Record_fields));
                }
                match &fields[i] {
                    PatField::Field { pat, .. } => collect_pattern_names(pat, out),
                    PatField::Rest(Some(n)) => out.push(n.clone()),
                    PatField::Rest(None) => {},
                }
                proof {
                    assert(fields@.take(i + 1).drop_last() =~= fields@.take(i as int));
                    assert(out@ =~= o0 + field_names(fields@.take(i + 1)));
                }
                i = i + 1;
            }
            assert(fields@.take(fields@.len() as int) =~= fields@);
        },
        _ => {
            assert(final(out)@ =~= old(out)@ + pattern_names(*p));
        },
    }
}

/// The names a pattern binds, in order.
pub fn pattern_names_of(p: &Pat) -> (r: Vec<String>)
    ensures
        r@ == pattern_names(*p),
{
    let mut out: Vec<String> = Vec::new();
    collect_pattern_names(p, &mut out);
    assert(out@ =~= pattern_names(*p));
    out
}

/// `sh` extended with the names `p` binds.
fn with_names(sh: &Vec<String>, p: &Pat) -> (r: Vec<String>)
    ensures
        r@ == sh@ + pattern_names(*p),
{
    let mut out = copy_names(sh);
    collect_pattern_names(p, &mut out);
    out
}

/// Whether `n` is among `sh`.
fn is_shadowed(sh: &Vec<String>, n: &String) -> (r: bool)
    ensures
        r == shadows(sh@, n@),
{
    let mut i: usize = 0;
    while i < sh.len()
        invariant
            i <= sh@.len(),
            forall|j: int| 0 <= j < i ==> (#[trigger] sh@[j])@ != n@,
        decreases sh@.len() - i,
    {
        if crate::text::str_is(&sh[i], n.as_str()) {
            return true;
        }
        i = i + 1;
    }
    false
}

/// The module a bare name denotes here, if any.
fn namespace(ns: &Vec<(String, String)>, sh: &Vec<String>, n: &String) -> (r: Option<String>)
    ensures
        r is Some <==> namespace_of(ns_view(ns@), sh@, n@) is Some,
        r matches Some(m) ==> namespace_of(ns_view(ns@), sh@, n@) == Some(m@),
{
    if is_shadowed(sh, n) {
        return None;
    }
    let mut i: usize = ns.len();
    assert(ns_view(ns@.take(ns@.len() as int)) =~= ns_view(ns@));
    while i > 0
        invariant
            i <= ns@.len(),
            !shadows(sh@, n@),
            ns_lookup(ns_view(ns@), n@) == ns_lookup(ns_view(ns@.take(i as int)), n@),
        decreases i,
    {
        proof {
            assert(ns_view(ns@.take(i as int)).drop_last() =~= ns_view(ns@.take(i - 1)));
        }
        if crate::text::str_is(&ns[i - 1].0, n.as_str()) {
            return Some(ns[i - 1].1.clone());
        }
        i = i - 1;
    }
    None
}

/// Whether module `m` exports `field`.
fn is_exported(ex: &Vec<(String, Vec<String>)>, m: &String, field: &String) -> (r: bool)
    requires
        export_fn(ex@)(m@) is Some,
    ensures
        r == exported(export_fn(ex@), m@, field@),
{
    let mut i: usize = ex.len();
    assert(ex@.take(ex@.len() as int) =~= ex@);
    while i > 0
        invariant
            i <= ex@.len(),
            exports_of(ex@, m@) == exports_of(ex@.take(i as int), m@),
        decreases i,
    {
        proof {
            assert(ex@.take(i as int).drop_last() =~= ex@.take(i - 1));
        }
        if crate::text::str_is(&ex[i - 1].0, m.as_str()) {
            return is_shadowed(&ex[i - 1].1, field);
        }
        i = i - 1;
    }
    false
}


// ── Rewriting ────────────────────────────────────────────────────────────────

/// A name the namespace table resolves resolves to one of its targets.
proof fn lemma_lookup_in(ns: Seq<(Seq<char>, Seq<char>)>, n: Seq<char>)
    ensures
        ns_lookup(ns, n) matches Some(x) ==> exists|i: int| 0 <= i < ns.len() && (#[trigger] ns[i]).1 == x,
    decreases ns.len(),
{
    if ns.len() > 0 && ns.last().0 != n {
        lemma_lookup_in(ns.drop_last(), n);
        if ns_lookup(ns, n) is Some {
            let i = choose|i: int| 0 <= i < ns.drop_last().len() && (#[trigger] ns.drop_last()[i]).1 == ns_lookup(ns, n)->Some_0;
            assert(ns[i] == ns.drop_last()[i]);
        }
    }
}

/// The errors a rewrite reports.
pub open spec fn rewrite_error(x: LinkError) -> bool {
    x is NotExported || x is ModuleInValueSeat
}

/// `x` is the error a misused namespace name in `e` reports: `NS.field`
/// where `NS` does not export `field` reports `NotExported` with both names,
/// and a namespace name in any other value seat reports
/// `ModuleInValueSeat` with the module it names.
pub open spec fn faults(e: Expr, ns: Seq<(Seq<char>, Seq<char>)>, ex: spec_fn(Seq<char>) -> Option<Seq<String>>, sh: Seq<String>, x: LinkError) -> bool
    decreases e,
{
    if ns_access(e, ns, sh) {
        &&& !exported(ex, access_ns(e, ns, sh), e->Access_form->Field_0@)
        &&& x matches LinkError::NotExported { module, name }
        &&& module@ == access_ns(e, ns, sh)
        &&& name@ == e->Access_form->Field_0@
    } else {
        match e {
            Expr::Ref(Ref::Immutable(BindingRef::Name(n))) => namespace_of(ns, sh, n@) matches Some(m)
                && x matches LinkError::ModuleInValueSeat { module } && module@ == m,
            Expr::Lambda(l) => faults(*l.body, ns, ex, sh + pattern_names(l.params), x),
            Expr::Apply { callee, args } => faults(*callee, ns, ex, sh, x) || exists|i: int|
                0 <= i < args@.len() && arg_faults(#[trigger] args@[i], ns, ex, sh, x),
            Expr::PrimOp { args, .. } => exists|i: int| 0 <= i < args@.len() && faults(#[trigger] args@[i], ns, ex, sh, x),
            Expr::Match(m) => (match m.scrutinee {
                Some(s) => faults(*s, ns, ex, sh, x),
                None => false,
            }) || items_misuse(m.items@, ns, ex, sh, x),
            Expr::TupleCons(es) => exists|i: int| 0 <= i < es@.len() && element_faults(#[trigger] es@[i], ns, ex, sh, x),
            Expr::RecordCons(fs) => exists|i: int| 0 <= i < fs@.len() && field_faults(#[trigger] fs@[i], ns, ex, sh, x),
            Expr::Access { target, form, .. } => faults(*target, ns, ex, sh, x) || match form {
                AccessForm::Field(_) => false,
                AccessForm::Index(y) => faults(*y, ns, ex, sh, x),
                AccessForm::Slice { lo, hi } => opt_faults(lo, ns, ex, sh, x) || opt_faults(hi, ns, ex, sh, x),
            },
            Expr::Template(ps) => exists|i: int| 0 <= i < ps@.len() && part_faults(#[trigger] ps@[i], ns, ex, sh, x),
            Expr::Write { value, .. } => faults(*value, ns, ex, sh, x),
            _ => false,
        }
    }
}

pub open spec fn opt_faults(e: Option<Box<Expr>>, ns: Seq<(Seq<char>, Seq<char>)>, ex: spec_fn(Seq<char>) -> Option<Seq<String>>, sh: Seq<String>, x: LinkError) -> bool
    decreases e,
{
    match e {
        Some(y) => faults(*y, ns, ex, sh, x),
        None => false,
    }
}

pub open spec fn arg_faults(a: Arg, ns: Seq<(Seq<char>, Seq<char>)>, ex: spec_fn(Seq<char>) -> Option<Seq<String>>, sh: Seq<String>, x: LinkError) -> bool
    decreases a,
{
    match a {
        Arg::Expr(y) => faults(y, ns, ex, sh, x),
        Arg::Spread(y) => faults(y, ns, ex, sh, x),
    }
}

pub open spec fn element_faults(a: Element, ns: Seq<(Seq<char>, Seq<char>)>, ex: spec_fn(Seq<char>) -> Option<Seq<String>>, sh: Seq<String>, x: LinkError) -> bool
    decreases a,
{
    match a {
        Element::Expr(y) => faults(y, ns, ex, sh, x),
        Element::Spread(y) => faults(y, ns, ex, sh, x),
    }
}

pub open spec fn field_faults(f: Field, ns: Seq<(Seq<char>, Seq<char>)>, ex: spec_fn(Seq<char>) -> Option<Seq<String>>, sh: Seq<String>, x: LinkError) -> bool
    decreases f,
{
    match f {
        Field::Field { value, .. } => faults(value, ns, ex, sh, x),
        Field::Spread(y) => faults(y, ns, ex, sh, x),
        Field::Computed { key, value } => faults(key, ns, ex, sh, x) || faults(value, ns, ex, sh, x),
    }
}

pub open spec fn part_faults(p: TemplatePart, ns: Seq<(Seq<char>, Seq<char>)>, ex: spec_fn(Seq<char>) -> Option<Seq<String>>, sh: Seq<String>, x: LinkError) -> bool
    decreases p,
{
    match p {
        TemplatePart::Interp(y) => faults(y, ns, ex, sh, x),
        _ => false,
    }
}

pub open spec fn items_misuse(items: Seq<MatchItem>, ns: Seq<(Seq<char>, Seq<char>)>, ex: spec_fn(Seq<char>) -> Option<Seq<String>>, sh: Seq<String>, x: LinkError) -> bool
    decreases items,
{
    if items.len() == 0 {
        false
    } else {
        match items[0] {
            MatchItem::Bind(b) => faults(b.value, ns, ex, sh, x) || items_misuse(
                items.drop_first(),
                ns,
                ex,
                sh + target_names(b.target),
                x,
            ),
            MatchItem::Stmt(y) => faults(y, ns, ex, sh, x) || items_misuse(items.drop_first(), ns, ex, sh, x),
            MatchItem::Arm(a) => (match a.guard {
                Some(g) => faults(g, ns, ex, sh + arm_names(a), x),
                None => false,
            }) || faults(a.result, ns, ex, sh + arm_names(a), x) || items_misuse(items.drop_first(), ns, ex, sh, x),
        }
    }
}

/// Call arguments, rewritten in order.
fn rewrite_args(v: Vec<Arg>, ns: &Vec<(String, String)>, ex: &Vec<(String, Vec<String>)>, sh: &Vec<String>) -> (r: Result<
    Vec<Arg>,
    LinkError,
>)
    requires
        targets_known(ns_view(ns@), export_fn(ex@)),
    ensures
        r is Ok <==> !exists|i: int| 0 <= i < v@.len() && arg_violates(#[trigger] v@[i], ns_view(ns@), export_fn(ex@), sh@),
        r matches Ok(k) ==> k@.len() == v@.len() && forall|i: int| 0 <= i < v@.len() ==> arg_rewrites(#[trigger] v@[i], k@[i], ns_view(ns@), sh@),
        r matches Err(x) ==> rewrite_error(x),
        r matches Err(x) ==> exists|i: int| 0 <= i < v@.len() && arg_faults(#[trigger] v@[i], ns_view(ns@), export_fn(ex@), sh@, x),
    decreases v@, 0nat,
{
    let ghost orig = v@;
    let mut rest = v;
    let mut out: Vec<Arg> = Vec::new();
    let mut i: usize = 0;
    while rest.len() > 0
        invariant
            i <= orig.len(),
            rest@ == orig.skip(i as int),
            out@.len() == i,
            orig == v@,
            targets_known(ns_view(ns@), export_fn(ex@)),
            forall|j: int| 0 <= j < i ==> !arg_violates(#[trigger] orig[j], ns_view(ns@), export_fn(ex@), sh@),
            forall|j: int| 0 <= j < i ==> arg_rewrites(#[trigger] orig[j], out@[j], ns_view(ns@), sh@),
        decreases rest@.len(),
    {
        proof {
            assert(orig.skip(i as int).len() == orig.len() - i);
        }
        let item = rest.remove(0);
        let ghost i0 = i;
        proof {
            assert(i < orig.len());
            assert(item == orig[i as int]);
            assert(decreases_to!(orig => orig[i as int]));
        }
        let k = match item {
            Arg::Expr(x) => Arg::Expr(match rewrite(x, ns, ex, sh) {
                Ok(y) => y,
                Err(x) => {
                    assert(arg_violates(orig[i as int], ns_view(ns@), export_fn(ex@), sh@));
                    return Err(x);
                },
            }),
            Arg::Spread(x) => Arg::Spread(match rewrite(x, ns, ex, sh) {
                Ok(y) => y,
                Err(x) => {
                    assert(arg_violates(orig[i as int], ns_view(ns@), export_fn(ex@), sh@));
                    return Err(x);
                },
            }),
        };
        out.push(k);
        i = out.len();
    }
    proof {
        assert(i == orig.len());
    }
    Ok(out)
}

/// Primitive operands, rewritten in order.
fn rewrite_exprs(v: Vec<Expr>, ns: &Vec<(String, String)>, ex: &Vec<(String, Vec<String>)>, sh: &Vec<String>) -> (r: Result<
    Vec<Expr>,
    LinkError,
>)
    requires
        targets_known(ns_view(ns@), export_fn(ex@)),
    ensures
        r is Ok <==> !exists|i: int| 0 <= i < v@.len() && violates(#[trigger] v@[i], ns_view(ns@), export_fn(ex@), sh@),
        r matches Ok(k) ==> k@.len() == v@.len() && forall|i: int| 0 <= i < v@.len() ==> rewrites(#[trigger] v@[i], k@[i], ns_view(ns@), sh@),
        r matches Err(x) ==> rewrite_error(x),
        r matches Err(x) ==> exists|i: int| 0 <= i < v@.len() && faults(#[trigger] v@[i], ns_view(ns@), export_fn(ex@), sh@, x),
    decreases v@, 0nat,
{
    let ghost orig = v@;
    let mut rest = v;
    let mut out: Vec<Expr> = Vec::new();
    let mut i: usize = 0;
    while rest.len() > 0
        invariant
            i <= orig.len(),
            rest@ == orig.skip(i as int),
            out@.len() == i,
            orig == v@,
            targets_known(ns_view(ns@), export_fn(ex@)),
            forall|j: int| 0 <= j < i ==> !violates(#[trigger] orig[j], ns_view(ns@), export_fn(ex@), sh@),
            forall|j: int| 0 <= j < i ==> rewrites(#[trigger] orig[j], out@[j], ns_view(ns@), sh@),
        decreases rest@.len(),
    {
        proof {
            assert(orig.skip(i as int).len() == orig.len() - i);
        }
        let item = rest.remove(0);
        let ghost i0 = i;
        proof {
            assert(i < orig.len());
            assert(item == orig[i as int]);
            assert(decreases_to!(orig => orig[i as int]));
        }
        let k = match rewrite(item, ns, ex, sh) {
                Ok(y) => y,
                Err(x) => {
                    assert(violates(orig[i as int], ns_view(ns@), export_fn(ex@), sh@));
                    return Err(x);
                },
            };
        out.push(k);
        i = out.len();
    }
    proof {
        assert(i == orig.len());
    }
    Ok(out)
}

/// Tuple elements, rewritten in order.
fn rewrite_elements(v: Vec<Element>, ns: &Vec<(String, String)>, ex: &Vec<(String, Vec<String>)>, sh: &Vec<String>) -> (r: Result<
    Vec<Element>,
    LinkError,
>)
    requires
        targets_known(ns_view(ns@), export_fn(ex@)),
    ensures
        r is Ok <==> !exists|i: int| 0 <= i < v@.len() && element_violates(#[trigger] v@[i], ns_view(ns@), export_fn(ex@), sh@),
        r matches Ok(k) ==> k@.len() == v@.len() && forall|i: int| 0 <= i < v@.len() ==> element_rewrites(#[trigger] v@[i], k@[i], ns_view(ns@), sh@),
        r matches Err(x) ==> rewrite_error(x),
        r matches Err(x) ==> exists|i: int| 0 <= i < v@.len() && element_faults(#[trigger] v@[i], ns_view(ns@), export_fn(ex@), sh@, x),
    decreases v@, 0nat,
{
    let ghost orig = v@;
    let mut rest = v;
    let mut out: Vec<Element> = Vec::new();
    let mut i: usize = 0;
    while rest.len() > 0
        invariant
            i <= orig.len(),
            rest@ == orig.skip(i as int),
            out@.len() == i,
            orig == v@,
            targets_known(ns_view(ns@), export_fn(ex@)),
            forall|j: int| 0 <= j < i ==> !element_violates(#[trigger] orig[j], ns_view(ns@), export_fn(ex@), sh@),
            forall|j: int| 0 <= j < i ==> element_rewrites(#[trigger] orig[j], out@[j], ns_view(ns@), sh@),
        decreases rest@.len(),
    {
        proof {
            assert(orig.skip(i as int).len() == orig.len() - i);
        }
        let item = rest.remove(0);
        let ghost i0 = i;
        proof {
            assert(i < orig.len());
            assert(item == orig[i as int]);
            assert(decreases_to!(orig => orig[i as int]));
        }
        let k = match item {
            Element::Expr(x) => Element::Expr(match rewrite(x, ns, ex, sh) {
                Ok(y) => y,
                Err(x) => {
                    assert(element_violates(orig[i as int], ns_view(ns@), export_fn(ex@), sh@));
                    return Err(x);
                },
            }),
            Element::Spread(x) => Element::Spread(match rewrite(x, ns, ex, sh) {
                Ok(y) => y,
                Err(x) => {
                    assert(element_violates(orig[i as int], ns_view(ns@), export_fn(ex@), sh@));
                    return Err(x);
                },
            }),
        };
        out.push(k);
        i = out.len();
    }
    proof {
        assert(i == orig.len());
    }
    Ok(out)
}

/// Record fields, rewritten in order.
fn rewrite_fields(v: Vec<Field>, ns: &Vec<(String, String)>, ex: &Vec<(String, Vec<String>)>, sh: &Vec<String>) -> (r: Result<
    Vec<Field>,
    LinkError,
>)
    requires
        targets_known(ns_view(ns@), export_fn(ex@)),
    ensures
        r is Ok <==> !exists|i: int| 0 <= i < v@.len() && field_violates(#[trigger] v@[i], ns_view(ns@), export_fn(ex@), sh@),
        r matches Ok(k) ==> k@.len() == v@.len() && forall|i: int| 0 <= i < v@.len() ==> field_rewrites(#[trigger] v@[i], k@[i], ns_view(ns@), sh@),
        r matches Err(x) ==> rewrite_error(x),
        r matches Err(x) ==> exists|i: int| 0 <= i < v@.len() && field_faults(#[trigger] v@[i], ns_view(ns@), export_fn(ex@), sh@, x),
    decreases v@, 0nat,
{
    let ghost orig = v@;
    let mut rest = v;
    let mut out: Vec<Field> = Vec::new();
    let mut i: usize = 0;
    while rest.len() > 0
        invariant
            i <= orig.len(),
            rest@ == orig.skip(i as int),
            out@.len() == i,
            orig == v@,
            targets_known(ns_view(ns@), export_fn(ex@)),
            forall|j: int| 0 <= j < i ==> !field_violates(#[trigger] orig[j], ns_view(ns@), export_fn(ex@), sh@),
            forall|j: int| 0 <= j < i ==> field_rewrites(#[trigger] orig[j], out@[j], ns_view(ns@), sh@),
        decreases rest@.len(),
    {
        proof {
            assert(orig.skip(i as int).len() == orig.len() - i);
        }
        let item = rest.remove(0);
        let ghost i0 = i;
        proof {
            assert(i < orig.len());
            assert(item == orig[i as int]);
            assert(decreases_to!(orig => orig[i as int]));
        }
        let k = match item {
            Field::Field { key, value } => Field::Field { key, value: match rewrite(value, ns, ex, sh) {
                Ok(y) => y,
                Err(x) => {
                    assert(field_violates(orig[i as int], ns_view(ns@), export_fn(ex@), sh@));
                    return Err(x);
                },
            } },
            Field::Spread(x) => Field::Spread(match rewrite(x, ns, ex, sh) {
                Ok(y) => y,
                Err(x) => {
                    assert(field_violates(orig[i as int], ns_view(ns@), export_fn(ex@), sh@));
                    return Err(x);
                },
            }),
            Field::Computed { key, value } => {
                let kk = match rewrite(key, ns, ex, sh) {
                Ok(y) => y,
                Err(x) => {
                    assert(field_violates(orig[i as int], ns_view(ns@), export_fn(ex@), sh@));
                    return Err(x);
                },
            };
                let vv = match rewrite(value, ns, ex, sh) {
                Ok(y) => y,
                Err(x) => {
                    assert(field_violates(orig[i as int], ns_view(ns@), export_fn(ex@), sh@));
                    return Err(x);
                },
            };
                Field::Computed { key: kk, value: vv }
            },
        };
        out.push(k);
        i = out.len();
    }
    proof {
        assert(i == orig.len());
    }
    Ok(out)
}

/// Template parts, interpolations rewritten.
fn rewrite_parts(v: Vec<TemplatePart>, ns: &Vec<(String, String)>, ex: &Vec<(String, Vec<String>)>, sh: &Vec<String>) -> (r: Result<
    Vec<TemplatePart>,
    LinkError,
>)
    requires
        targets_known(ns_view(ns@), export_fn(ex@)),
    ensures
        r is Ok <==> !exists|i: int| 0 <= i < v@.len() && part_violates(#[trigger] v@[i], ns_view(ns@), export_fn(ex@), sh@),
        r matches Ok(k) ==> k@.len() == v@.len() && forall|i: int| 0 <= i < v@.len() ==> part_rewrites(#[trigger] v@[i], k@[i], ns_view(ns@), sh@),
        r matches Err(x) ==> rewrite_error(x),
        r matches Err(x) ==> exists|i: int| 0 <= i < v@.len() && part_faults(#[trigger] v@[i], ns_view(ns@), export_fn(ex@), sh@, x),
    decreases v@, 0nat,
{
    let ghost orig = v@;
    let mut rest = v;
    let mut out: Vec<TemplatePart> = Vec::new();
    let mut i: usize = 0;
    while rest.len() > 0
        invariant
            i <= orig.len(),
            rest@ == orig.skip(i as int),
            out@.len() == i,
            orig == v@,
            targets_known(ns_view(ns@), export_fn(ex@)),
            forall|j: int| 0 <= j < i ==> !part_violates(#[trigger] orig[j], ns_view(ns@), export_fn(ex@), sh@),
            forall|j: int| 0 <= j < i ==> part_rewrites(#[trigger] orig[j], out@[j], ns_view(ns@), sh@),
        decreases rest@.len(),
    {
        proof {
            assert(orig.skip(i as int).len() == orig.len() - i);
        }
        let item = rest.remove(0);
        let ghost i0 = i;
        proof {
            assert(i < orig.len());
            assert(item == orig[i as int]);
            assert(decreases_to!(orig => orig[i as int]));
        }
        let k = match item {
            TemplatePart::Interp(x) => TemplatePart::Interp(match rewrite(x, ns, ex, sh) {
                Ok(y) => y,
                Err(x) => {
                    assert(part_violates(orig[i as int], ns_view(ns@), export_fn(ex@), sh@));
                    return Err(x);
                },
            }),
            lit => lit,
        };
        out.push(k);
        i = out.len();
    }
    proof {
        assert(i == orig.len());
    }
    Ok(out)
}

/// An optional operand.
fn rewrite_opt(o: Option<Box<Expr>>, ns: &Vec<(String, String)>, ex: &Vec<(String, Vec<String>)>, sh: &Vec<String>) -> (r: Result<
    Option<Box<Expr>>,
    LinkError,
>)
    requires
        targets_known(ns_view(ns@), export_fn(ex@)),
    ensures
        r is Ok <==> !opt_violates(o, ns_view(ns@), export_fn(ex@), sh@),
        r matches Ok(k) ==> opt_rewrites(o, k, ns_view(ns@), sh@),
        r matches Err(x) ==> rewrite_error(x),
        r matches Err(x) ==> opt_faults(o, ns_view(ns@), export_fn(ex@), sh@, x),
    decreases o, 0nat,
{
    match o {
        Some(x) => match rewrite(*x, ns, ex, sh) {
            Ok(y) => Ok(Some(Box::new(y))),
            Err(e) => Err(e),
        },
        None => Ok(None),
    }
}

/// Match items in order; a binding's names shadow for the items after it,
/// an arm's pattern names for its guard and result.
fn rewrite_items(items: Vec<MatchItem>, ns: &Vec<(String, String)>, ex: &Vec<(String, Vec<String>)>, sh: &Vec<String>) -> (r: Result<
    Vec<MatchItem>,
    LinkError,
>)
    requires
        targets_known(ns_view(ns@), export_fn(ex@)),
    ensures
        r is Ok <==> !items_violate(items@, ns_view(ns@), export_fn(ex@), sh@),
        r matches Ok(k) ==> items_rewrite(items@, k@, ns_view(ns@), sh@),
        r matches Err(x) ==> rewrite_error(x),
        r matches Err(x) ==> items_misuse(items@, ns_view(ns@), export_fn(ex@), sh@, x),
    decreases items@, 0nat,
{
    let ghost orig = items@;
    if items.len() == 0 {
        return Ok(Vec::new());
    }
    let mut rest = items;
    let first = rest.remove(0);
    proof {
        assert(first == orig[0]);
        assert(rest@ =~= orig.drop_first());
        assert(decreases_to!(orig => orig[0]));
    }
    match first {
        MatchItem::Bind(b) => {
            let Bind { target, value, exported } = b;
            let v = match rewrite(value, ns, ex, sh) {
                Ok(y) => y,
                Err(x) => {
                    return Err(x);
                },
            };
            let mut scope = copy_names(sh);
            match &target {
                BindTarget::Name(n) => scope.push(n.clone()),
                BindTarget::Pattern(p) => collect_pattern_names(p, &mut scope),
            }
            proof {
                assert(scope@ =~= sh@ + target_names(target));
            }
            let mut tail = match rewrite_items(rest, ns, ex, &scope) {
                Ok(t) => t,
                Err(x) => {
                    return Err(x);
                },
            };
            let mut out = vec![MatchItem::Bind(Bind { target, value: v, exported })];
            let ghost tail_v = tail@;
            out.append(&mut tail);
            proof {
                assert(out@.drop_first() =~= tail_v);
            }
            Ok(out)
        },
        MatchItem::Stmt(x) => {
            let v = match rewrite(x, ns, ex, sh) {
                Ok(y) => y,
                Err(e) => {
                    return Err(e);
                },
            };
            let mut tail = match rewrite_items(rest, ns, ex, sh) {
                Ok(t) => t,
                Err(e) => {
                    return Err(e);
                },
            };
            let mut out = vec![MatchItem::Stmt(v)];
            let ghost tail_v = tail@;
            out.append(&mut tail);
            proof {
                assert(out@.drop_first() =~= tail_v);
            }
            Ok(out)
        },
        MatchItem::Arm(a) => {
            let Arm { pattern, guard, result } = a;
            let mut arm_scope = copy_names(sh);
            match &pattern {
                Some(p) => collect_pattern_names(p, &mut arm_scope),
                None => {},
            }
            proof {
                assert(arm_scope@ =~= sh@ + arm_names(Arm { pattern, guard, result }));
            }
            let g = match guard {
                Some(g) => match rewrite(g, ns, ex, &arm_scope) {
                    Ok(y) => Some(y),
                    Err(e) => {
                        return Err(e);
                    },
                },
                None => None,
            };
            let res = match rewrite(result, ns, ex, &arm_scope) {
                Ok(y) => y,
                Err(e) => {
                    return Err(e);
                },
            };
            let mut tail = match rewrite_items(rest, ns, ex, sh) {
                Ok(t) => t,
                Err(e) => {
                    return Err(e);
                },
            };
            let mut out = vec![MatchItem::Arm(Arm { pattern, guard: g, result: res })];
            let ghost tail_v = tail@;
            out.append(&mut tail);
            proof {
                assert(out@.drop_first() =~= tail_v);
            }
            Ok(out)
        },
    }
}

/// Rewrites `NS.field` (and `alias.field`) to the mangled `"NS.field"`
/// reference and rejects a namespace name in any other seat; `sh` holds the
/// names bound locally.
fn rewrite(e: Expr, ns: &Vec<(String, String)>, ex: &Vec<(String, Vec<String>)>, sh: &Vec<String>) -> (r: Result<
    Expr,
    LinkError,
>)
    requires
        targets_known(ns_view(ns@), export_fn(ex@)),
    ensures
        r is Ok <==> !violates(e, ns_view(ns@), export_fn(ex@), sh@),
        r matches Ok(k) ==> rewrites(e, k, ns_view(ns@), sh@),
        r matches Err(x) ==> rewrite_error(x),
        r matches Err(x) ==> faults(e, ns_view(ns@), export_fn(ex@), sh@, x),
    decreases e, 1nat,
{
    let ghost e0 = e;
    let module = match &e {
        Expr::Access { target, form: AccessForm::Field(_), .. } => match &**target {
            Expr::Ref(Ref::Immutable(BindingRef::Name(n))) => {
                let r = namespace(ns, sh, n);
                proof {
                    assert(r matches Some(m) ==> m@ == access_ns(e0, ns_view(ns@), sh@));
                }
                r
            },
            _ => None,
        },
        _ => None,
    };
    proof {
        assert(module is Some <==> ns_access(e0, ns_view(ns@), sh@));
    }
    match module {
        Some(m) => {
            let field = match &e {
                Expr::Access { form: AccessForm::Field(f), .. } => f.clone(),
                _ => {
                    return Err(LinkError::ModuleInValueSeat { module: m });
                },
            };
            proof {
                lemma_lookup_in(ns_view(ns@), (*e0->Access_target)->Ref_0->Immutable_0->Name_0@);
            }
            if !is_exported(ex, &m, &field) {
                return Err(LinkError::NotExported { module: m, name: field });
            }
            let s = concat3(m.as_str(), ".", field.as_str());
            proof {
                reveal_strlit(".");
                assert(field@ == e0->Access_form->Field_0@);
                assert(s@ == access_ns(e0, ns_view(ns@), sh@) + seq!['.'] + e0->Access_form->Field_0@);
            }
            return Ok(Expr::Ref(Ref::Immutable(BindingRef::Name(s))));
        },
        None => {},
    }
    match e {
        Expr::Ref(r0) => match r0 {
            Ref::Immutable(BindingRef::Name(n)) => match namespace(ns, sh, &n) {
                Some(m) => Err(LinkError::ModuleInValueSeat { module: m }),
                None => Ok(Expr::Ref(Ref::Immutable(BindingRef::Name(n)))),
            },
            other => Ok(Expr::Ref(other)),
        },
        Expr::Const(v) => Ok(Expr::Const(v)),
        Expr::Lambda(l) => {
            let Lambda { params, body, act_kind } = l;
            let inner = with_names(sh, &params);
            match rewrite(*body, ns, ex, &inner) {
                Ok(b) => Ok(Expr::Lambda(Lambda { params, body: Box::new(b), act_kind })),
                Err(x) => Err(x),
            }
        },
        Expr::Apply { callee, args } => {
            let c = match rewrite(*callee, ns, ex, sh) {
                Ok(y) => y,
                Err(x) => {
                    return Err(x);
                },
            };
            match rewrite_args(args, ns, ex, sh) {
                Ok(a) => Ok(Expr::Apply { callee: Box::new(c), args: a }),
                Err(x) => Err(x),
            }
        },
        Expr::PrimOp { op, args } => match rewrite_exprs(args, ns, ex, sh) {
            Ok(a) => Ok(Expr::PrimOp { op, args: a }),
            Err(x) => Err(x),
        },
        Expr::Match(m) => {
            let Match { scrutinee, items } = m;
            let s = match rewrite_opt(scrutinee, ns, ex, sh) {
                Ok(y) => y,
                Err(x) => {
                    return Err(x);
                },
            };
            match rewrite_items(items, ns, ex, sh) {
                Ok(its) => Ok(Expr::Match(Match { scrutinee: s, items: its })),
                Err(x) => Err(x),
            }
        },
        Expr::TupleCons(els) => match rewrite_elements(els, ns, ex, sh) {
            Ok(v) => Ok(Expr::TupleCons(v)),
            Err(x) => Err(x),
        },
        Expr::RecordCons(fs) => match rewrite_fields(fs, ns, ex, sh) {
            Ok(v) => Ok(Expr::RecordCons(v)),
            Err(x) => Err(x),
        },
        Expr::Access { target, form, total } => {
            let t = match rewrite(*target, ns, ex, sh) {
                Ok(y) => y,
                Err(x) => {
                    return Err(x);
                },
            };
            let f = match form {
                AccessForm::Field(name) => AccessForm::Field(name),
                AccessForm::Index(x) => match rewrite(*x, ns, ex, sh) {
                    Ok(y) => AccessForm::Index(Box::new(y)),
                    Err(er) => {
                        return Err(er);
                    },
                },
                AccessForm::Slice { lo, hi } => {
                    let l = match rewrite_opt(lo, ns, ex, sh) {
                        Ok(y) => y,
                        Err(er) => {
                            return Err(er);
                        },
                    };
                    let h = match rewrite_opt(hi, ns, ex, sh) {
                        Ok(y) => y,
                        Err(er) => {
                            return Err(er);
                        },
                    };
                    AccessForm::Slice { lo: l, hi: h }
                },
            };
            Ok(Expr::Access { target: Box::new(t), form: f, total })
        },
        Expr::Template(parts) => match rewrite_parts(parts, ns, ex, sh) {
            Ok(v) => Ok(Expr::Template(v)),
            Err(x) => Err(x),
        },
        Expr::Write { slot, value } => match rewrite(*value, ns, ex, sh) {
            Ok(y) => Ok(Expr::Write { slot, value: Box::new(y) }),
            Err(x) => Err(x),
        },
    }
}


// ── Module resolution ────────────────────────────────────────────────────────

/// The names a module exports: exported `Name` bindings, slots and acts, in
/// order.
pub open spec fn exports_in(items: Seq<Item>) -> Seq<String>
    decreases items.len(),
{
    if items.len() == 0 {
        seq![]
    } else {
        exports_in(items.drop_last()) + match items.last() {
            Item::Bind(b) => if b.exported && b.target is Name {
                seq![b.target->Name_0]
            } else {
                seq![]
            },
            Item::SlotDecl(d) => if d.exported {
                seq![d.name]
            } else {
                seq![]
            },
            Item::ActBind(a) => if a.exported {
                seq![a.name]
            } else {
                seq![]
            },
            _ => seq![],
        }
    }
}

/// The name an item exports, if it exports one: an exported `Name` binding,
/// slot declaration or act.
pub open spec fn exported_name(it: Item) -> Option<String> {
    match it {
        Item::Bind(b) => if b.exported && b.target is Name {
            Some(b.target->Name_0)
        } else {
            None
        },
        Item::SlotDecl(d) => if d.exported {
            Some(d.name)
        } else {
            None
        },
        Item::ActBind(a) => if a.exported {
            Some(a.name)
        } else {
            None
        },
        _ => None,
    }
}

/// The export list is exactly the names the module's exported items declare:
/// each exported `Name` binding, slot declaration and act contributes its
/// name, in item order, and nothing else contributes.
pub proof fn lemma_exports_are_exported_items(items: Seq<Item>)
    ensures
        forall|i: int| 0 <= i < items.len() && (#[trigger] items[i]) is Bind && items[i]->Bind_0.exported
            && items[i]->Bind_0.target is Name ==> exports_in(items).contains(items[i]->Bind_0.target->Name_0),
        forall|i: int| 0 <= i < items.len() && (#[trigger] items[i]) is SlotDecl && items[i]->SlotDecl_0.exported
            ==> exports_in(items).contains(items[i]->SlotDecl_0.name),
        forall|i: int| 0 <= i < items.len() && (#[trigger] items[i]) is ActBind && items[i]->ActBind_0.exported
            ==> exports_in(items).contains(items[i]->ActBind_0.name),
        forall|k: int| #![trigger exports_in(items)[k]] 0 <= k < exports_in(items).len() ==> exists|i: int|
            0 <= i < items.len() && #[trigger] exported_name(items[i]) == Some(exports_in(items)[k]),
    decreases items.len(),
{
    if items.len() > 0 {
        let init = items.drop_last();
        lemma_exports_are_exported_items(init);
        let last = items.last();
        let tail: Seq<String> = match last {
            Item::Bind(b) => if b.exported && b.target is Name {
                seq![b.target->Name_0]
            } else {
                seq![]
            },
            Item::SlotDecl(d) => if d.exported {
                seq![d.name]
            } else {
                seq![]
            },
            Item::ActBind(a) => if a.exported {
                seq![a.name]
            } else {
                seq![]
            },
            _ => seq![],
        };
        assert(exports_in(items) == exports_in(init) + tail);
        let e = exports_in(items);
        let n = exports_in(init).len();
        assert forall|i: int| 0 <= i < items.len() && exported_name(#[trigger] items[i]) is Some implies e.contains(
            exported_name(items[i])->Some_0,
        ) by {
            if i < items.len() - 1 {
                assert(items[i] == init[i]);
                let x = exported_name(items[i])->Some_0;
                assert(exports_in(init).contains(x));
                let k = choose|k: int| 0 <= k < n && exports_in(init)[k] == x;
                assert(e[k] == x);
            } else {
                assert(e[n as int] == exported_name(last)->Some_0);
            }
        }
        assert forall|i: int| 0 <= i < items.len() && (#[trigger] items[i]) is Bind && items[i]->Bind_0.exported
            && items[i]->Bind_0.target is Name implies e.contains(items[i]->Bind_0.target->Name_0) by {
            assert(exported_name(items[i]) is Some);
        }
        assert forall|i: int| 0 <= i < items.len() && (#[trigger] items[i]) is SlotDecl
            && items[i]->SlotDecl_0.exported implies e.contains(items[i]->SlotDecl_0.name) by {
            assert(exported_name(items[i]) is Some);
        }
        assert forall|i: int| 0 <= i < items.len() && (#[trigger] items[i]) is ActBind
            && items[i]->ActBind_0.exported implies e.contains(items[i]->ActBind_0.name) by {
            assert(exported_name(items[i]) is Some);
        }
        assert forall|k: int| #![trigger e[k]] 0 <= k < e.len() implies exists|i: int|
            0 <= i < items.len() && #[trigger] exported_name(items[i]) == Some(e[k]) by {
            if k < n {
                let i = choose|i: int| 0 <= i < init.len() && #[trigger] exported_name(init[i]) == Some(
                    exports_in(init)[k],
                );
                assert(items[i] == init[i]);
                assert(exported_name(items[i]) == Some(e[k]));
            } else {
                assert(exported_name(items[items.len() - 1]) == Some(e[k]));
            }
        }
    }
}

/// The whole-module imports of a module, as namespace entries.
pub open spec fn import_namespaces(items: Seq<Item>) -> Seq<(Seq<char>, Seq<char>)>
    decreases items.len(),
{
    if items.len() == 0 {
        seq![]
    } else {
        import_namespaces(items.drop_last()) + match items.last() {
            Item::Import(i) => if i.names is None {
                seq![(i.module@, i.module@)]
            } else {
                seq![]
            },
            _ => seq![],
        }
    }
}

/// `b` is `alias = NS` for a visible namespace `NS`.
pub open spec fn alias_of(b: Bind, ns: Seq<(Seq<char>, Seq<char>)>) -> bool {
    &&& b.target is Name
    &&& b.value matches Expr::Ref(Ref::Immutable(BindingRef::Name(n)))
    &&& ns_lookup(ns, n@) is Some
}

/// The namespace table after the alias binding `b`.
pub open spec fn after_alias(b: Bind, ns: Seq<(Seq<char>, Seq<char>)>) -> Seq<(Seq<char>, Seq<char>)> {
    ns.push((b.target->Name_0@, ns_lookup(ns, b.value->Ref_0->Immutable_0->Name_0@)->Some_0))
}

/// Whether resolving the items fails: an exported alias of a namespace, or a
/// misused namespace name in a rewritten body.
pub open spec fn resolve_violates(items: Seq<Item>, ns: Seq<(Seq<char>, Seq<char>)>, ex: spec_fn(Seq<char>) -> Option<Seq<String>>) -> bool
    decreases items.len(),
{
    if items.len() == 0 {
        false
    } else {
        let rest = items.drop_first();
        match items[0] {
            Item::Bind(b) => if alias_of(b, ns) {
                b.exported || resolve_violates(rest, after_alias(b, ns), ex)
            } else {
                violates(b.value, ns, ex, seq![]) || resolve_violates(rest, ns, ex)
            },
            Item::SlotDecl(d) => violates(d.init, ns, ex, seq![]) || resolve_violates(rest, ns, ex),
            Item::ActBind(a) => violates(*a.lambda.body, ns, ex, pattern_names(a.lambda.params)) || resolve_violates(
                rest,
                ns,
                ex,
            ),
            Item::Stmt(x) => violates(x, ns, ex, seq![]) || resolve_violates(rest, ns, ex),
            _ => resolve_violates(rest, ns, ex),
        }
    }
}

/// `x` is the error resolving `items` reports: the first failing item
/// decides; an exported alias of a namespace reports `ModuleInValueSeat`
/// with the module it names, and a misused namespace name in a body reports
/// the error that rewriting the body reports.
pub open spec fn resolve_fault(items: Seq<Item>, ns: Seq<(Seq<char>, Seq<char>)>, ex: spec_fn(Seq<char>) -> Option<Seq<String>>, x: LinkError) -> bool
    decreases items.len(),
{
    if items.len() == 0 {
        false
    } else {
        let rest = items.drop_first();
        match items[0] {
            Item::Bind(b) => if alias_of(b, ns) {
                if b.exported {
                    x matches LinkError::ModuleInValueSeat { module } && module@ == ns_lookup(
                        ns,
                        b.value->Ref_0->Immutable_0->Name_0@,
                    )->Some_0
                } else {
                    resolve_fault(rest, after_alias(b, ns), ex, x)
                }
            } else if violates(b.value, ns, ex, seq![]) {
                faults(b.value, ns, ex, seq![], x)
            } else {
                resolve_fault(rest, ns, ex, x)
            },
            Item::SlotDecl(d) => if violates(d.init, ns, ex, seq![]) {
                faults(d.init, ns, ex, seq![], x)
            } else {
                resolve_fault(rest, ns, ex, x)
            },
            Item::ActBind(a) => if violates(*a.lambda.body, ns, ex, pattern_names(a.lambda.params)) {
                faults(*a.lambda.body, ns, ex, pattern_names(a.lambda.params), x)
            } else {
                resolve_fault(rest, ns, ex, x)
            },
            Item::Stmt(y) => if violates(y, ns, ex, seq![]) {
                faults(y, ns, ex, seq![], x)
            } else {
                resolve_fault(rest, ns, ex, x)
            },
            _ => resolve_fault(rest, ns, ex, x),
        }
    }
}

/// The resolved items: alias bindings dropped (they only extend the
/// namespace table), bodies rewritten, imports and `where` clauses kept.
pub open spec fn resolves(items: Seq<Item>, out: Seq<Item>, ns: Seq<(Seq<char>, Seq<char>)>) -> bool
    decreases items.len(),
{
    if items.len() == 0 {
        out.len() == 0
    } else {
        let rest = items.drop_first();
        match items[0] {
            Item::Bind(b) => if alias_of(b, ns) {
                resolves(rest, out, after_alias(b, ns))
            } else {
                &&& out.len() > 0
                &&& out[0] matches Item::Bind(c)
                &&& c.target == b.target
                &&& c.exported == b.exported
                &&& rewrites(b.value, c.value, ns, seq![])
                &&& resolves(rest, out.drop_first(), ns)
            },
            Item::SlotDecl(d) => {
                &&& out.len() > 0
                &&& out[0] matches Item::SlotDecl(t)
                &&& t.reactive == d.reactive && t.name == d.name && t.exported == d.exported
                &&& rewrites(d.init, t.init, ns, seq![])
                &&& resolves(rest, out.drop_first(), ns)
            },
            Item::ActBind(a) => {
                &&& out.len() > 0
                &&& out[0] matches Item::ActBind(c)
                &&& c.kind == a.kind && c.name == a.name && c.exported == a.exported
                &&& c.lambda.params == a.lambda.params && c.lambda.act_kind == a.lambda.act_kind
                &&& rewrites(*a.lambda.body, *c.lambda.body, ns, pattern_names(a.lambda.params))
                &&& resolves(rest, out.drop_first(), ns)
            },
            Item::Stmt(x) => {
                &&& out.len() > 0
                &&& out[0] matches Item::Stmt(y)
                &&& rewrites(x, y, ns, seq![])
                &&& resolves(rest, out.drop_first(), ns)
            },
            _ => out.len() > 0 && out[0] == items[0] && resolves(rest, out.drop_first(), ns),
        }
    }
}

/// The exported names of a module, in order.
pub fn exported_names(m: &Module) -> (r: Vec<String>)
    ensures
        r@ == exports_in(m.items@),
{
    let mut out: Vec<String> = Vec::new();
    let mut i: usize = 0;
    while i < m.items.len()
        invariant
            i <= m.items@.len(),
            out@ == exports_in(m.items@.take(i as int)),
        decreases m.items@.len() - i,
    {
        match &m.items[i] {
            Item::Bind(b) => if b.exported {
                match &b.target {
                    BindTarget::Name(n) => out.push(n.clone()),
                    _ => {},
                }
            },
            Item::SlotDecl(d) => if d.exported {
                out.push(d.name.clone());
            },
            Item::ActBind(a) => if a.exported {
                out.push(a.name.clone());
            },
            _ => {},
        }
        proof {
            assert(m.items@.take(i + 1).drop_last() =~= m.items@.take(i as int));
            assert(out@ =~= exports_in(m.items@.take(i + 1)));
        }
        i = i + 1;
    }
    assert(m.items@.take(m.items@.len() as int) =~= m.items@);
    out
}

/// The namespace table of a module's whole-module imports.
fn namespaces_of(items: &Vec<Item>) -> (r: Vec<(String, String)>)
    ensures
        ns_view(r@) == import_namespaces(items@),
{
    let mut out: Vec<(String, String)> = Vec::new();
    let mut i: usize = 0;
    while i < items.len()
        invariant
            i <= items@.len(),
            ns_view(out@) == import_namespaces(items@.take(i as int)),
        decreases items@.len() - i,
    {
        match &items[i] {
            Item::Import(imp) => if imp.names.is_none() {
                out.push((imp.module.clone(), imp.module.clone()));
            },
            _ => {},
        }
        proof {
            assert(items@.take(i + 1).drop_last() =~= items@.take(i as int));
            assert(ns_view(out@) =~= import_namespaces(items@.take(i + 1)));
        }
        i = i + 1;
    }
    assert(items@.take(items@.len() as int) =~= items@);
    out
}

/// A copy of a namespace table.
fn copy_table(ns: &Vec<(String, String)>) -> (r: Vec<(String, String)>)
    ensures
        ns_view(r@) == ns_view(ns@),
{
    let mut out: Vec<(String, String)> = Vec::new();
    let mut i: usize = 0;
    while i < ns.len()
        invariant
            i <= ns@.len(),
            out@.len() == i,
            forall|j: int| 0 <= j < i ==> (#[trigger] out@[j]).0@ == ns@[j].0@ && out@[j].1@ == ns@[j].1@,
        decreases ns@.len() - i,
    {
        out.push((ns[i].0.clone(), ns[i].1.clone()));
        i = i + 1;
    }
    assert(ns_view(out@) =~= ns_view(ns@));
    out
}

/// Resolves the items of a module in order: aliases extend the namespace
/// table, every body is rewritten under the table in force.
fn resolve_items(items: Vec<Item>, ns: &Vec<(String, String)>, ex: &Vec<(String, Vec<String>)>) -> (r: Result<
    Vec<Item>,
    LinkError,
>)
    requires
        targets_known(ns_view(ns@), export_fn(ex@)),
    ensures
        r is Ok <==> !resolve_violates(items@, ns_view(ns@), export_fn(ex@)),
        r matches Ok(out) ==> resolves(items@, out@, ns_view(ns@)),
        r matches Err(x) ==> rewrite_error(x),
        r matches Err(x) ==> resolve_fault(items@, ns_view(ns@), export_fn(ex@), x),
    decreases items@.len(),
{
    let ghost orig = items@;
    if items.len() == 0 {
        return Ok(Vec::new());
    }
    let mut rest = items;
    let first = rest.remove(0);
    proof {
        assert(first == orig[0]);
        assert(rest@ =~= orig.drop_first());
    }
    let kept: Item = match first {
        Item::Bind(b) => {
            let alias = match (&b.target, &b.value) {
                (BindTarget::Name(a), Expr::Ref(Ref::Immutable(BindingRef::Name(n)))) => {
                    match namespace(ns, &Vec::new(), n) {
                        Some(t) => Some((a.clone(), t)),
                        None => None,
                    }
                },
                _ => None,
            };
            proof {
                assert(!shadows(Seq::<String>::empty(), (b.value)->Ref_0->Immutable_0->Name_0@));
                assert(alias is Some <==> alias_of(b, ns_view(ns@)));
            }
            match alias {
                Some((a, t)) => {
                    if b.exported {
                        return Err(LinkError::ModuleInValueSeat { module: t });
                    }
                    let mut table = copy_table(ns);
                    table.push((a, t));
                    proof {
                        assert(ns_view(table@) =~= after_alias(b, ns_view(ns@)));
                        lemma_lookup_in(ns_view(ns@), (b.value)->Ref_0->Immutable_0->Name_0@);
                        assert forall|i: int| 0 <= i < ns_view(table@).len() implies (#[trigger] export_fn(ex@)(ns_view(table@)[i].1)) is Some by {
                            if i < ns@.len() {
                                assert(ns_view(table@)[i] == ns_view(ns@)[i]);
                            }
                        }
                    }
                    return resolve_items(rest, &table, ex);
                },
                None => {
                    let Bind { target, value, exported } = b;
                    let v = match rewrite(value, ns, ex, &Vec::new()) {
                        Ok(y) => y,
                        Err(x) => {
                            return Err(x);
                        },
                    };
                    Item::Bind(Bind { target, value: v, exported })
                },
            }
        },
        Item::SlotDecl(d) => {
            let crate::ast::SlotDecl { reactive, name, init, exported } = d;
            let v = match rewrite(init, ns, ex, &Vec::new()) {
                Ok(y) => y,
                Err(x) => {
                    return Err(x);
                },
            };
            Item::SlotDecl(crate::ast::SlotDecl { reactive, name, init: v, exported })
        },
        Item::ActBind(a) => {
            let crate::ast::ActBind { kind, name, lambda, exported } = a;
            let Lambda { params, body, act_kind } = lambda;
            let inner = pattern_names_of(&params);
            let v = match rewrite(*body, ns, ex, &inner) {
                Ok(y) => y,
                Err(x) => {
                    return Err(x);
                },
            };
            Item::ActBind(crate::ast::ActBind { kind, name, lambda: Lambda { params, body: Box::new(v), act_kind }, exported })
        },
        Item::Stmt(x) => {
            let v = match rewrite(x, ns, ex, &Vec::new()) {
                Ok(y) => y,
                Err(e) => {
                    return Err(e);
                },
            };
            Item::Stmt(v)
        },
        other => other,
    };
    let mut tail = match resolve_items(rest, ns, ex) {
        Ok(t) => t,
        Err(x) => {
            return Err(x);
        },
    };
    let mut out = vec![kept];
    let ghost tail_v = tail@;
    out.append(&mut tail);
    proof {
        assert(out@.drop_first() =~= tail_v);
    }
    Ok(out)
}

/// Alias resolution and namespace-access rewriting for one module.
pub fn resolve(m: Module, ex: &Vec<(String, Vec<String>)>) -> (r: Result<Module, LinkError>)
    requires
        forall|i: int| 0 <= i < import_namespaces(m.items@).len() ==> (#[trigger] export_fn(ex@)(import_namespaces(m.items@)[i].1)) is Some,
    ensures
        r is Ok <==> !resolve_violates(m.items@, import_namespaces(m.items@), export_fn(ex@)),
        r matches Ok(k) ==> k.name == m.name && resolves(m.items@, k.items@, import_namespaces(m.items@)),
        r matches Err(x) ==> rewrite_error(x),
        r matches Err(x) ==> resolve_fault(m.items@, import_namespaces(m.items@), export_fn(ex@), x),
{
    let ns = namespaces_of(&m.items);
    let Module { name, items } = m;
    match resolve_items(items, &ns, ex) {
        Ok(its) => Ok(Module { name, items: its }),
        Err(x) => Err(x),
    }
}


// ── Setup order ──────────────────────────────────────────────────────────────

/// Module `i` imports module `d`.
pub open spec fn edge(adj: Seq<Seq<usize>>, i: int, d: int) -> bool {
    0 <= i < adj.len() && exists|k: int| 0 <= k < adj[i].len() && adj[i][k] == d
}

/// Every dependency names a module.
pub open spec fn adj_ok(adj: Seq<Seq<usize>>) -> bool {
    &&& adj.len() <= usize::MAX
    &&& forall|i: int, k: int| 0 <= i < adj.len() && 0 <= k < adj[i].len() ==> #[trigger] adj[i][k] < adj.len()
}

/// `p` follows import edges.
pub open spec fn is_path(adj: Seq<Seq<usize>>, p: Seq<int>) -> bool {
    forall|k: int| 0 <= k < p.len() - 1 ==> edge(adj, #[trigger] p[k], p[k + 1])
}

/// Some modules import each other in a cycle.
pub open spec fn has_cycle(adj: Seq<Seq<usize>>) -> bool {
    exists|p: Seq<int>| p.len() >= 2 && is_path(adj, p) && p[0] == p.last()
}

/// `order` lists every module once, each after every module it imports.
pub open spec fn topo_sorted(adj: Seq<Seq<usize>>, order: Seq<usize>) -> bool {
    &&& order.no_duplicates()
    &&& forall|v: usize| (v as int) < adj.len() ==> #[trigger] order.contains(v)
    &&& forall|a: int| 0 <= a < order.len() ==> #[trigger] order[a] < adj.len()
    &&& forall|a: int, b: int| 0 <= a <= b < order.len() ==> !edge(adj, #[trigger] order[a] as int, #[trigger] order[b] as int)
}

/// A setup order leaves no room for a cycle.
pub proof fn lemma_sorted_acyclic(adj: Seq<Seq<usize>>, order: Seq<usize>)
    requires
        adj_ok(adj),
        topo_sorted(adj, order),
    ensures
        !has_cycle(adj),
{
    if has_cycle(adj) {
        let p = choose|p: Seq<int>| p.len() >= 2 && is_path(adj, p) && p[0] == p.last();
        lemma_path_descends(adj, order, p, (p.len() - 1) as nat);
        let k = (p.len() - 1) as int;
        let a = order.index_of(p[0] as usize);
        let b = order.index_of(p[k] as usize);
        assert(false);
    }
}

/// Along a path, positions in a setup order strictly decrease.
proof fn lemma_path_descends(adj: Seq<Seq<usize>>, order: Seq<usize>, p: Seq<int>, k: nat)
    requires
        adj_ok(adj),
        topo_sorted(adj, order),
        is_path(adj, p),
        p.len() >= 1,
        1 <= k < p.len(),
    ensures
        0 <= p[k as int] < adj.len(),
        order.index_of(p[k as int] as usize) < order.index_of(p[0] as usize),
    decreases k,
{
    assert(edge(adj, p[k - 1], p[k as int]));
    let i = p[k - 1];
    let d = p[k as int];
    let kk = choose|kk: int| 0 <= kk < adj[i].len() && adj[i][kk] == d;
    assert(0 <= i < adj.len());
    assert(order.contains(i as usize));
    assert(order.contains(d as usize)) by {
        assert(adj[i][kk] < adj.len());
    }
    let a = order.index_of(i as usize);
    let b = order.index_of(d as usize);
    assert(order[a] == i as usize && order[b] == d as usize);
    assert(0 <= a < order.len() && 0 <= b < order.len());
    if a <= b {
        assert(!edge(adj, order[a] as int, order[b] as int));
    }
    assert(b < a);
    if k > 1 {
        lemma_path_descends(adj, order, p, (k - 1) as nat);
    }
}

/// How many modules are still unvisited.
pub open spec fn white_count(s: Seq<u8>) -> nat
    decreases s.len(),
{
    if s.len() == 0 {
        0
    } else {
        white_count(s.drop_last()) + if s.last() == 0 {
            1nat
        } else {
            0
        }
    }
}

proof fn lemma_white_update(s: Seq<u8>, i: int, v: u8)
    requires
        0 <= i < s.len(),
    ensures
        s[i] == 0 && v != 0 ==> white_count(s.update(i, v)) + 1 == white_count(s),
        s[i] != 0 && v != 0 ==> white_count(s.update(i, v)) == white_count(s),
    decreases s.len(),
{
    if i < s.len() - 1 {
        lemma_white_update(s.drop_last(), i, v);
        assert(s.update(i, v).drop_last() =~= s.drop_last().update(i, v));
    } else {
        assert(s.update(i, v).drop_last() =~= s.drop_last());
    }
}

/// The depth-first search state: visiting modules (state 1) form the stack
/// path, finished modules (state 2) are those listed in `order`, each after
/// its imports, and their imports are finished.
pub open spec fn dfs_inv(adj: Seq<Seq<usize>>, state: Seq<u8>, order: Seq<usize>, stack: Seq<int>) -> bool {
    &&& state.len() == adj.len()
    &&& forall|v: int| 0 <= v < state.len() ==> #[trigger] state[v] <= 2
    &&& forall|v: int| 0 <= v < state.len() ==> (#[trigger] state[v] == 1 <==> stack.contains(v))
    &&& forall|k: int| 0 <= k < stack.len() ==> 0 <= #[trigger] stack[k] < adj.len()
    &&& is_path(adj, stack)
    &&& forall|x: int, k: int| 0 <= x < adj.len() && state[x] == 2 && 0 <= k < adj[x].len() ==> state[#[trigger] adj[x][k] as int] == 2
    &&& order.no_duplicates()
    &&& forall|a: int| 0 <= a < order.len() ==> #[trigger] order[a] < adj.len() && state[order[a] as int] == 2
    &&& forall|v: int| 0 <= v < state.len() && state[v] == 2 ==> order.contains(v as usize)
    &&& forall|a: int, b: int| 0 <= a <= b < order.len() ==> !edge(adj, #[trigger] order[a] as int, #[trigger] order[b] as int)
}

/// Visits module `i` and, first, everything it imports.
#[verifier::rlimit(50)]
#[verifier::spinoff_prover]
fn visit(i: usize, adj: &Vec<Vec<usize>>, state: &mut Vec<u8>, order: &mut Vec<usize>, Ghost(stack): Ghost<Seq<int>>) -> (r: Result<
    (),
    LinkError,
>)
    requires
        adj_ok(adj_view(adj@)),
        i < adj@.len(),
        old(state)@[i as int] == 0,
        dfs_inv(adj_view(adj@), old(state)@, old(order)@, stack),
        stack.len() > 0 ==> edge(adj_view(adj@), stack.last(), i as int),
    ensures
        final(state)@.len() == old(state)@.len(),
        white_count(final(state)@) <= white_count(old(state)@),
        r is Ok ==> dfs_inv(adj_view(adj@), final(state)@, final(order)@, stack),
        r is Ok ==> final(state)@[i as int] == 2,
        r is Ok ==> final(order)@.len() > 0 && final(order)@.last() == i,
        r is Ok ==> forall|v: int| 0 <= v < old(state)@.len() && old(state)@[v] == 2 ==> #[trigger] final(state)@[v] == 2,
        r is Err ==> has_cycle(adj_view(adj@)) && r->Err_0 is ImportCycle,
        forall|v: int| 0 <= v < old(state)@.len() && v != i && (forall|x: int| !edge(adj_view(adj@), x, v)) ==> #[trigger] final(state)@[v] == old(state)@[v],
    decreases white_count(old(state)@),
{
    let ghost g = adj_view(adj@);
    let ghost s0 = state@;
    let ghost st = stack.push(i as int);
    state.set(i, 1);
    proof {
        lemma_white_update(s0, i as int, 1);
        assert forall|v: int| 0 <= v < state@.len() implies (#[trigger] state@[v] == 1 <==> st.contains(v)) by {
            if v == i {
                assert(st[st.len() - 1] == v);
            } else {
                if stack.contains(v) {
                    let k = choose|k: int| 0 <= k < stack.len() && stack[k] == v;
                    assert(st[k] == v);
                }
                if st.contains(v) {
                    let k = choose|k: int| 0 <= k < st.len() && st[k] == v;
                    assert(stack[k] == v);
                }
            }
        }
        assert(is_path(g, st)) by {
            assert forall|k: int| 0 <= k < st.len() - 1 implies edge(g, #[trigger] st[k], st[k + 1]) by {
                if k < stack.len() - 1 {
                    assert(st[k] == stack[k] && st[k + 1] == stack[k + 1]);
                }
            }
        }
    }
    let n = adj[i].len();
    let mut j: usize = 0;
    while j < n
        invariant
            j <= n,
            n == g[i as int].len(),
            g == adj_view(adj@),
            adj_ok(g),
            i < g.len(),
            state@[i as int] == 1,
            state@.len() == s0.len(),
            dfs_inv(g, state@, order@, st),
            st == stack.push(i as int),
            white_count(state@) < white_count(s0),
            s0 == old(state)@,
            forall|v: int| 0 <= v < s0.len() && s0[v] == 2 ==> #[trigger] state@[v] == 2,
            forall|k: int| 0 <= k < j ==> state@[#[trigger] g[i as int][k] as int] == 2,
            stack.len() > 0 ==> edge(g, stack.last(), i as int),
            forall|v: int| 0 <= v < s0.len() && v != i && (forall|x: int| !edge(g, x, v)) ==> #[trigger] state@[v] == s0[v],
        decreases n - j,
    {
        let d = adj[i][j];
        proof {
            assert(g[i as int][j as int] == d);
            assert(d < g.len());
        }
        if state[d] == 1 {
            proof {
                assert(st.contains(d as int));
                let m = choose|m: int| 0 <= m < st.len() && st[m] == d as int;
                let p = st.subrange(m, st.len() as int).push(d as int);
                assert(edge(g, i as int, d as int));
                assert forall|k: int| 0 <= k < p.len() - 1 implies edge(g, #[trigger] p[k], p[k + 1]) by {
                    if k < p.len() - 2 {
                        assert(p[k] == st[m + k] && p[k + 1] == st[m + k + 1]);
                    } else {
                        assert(p[k] == st[st.len() - 1]);
                    }
                }
                assert(p.len() >= 2 && is_path(g, p) && p[0] == p.last());
            }
            return Err(LinkError::ImportCycle);
        }
        if state[d] == 0 {
            proof {
                assert(edge(g, st.last(), d as int));
            }
            match visit(d, adj, state, order, Ghost(st)) {
                Ok(()) => {},
                Err(e) => {
                    return Err(e);
                },
            }
        }
        j = j + 1;
    }
    let ghost s1 = state@;
    let ghost o1 = order@;
    state.set(i, 2);
    order.push(i);
    proof {
        lemma_white_update(s1, i as int, 2);
        assert forall|v: int| 0 <= v < state@.len() implies (#[trigger] state@[v] == 1 <==> stack.contains(v)) by {
            if v == i {
                if stack.contains(v) {
                    let k = choose|k: int| 0 <= k < stack.len() && stack[k] == v;
                    assert(st[k] == v);
                    assert(s1[v] == 1);
                }
            } else {
                assert(state@[v] == s1[v]);
                if stack.contains(v) {
                    let k = choose|k: int| 0 <= k < stack.len() && stack[k] == v;
                    assert(st[k] == v);
                }
                if st.contains(v) {
                    let k = choose|k: int| 0 <= k < st.len() && st[k] == v;
                    if k < stack.len() {
                        assert(stack[k] == v);
                    }
                }
            }
        }
        assert(is_path(g, stack)) by {
            assert forall|k: int| 0 <= k < stack.len() - 1 implies edge(g, #[trigger] stack[k], stack[k + 1]) by {
                assert(st[k] == stack[k] && st[k + 1] == stack[k + 1]);
                assert(edge(g, st[k], st[k + 1]));
            }
        }
        assert forall|x: int, k: int| 0 <= x < g.len() && state@[x] == 2 && 0 <= k < g[x].len() implies state@[#[trigger] g[x][k] as int] == 2 by {
            if x != i {
                assert(s1[x] == 2);
                assert(s1[g[x][k] as int] == 2);
            }
        }
        assert(!o1.contains(i)) by {
            if o1.contains(i) {
                let a = choose|a: int| 0 <= a < o1.len() && o1[a] == i;
                assert(s1[o1[a] as int] == 2);
            }
        }
        assert(order@.no_duplicates()) by {
            assert forall|a: int, b: int| 0 <= a < order@.len() && 0 <= b < order@.len() && a != b implies order@[a] != order@[b] by {
                if a < o1.len() && b < o1.len() {
                    assert(order@[a] == o1[a] && order@[b] == o1[b]);
                } else if a < o1.len() {
                    assert(order@[a] == o1[a]);
                } else if b < o1.len() {
                    assert(order@[b] == o1[b]);
                }
            }
        }
        assert forall|a: int| 0 <= a < order@.len() implies #[trigger] order@[a] < g.len() && state@[order@[a] as int] == 2 by {
            if a < o1.len() {
                assert(order@[a] == o1[a]);
            }
        }
        assert forall|v: int| 0 <= v < state@.len() && state@[v] == 2 implies order@.contains(v as usize) by {
            if v == i {
                assert(order@[order@.len() - 1] == i);
            } else {
                assert(s1[v] == 2);
                let a = choose|a: int| 0 <= a < o1.len() && o1[a] == v as usize;
                assert(order@[a] == v as usize);
            }
        }
        assert forall|a: int, b: int| 0 <= a <= b < order@.len() implies !edge(g, #[trigger] order@[a] as int, #[trigger] order@[b] as int) by {
            if b < o1.len() {
                assert(order@[a] == o1[a] && order@[b] == o1[b]);
            } else {
                let x = order@[a] as int;
                if edge(g, x, i as int) {
                    let kk = choose|kk: int| 0 <= kk < g[x].len() && g[x][kk] == i as int;
                    if a < o1.len() {
                        assert(order@[a] == o1[a]);
                        assert(s1[x] == 2);
                        assert(s1[g[x][kk] as int] == 2);
                    } else {
                        assert(x == i);
                        assert(s1[g[i as int][kk] as int] == 2);
                    }
                }
            }
        }
    }
    Ok(())
}

/// The setup order over named-module imports: every module after the ones
/// it imports, the entry last; an error when imports form a cycle.
pub fn topo_order(adj: &Vec<Vec<usize>>, entry: usize) -> (r: Result<Vec<usize>, LinkError>)
    requires
        adj_ok(adj_view(adj@)),
        entry < adj@.len(),
        forall|i: int| !edge(adj_view(adj@), i, entry as int),
    ensures
        r is Ok <==> !has_cycle(adj_view(adj@)),
        r matches Ok(o) ==> topo_sorted(adj_view(adj@), o@) && o@.last() == entry,
        r matches Err(x) ==> x is ImportCycle,
{
    let ghost g = adj_view(adj@);
    let n = adj.len();
    let mut state: Vec<u8> = Vec::new();
    let mut k: usize = 0;
    while k < n
        invariant
            k <= n,
            n == adj@.len(),
            state@.len() == k,
            forall|v: int| 0 <= v < k ==> #[trigger] state@[v] == 0,
        decreases n - k,
    {
        state.push(0);
        k = k + 1;
    }
    let mut order: Vec<usize> = Vec::new();
    proof {
        assert(order@.no_duplicates());
    }
    let mut i: usize = 0;
    while i < n
        invariant
            i <= n,
            n == adj@.len(),
            g == adj_view(adj@),
            adj_ok(g),
            entry < n,
            forall|x: int| !edge(g, x, entry as int),
            dfs_inv(g, state@, order@, Seq::<int>::empty()),
            forall|v: int| 0 <= v < i && v != entry ==> #[trigger] state@[v] == 2,
            state@[entry as int] == 0,
        decreases n - i,
    {
        if i != entry && state[i] == 0 {
            match visit(i, adj, &mut state, &mut order, Ghost(Seq::<int>::empty())) {
                Ok(()) => {},
                Err(e) => {
                    return Err(e);
                },
            }
        }
        i = i + 1;
    }
    match visit(entry, adj, &mut state, &mut order, Ghost(Seq::<int>::empty())) {
        Ok(()) => {},
        Err(e) => {
            return Err(e);
        },
    }
    proof {
        assert forall|v: usize| (v as int) < g.len() implies #[trigger] order@.contains(v) by {
            assert(state@[v as int] == 2);
        }
        lemma_sorted_acyclic(g, order@);
    }
    Ok(order)
}

/// The import adjacency as sequences.
pub open spec fn adj_view(adj: Seq<Vec<usize>>) -> Seq<Seq<usize>> {
    adj.map_values(|v: Vec<usize>| v@)
}


// ── Assembly ─────────────────────────────────────────────────────────────────

/// A linked, resolved, ordered project: the modules, their setup order, and
/// the index of the entry.
pub struct Assembled {
    pub modules: Vec<Module>,
    pub order: Vec<usize>,
    pub entry: usize,
}

/// `m` declares the module name `n`.
pub open spec fn declares(m: Module, n: Seq<char>) -> bool {
    m.name matches Some(x) && x@ == n
}

/// Modules `i` and `j` declare the same name.
pub open spec fn same_name(ms: Seq<Module>, i: int, j: int) -> bool {
    ms[i].name matches Some(x) && declares(ms[j], x@)
}

/// The first `k` modules declare pairwise distinct names.
pub open spec fn names_distinct(ms: Seq<Module>, k: int) -> bool {
    forall|i: int, j: int| #![trigger same_name(ms, i, j)] 0 <= i < j < k ==> !same_name(ms, i, j)
}

/// Module `second` is the first to repeat a name, which module `first`
/// declared before it.
pub open spec fn first_duplicate(ms: Seq<Module>, first: int, second: int) -> bool {
    &&& 0 <= first < second < ms.len()
    &&& names_distinct(ms, second)
    &&& same_name(ms, first, second)
}

/// How many headerless entry files there are.
pub open spec fn entry_count(ms: Seq<Module>) -> nat
    decreases ms.len(),
{
    if ms.len() == 0 {
        0
    } else {
        entry_count(ms.drop_last()) + if ms.last().name is None {
            1nat
        } else {
            0nat
        }
    }
}

/// The error for a name clash or a wrong number of entries.
pub open spec fn name_error(ms: Seq<Module>, x: LinkError) -> bool {
    match x {
        LinkError::DuplicateModule { name, first, second } => first_duplicate(ms, first as int, second as int) && declares(
            ms[second as int],
            name@,
        ),
        LinkError::Entries(n) => names_distinct(ms, ms.len() as int) && n == entry_count(ms) && n != 1,
        _ => false,
    }
}

/// The module that declares `n` (the latest one).
pub open spec fn name_index(ms: Seq<Module>, n: Seq<char>) -> Option<int>
    decreases ms.len(),
{
    if ms.len() == 0 {
        None
    } else if declares(ms.last(), n) {
        Some(ms.len() - 1)
    } else {
        name_index(ms.drop_last(), n)
    }
}

/// What the module named `n` exports.
pub open spec fn module_exports(ms: Seq<Module>, n: Seq<char>) -> Option<Seq<String>> {
    match name_index(ms, n) {
        Some(j) => Some(exports_in(ms[j].items@)),
        None => None,
    }
}

/// The project's export table.
pub open spec fn project_table(ms: Seq<Module>) -> spec_fn(Seq<char>) -> Option<Seq<String>> {
    |n: Seq<char>| module_exports(ms, n)
}

proof fn lemma_name_index(ms: Seq<Module>, n: Seq<char>)
    ensures
        name_index(ms, n) matches Some(j) ==> 0 <= j < ms.len() && declares(ms[j], n),
    decreases ms.len(),
{
    if ms.len() > 0 && !declares(ms.last(), n) {
        lemma_name_index(ms.drop_last(), n);
    }
}

/// What is wrong with one import.
pub ghost enum ImportFault {
    /// The imported module is not declared.
    Unknown { module: Seq<char> },
    /// The imported module does not export `name`.
    Missing { module: Seq<char>, name: Seq<char> },
}

/// The first of `names` that `exports` lacks.
pub open spec fn missing_name(names: Seq<String>, exports: Seq<String>) -> Option<Seq<char>>
    decreases names.len(),
{
    if names.len() == 0 {
        None
    } else if shadows(exports, names[0]@) {
        missing_name(names.drop_first(), exports)
    } else {
        Some(names[0]@)
    }
}

/// The name `missing_name` reports is one of the imported names and is not
/// among the exports.
proof fn lemma_missing_name(names: Seq<String>, exports: Seq<String>)
    ensures
        missing_name(names, exports) matches Some(x) ==> !shadows(exports, x) && exists|k: int|
            0 <= k < names.len() && (#[trigger] names[k])@ == x,
    decreases names.len(),
{
    if names.len() > 0 && shadows(exports, names[0]@) {
        lemma_missing_name(names.drop_first(), exports);
        if let Some(x) = missing_name(names.drop_first(), exports) {
            let k = choose|k: int| 0 <= k < names.drop_first().len() && (#[trigger] names.drop_first()[k])@ == x;
            assert(names[k + 1]@ == x);
        }
    } else if names.len() > 0 {
        assert(names[0]@ == names[0]@);
    }
}

/// A named import fails as not exported only for a name that no exported
/// item of the imported module declares: a name declared by an exported
/// `Name` binding, slot declaration or act always links.
pub proof fn lemma_exported_items_link(ms: Seq<Module>, imp: Import)
    ensures
        import_fault(ms, imp) matches Some(ImportFault::Missing { module, name }) ==> (name_index(ms, imp.module@) matches Some(
            j,
        ) && forall|i: int|
            0 <= i < ms[j].items@.len() ==> !(#[trigger] exported_name(ms[j].items@[i]) matches Some(n) && n@ == name)),
{
    if let Some(ImportFault::Missing { module, name }) = import_fault(ms, imp) {
        let j = name_index(ms, imp.module@)->Some_0;
        let exs = exports_in(ms[j].items@);
        let ns = imp.names->Some_0;
        lemma_missing_name(ns@, exs);
        lemma_exports_are_exported_items(ms[j].items@);
        assert forall|i: int| 0 <= i < ms[j].items@.len() implies !(#[trigger] exported_name(ms[j].items@[i]) matches Some(
            n,
        ) && n@ == name) by {
            let it = ms[j].items@[i];
            if let Some(n) = exported_name(it) {
                if n@ == name {
                    assert(exs.contains(n));
                    let k = choose|k: int| 0 <= k < exs.len() && exs[k] == n;
                    assert(exs[k]@ == name);
                    assert(shadows(exs, name));
                }
            }
        }
    }
}

/// What is wrong with an import, if anything.
pub open spec fn import_fault(ms: Seq<Module>, imp: Import) -> Option<ImportFault> {
    match module_exports(ms, imp.module@) {
        None => Some(ImportFault::Unknown { module: imp.module@ }),
        Some(exs) => match imp.names {
            Some(ns) => match missing_name(ns@, exs) {
                Some(x) => Some(ImportFault::Missing { module: imp.module@, name: x }),
                None => None,
            },
            None => None,
        },
    }
}

/// The first faulty import among `items`.
pub open spec fn items_fault(ms: Seq<Module>, items: Seq<Item>) -> Option<ImportFault>
    decreases items.len(),
{
    if items.len() == 0 {
        None
    } else {
        match items[0] {
            Item::Import(imp) => match import_fault(ms, imp) {
                Some(f) => Some(f),
                None => items_fault(ms, items.drop_first()),
            },
            _ => items_fault(ms, items.drop_first()),
        }
    }
}

/// The first faulty import of the modules from `k` on, with its importer.
pub open spec fn fault_from(ms: Seq<Module>, k: int) -> Option<(int, ImportFault)>
    decreases ms.len() - k,
{
    if k < 0 || k >= ms.len() {
        None
    } else {
        match items_fault(ms, ms[k].items@) {
            Some(f) => Some((k, f)),
            None => fault_from(ms, k + 1),
        }
    }
}

/// How an importer is named in errors.
pub open spec fn importer_label(m: Module) -> Seq<char> {
    match m.name {
        Some(n) => n@,
        None => "the entry file"@,
    }
}

/// The error reported for fault `f` of an import in module `m`.
pub open spec fn fault_error(m: Module, f: ImportFault, e: LinkError) -> bool {
    match f {
        ImportFault::Unknown { module } => e matches LinkError::UnknownModule { importer, module: x } && importer@
            == importer_label(m) && x@ == module,
        ImportFault::Missing { module, name } => e matches LinkError::NotExported { module: x, name: y } && x@ == module
            && y@ == name,
    }
}

/// Every module resolves under the project's export table.
pub open spec fn resolvable(ms: Seq<Module>) -> bool {
    forall|k: int|
        0 <= k < ms.len() ==> !resolve_violates(#[trigger] ms[k].items@, import_namespaces(ms[k].items@), project_table(ms))
}

/// The modules that `items` imports, by index, in order.
pub open spec fn deps_of(ms: Seq<Module>, items: Seq<Item>) -> Seq<usize>
    decreases items.len(),
{
    if items.len() == 0 {
        seq![]
    } else {
        deps_of(ms, items.drop_last()) + match items.last() {
            Item::Import(imp) => match name_index(ms, imp.module@) {
                Some(j) => seq![j as usize],
                None => seq![],
            },
            _ => seq![],
        }
    }
}

/// The project's import graph.
pub open spec fn import_graph(ms: Seq<Module>) -> Seq<Seq<usize>> {
    Seq::new(ms.len(), |i: int| deps_of(ms, ms[i].items@))
}

/// Linking succeeds: distinct names, one entry, sound imports, resolvable
/// bodies, no import cycle.
pub open spec fn project_links(ms: Seq<Module>) -> bool {
    &&& names_distinct(ms, ms.len() as int)
    &&& entry_count(ms) == 1
    &&& fault_from(ms, 0) is None
    &&& resolvable(ms)
    &&& !has_cycle(import_graph(ms))
}

/// `a` is the assembly of `ms`.
pub open spec fn assembled(ms: Seq<Module>, a: Assembled) -> bool {
    &&& a.entry < ms.len() && ms[a.entry as int].name is None
    &&& a.modules@.len() == ms.len()
    &&& forall|k: int|
        0 <= k < ms.len() ==> (#[trigger] a.modules@[k]).name == ms[k].name && resolves(
            ms[k].items@,
            a.modules@[k].items@,
            import_namespaces(ms[k].items@),
        )
    &&& topo_sorted(import_graph(ms), a.order@)
    &&& a.order@.last() == a.entry
}

/// `x` is the error the first module that fails to resolve reports.
pub open spec fn first_fault(ms: Seq<Module>, ex: spec_fn(Seq<char>) -> Option<Seq<String>>, x: LinkError) -> bool {
    exists|k: int|
        0 <= k < ms.len() && (forall|j: int| 0 <= j < k ==> !resolve_violates(#[trigger] ms[j].items@, import_namespaces(ms[j].items@), ex))
            && resolve_fault(#[trigger] ms[k].items@, import_namespaces(ms[k].items@), ex, x)
}

/// The error linking `ms` reports: checks run in order (names and entries,
/// imports, resolution, cycles), the first failing one decides.
pub open spec fn project_error(ms: Seq<Module>, x: LinkError) -> bool {
    if !(names_distinct(ms, ms.len() as int) && entry_count(ms) == 1) {
        name_error(ms, x)
    } else {
        match fault_from(ms, 0) {
            Some((k, f)) => fault_error(ms[k], f, x),
            None => if !resolvable(ms) {
                rewrite_error(x) && first_fault(ms, project_table(ms), x)
            } else {
                x is ImportCycle
            },
        }
    }
}

/// Checks that module names are distinct and that there is one entry; returns
/// the entry's index.
fn check_names(ms: &Vec<Module>) -> (r: Result<usize, LinkError>)
    ensures
        r is Ok <==> names_distinct(ms@, ms@.len() as int) && entry_count(ms@) == 1,
        r matches Ok(e) ==> e < ms@.len() && ms@[e as int].name is None,
        r matches Err(x) ==> name_error(ms@, x),
{
    let mut entries: usize = 0;
    let mut entry: usize = 0;
    let mut i: usize = 0;
    while i < ms.len()
        invariant
            i <= ms@.len(),
            names_distinct(ms@, i as int),
            entries <= i,
            entries == entry_count(ms@.take(i as int)),
            entries > 0 ==> entry < i && ms@[entry as int].name is None,
        decreases ms@.len() - i,
    {
        proof {
            assert(ms@.take(i + 1).drop_last() =~= ms@.take(i as int));
        }
        match &ms[i].name {
            Some(n) => {
                let mut j: usize = 0;
                while j < i
                    invariant
                        j <= i,
                        i < ms@.len(),
                        ms@[i as int].name == Some(*n),
                        names_distinct(ms@, i as int),
                        forall|k: int| 0 <= k < j ==> !declares(#[trigger] ms@[k], n@),
                    decreases i - j,
                {
                    match &ms[j].name {
                        Some(x) => {
                            if crate::text::str_is(x, n.as_str()) {
                                proof {
                                    assert(same_name(ms@, j as int, i as int));
                                }
                                return Err(LinkError::DuplicateModule { name: n.clone(), first: j, second: i });
                            }
                        },
                        None => {},
                    }
                    j = j + 1;
                }
                proof {
                    assert forall|a: int, b: int| #![trigger same_name(ms@, a, b)] 0 <= a < b < i + 1 implies !same_name(
                        ms@,
                        a,
                        b,
                    ) by {
                        if b == i {
                            assert(!declares(ms@[a], n@));
                        }
                    }
                }
            },
            None => {
                entries = entries + 1;
                entry = i;
                proof {
                    assert forall|a: int, b: int| #![trigger same_name(ms@, a, b)] 0 <= a < b < i + 1 implies !same_name(
                        ms@,
                        a,
                        b,
                    ) by {
                        if b == i {
                            assert(ms@[b].name is None);
                        }
                    }
                }
            },
        }
        i = i + 1;
    }
    proof {
        assert(ms@.take(ms@.len() as int) =~= ms@);
    }
    if entries != 1 {
        return Err(LinkError::Entries(entries));
    }
    Ok(entry)
}

/// The project's export table: each named module with its exports.
fn export_table(ms: &Vec<Module>) -> (ex: Vec<(String, Vec<String>)>)
    ensures
        export_fn(ex@) == project_table(ms@),
{
    let mut ex: Vec<(String, Vec<String>)> = Vec::new();
    let mut i: usize = 0;
    while i < ms.len()
        invariant
            i <= ms@.len(),
            forall|n: Seq<char>| #[trigger] exports_of(ex@, n) == module_exports(ms@.take(i as int), n),
        decreases ms@.len() - i,
    {
        let ghost old_ex = ex@;
        match &ms[i].name {
            Some(n) => {
                let names = exported_names(&ms[i]);
                ex.push((n.clone(), names));
            },
            None => {},
        }
        proof {
            let t = ms@.take(i + 1);
            assert(t.drop_last() =~= ms@.take(i as int));
            assert(t.last() == ms@[i as int]);
            assert forall|n: Seq<char>| #[trigger] exports_of(ex@, n) == module_exports(t, n) by {
                assert(exports_of(old_ex, n) == module_exports(ms@.take(i as int), n));
                lemma_name_index(ms@.take(i as int), n);
                if declares(ms@[i as int], n) {
                    assert(ex@.last().0@ == n);
                    assert(name_index(t, n) == Some(i as int));
                } else {
                    if ms@[i as int].name is Some {
                        assert(ex@.drop_last() =~= old_ex);
                        assert(ex@.last().0@ != n);
                    } else {
                        assert(ex@ == old_ex);
                    }
                    assert(name_index(t, n) == name_index(ms@.take(i as int), n));
                    match name_index(ms@.take(i as int), n) {
                        Some(j) => {
                            assert(t[j] == ms@[j]);
                            assert(ms@.take(i as int)[j] == ms@[j]);
                        },
                        None => {},
                    }
                }
            }
        }
        i = i + 1;
    }
    proof {
        assert(ms@.take(ms@.len() as int) =~= ms@);
        assert(export_fn(ex@) =~= project_table(ms@));
    }
    ex
}

/// The export list of module `m` in the table (the latest entry).
fn lookup_exports(ex: &Vec<(String, Vec<String>)>, m: &String) -> (r: Option<usize>)
    ensures
        r is None ==> exports_of(ex@, m@) is None,
        r matches Some(k) ==> k < ex@.len() && exports_of(ex@, m@) == Some(ex@[k as int].1@),
{
    let mut i: usize = ex.len();
    assert(ex@.take(ex@.len() as int) =~= ex@);
    while i > 0
        invariant
            i <= ex@.len(),
            exports_of(ex@, m@) == exports_of(ex@.take(i as int), m@),
        decreases i,
    {
        proof {
            assert(ex@.take(i as int).drop_last() =~= ex@.take(i - 1));
        }
        if crate::text::str_is(&ex[i - 1].0, m.as_str()) {
            return Some(i - 1);
        }
        i = i - 1;
    }
    None
}

/// The index of the first of `names` that `exports` lacks.
fn missing_in(names: &Vec<String>, exports: &Vec<String>) -> (r: Option<usize>)
    ensures
        r is None ==> missing_name(names@, exports@) is None,
        r matches Some(k) ==> k < names@.len() && missing_name(names@, exports@) == Some(names@[k as int]@),
{
    let mut i: usize = 0;
    assert(names@.subrange(0, names@.len() as int) =~= names@);
    while i < names.len()
        invariant
            i <= names@.len(),
            missing_name(names@, exports@) == missing_name(names@.subrange(i as int, names@.len() as int), exports@),
        decreases names@.len() - i,
    {
        proof {
            let rest = names@.subrange(i as int, names@.len() as int);
            assert(rest.drop_first() =~= names@.subrange(i + 1, names@.len() as int));
            assert(rest[0] == names@[i as int]);
        }
        if !is_shadowed(exports, &names[i]) {
            return Some(i);
        }
        i = i + 1;
    }
    None
}

/// Checks one import of module `importer`.
fn check_import(ms: &Vec<Module>, ex: &Vec<(String, Vec<String>)>, importer: &Module, imp: &Import) -> (r: Result<
    (),
    LinkError,
>)
    requires
        export_fn(ex@) == project_table(ms@),
    ensures
        match import_fault(ms@, *imp) {
            None => r is Ok,
            Some(f) => r matches Err(e) && fault_error(*importer, f, e),
        },
{
    proof {
        assert(export_fn(ex@)(imp.module@) == project_table(ms@)(imp.module@));
    }
    match lookup_exports(ex, &imp.module) {
        None => {
            let label = match &importer.name {
                Some(n) => n.clone(),
                None => "the entry file".to_owned(),
            };
            Err(LinkError::UnknownModule { importer: label, module: imp.module.clone() })
        },
        Some(k) => match &imp.names {
            None => Ok(()),
            Some(names) => match missing_in(names, &ex[k].1) {
                None => Ok(()),
                Some(q) => Err(LinkError::NotExported { module: imp.module.clone(), name: names[q].clone() }),
            },
        },
    }
}

/// Checks the imports of one module, in order.
fn check_items(ms: &Vec<Module>, ex: &Vec<(String, Vec<String>)>, m: &Module) -> (r: Result<(), LinkError>)
    requires
        export_fn(ex@) == project_table(ms@),
    ensures
        match items_fault(ms@, m.items@) {
            None => r is Ok,
            Some(f) => r matches Err(e) && fault_error(*m, f, e),
        },
{
    let mut i: usize = 0;
    assert(m.items@.subrange(0, m.items@.len() as int) =~= m.items@);
    while i < m.items.len()
        invariant
            i <= m.items@.len(),
            export_fn(ex@) == project_table(ms@),
            items_fault(ms@, m.items@) == items_fault(ms@, m.items@.subrange(i as int, m.items@.len() as int)),
        decreases m.items@.len() - i,
    {
        proof {
            let rest = m.items@.subrange(i as int, m.items@.len() as int);
            assert(rest.drop_first() =~= m.items@.subrange(i + 1, m.items@.len() as int));
            assert(rest[0] == m.items@[i as int]);
        }
        match &m.items[i] {
            Item::Import(imp) => {
                match check_import(ms, ex, m, imp) {
                    Ok(()) => {},
                    Err(e) => {
                        return Err(e);
                    },
                }
            },
            _ => {},
        }
        i = i + 1;
    }
    Ok(())
}

/// Checks every import of every module, in order.
fn check_imports(ms: &Vec<Module>, ex: &Vec<(String, Vec<String>)>) -> (r: Result<(), LinkError>)
    requires
        export_fn(ex@) == project_table(ms@),
    ensures
        match fault_from(ms@, 0) {
            None => r is Ok,
            Some((k, f)) => r matches Err(e) && fault_error(ms@[k], f, e),
        },
{
    let mut i: usize = 0;
    while i < ms.len()
        invariant
            i <= ms@.len(),
            export_fn(ex@) == project_table(ms@),
            fault_from(ms@, 0) == fault_from(ms@, i as int),
        decreases ms@.len() - i,
    {
        match check_items(ms, ex, &ms[i]) {
            Ok(()) => {},
            Err(e) => {
                return Err(e);
            },
        }
        i = i + 1;
    }
    Ok(())
}

/// Without a fault, every import of `items` is sound.
proof fn lemma_items_sound(ms: Seq<Module>, items: Seq<Item>)
    requires
        items_fault(ms, items) is None,
    ensures
        forall|j: int| 0 <= j < items.len() && (#[trigger] items[j]) is Import ==> import_fault(ms, items[j]->Import_0) is None,
    decreases items.len(),
{
    if items.len() > 0 {
        lemma_items_sound(ms, items.drop_first());
        assert forall|j: int| 0 <= j < items.len() && (#[trigger] items[j]) is Import implies import_fault(
            ms,
            items[j]->Import_0,
        ) is None by {
            if j > 0 {
                assert(items[j] == items.drop_first()[j - 1]);
            }
        }
    }
}

/// Sound imports name modules with exports.
proof fn lemma_namespaces_known(ms: Seq<Module>, items: Seq<Item>)
    requires
        forall|j: int| 0 <= j < items.len() && (#[trigger] items[j]) is Import ==> import_fault(ms, items[j]->Import_0) is None,
    ensures
        targets_known(import_namespaces(items), project_table(ms)),
    decreases items.len(),
{
    if items.len() > 0 {
        let init = items.drop_last();
        assert forall|j: int| 0 <= j < init.len() && (#[trigger] init[j]) is Import implies import_fault(
            ms,
            init[j]->Import_0,
        ) is None by {
            assert(init[j] == items[j]);
        }
        lemma_namespaces_known(ms, init);
        let ns = import_namespaces(items);
        let pre = import_namespaces(init);
        assert forall|i: int| 0 <= i < ns.len() implies (#[trigger] project_table(ms)(ns[i].1)) is Some by {
            if i < pre.len() {
                assert(ns[i] == pre[i]);
            } else {
                assert(items[items.len() - 1] == items.last());
            }
        }
    }
}

/// Without a fault from module `k` on, each of those modules is sound.
proof fn lemma_fault_from(ms: Seq<Module>, k: int)
    requires
        0 <= k,
        fault_from(ms, k) is None,
    ensures
        forall|j: int| k <= j < ms.len() ==> items_fault(ms, (#[trigger] ms[j]).items@) is None,
    decreases ms.len() - k,
{
    if k < ms.len() {
        lemma_fault_from(ms, k + 1);
    }
}

/// Every dependency is a named module of the project.
proof fn lemma_deps(ms: Seq<Module>, items: Seq<Item>)
    requires
        ms.len() <= usize::MAX,
    ensures
        forall|q: int| 0 <= q < deps_of(ms, items).len() ==> (#[trigger] deps_of(ms, items)[q]) < ms.len() && ms[deps_of(
            ms,
            items,
        )[q] as int].name is Some,
    decreases items.len(),
{
    if items.len() > 0 {
        lemma_deps(ms, items.drop_last());
        let pre = deps_of(ms, items.drop_last());
        let d = deps_of(ms, items);
        assert forall|q: int| 0 <= q < d.len() implies (#[trigger] d[q]) < ms.len() && ms[d[q] as int].name is Some by {
            if q < pre.len() {
                assert(d[q] == pre[q]);
            } else {
                match items.last() {
                    Item::Import(imp) => {
                        lemma_name_index(ms, imp.module@);
                    },
                    _ => {},
                }
            }
        }
    }
}

/// The module that declares `n`, if any (the latest).
fn find_module(ms: &Vec<Module>, n: &String) -> (r: Option<usize>)
    ensures
        r is None ==> name_index(ms@, n@) is None,
        r matches Some(j) ==> name_index(ms@, n@) == Some(j as int),
{
    let mut i: usize = ms.len();
    assert(ms@.take(ms@.len() as int) =~= ms@);
    while i > 0
        invariant
            i <= ms@.len(),
            name_index(ms@, n@) == name_index(ms@.take(i as int), n@),
        decreases i,
    {
        proof {
            assert(ms@.take(i as int).drop_last() =~= ms@.take(i - 1));
            assert(ms@.take(i as int).last() == ms@[i - 1]);
        }
        match &ms[i - 1].name {
            Some(x) => {
                if crate::text::str_is(x, n.as_str()) {
                    return Some(i - 1);
                }
            },
            None => {},
        }
        i = i - 1;
    }
    None
}

/// The modules `items` imports, by index, in order.
fn module_deps(ms: &Vec<Module>, items: &Vec<Item>) -> (r: Vec<usize>)
    ensures
        r@ == deps_of(ms@, items@),
{
    let mut out: Vec<usize> = Vec::new();
    let mut i: usize = 0;
    while i < items.len()
        invariant
            i <= items@.len(),
            out@ == deps_of(ms@, items@.take(i as int)),
        decreases items@.len() - i,
    {
        proof {
            assert(items@.take(i + 1).drop_last() =~= items@.take(i as int));
            assert(items@.take(i + 1).last() == items@[i as int]);
        }
        match &items[i] {
            Item::Import(imp) => match find_module(ms, &imp.module) {
                Some(j) => {
                    out.push(j);
                },
                None => {},
            },
            _ => {},
        }
        proof {
            assert(out@ =~= deps_of(ms@, items@.take(i + 1)));
        }
        i = i + 1;
    }
    assert(items@.take(items@.len() as int) =~= items@);
    out
}

/// The import graph of the project.
fn dependencies(ms: &Vec<Module>) -> (adj: Vec<Vec<usize>>)
    ensures
        adj_view(adj@) == import_graph(ms@),
{
    let mut adj: Vec<Vec<usize>> = Vec::new();
    let mut i: usize = 0;
    while i < ms.len()
        invariant
            i <= ms@.len(),
            adj@.len() == i,
            forall|k: int| 0 <= k < i ==> (#[trigger] adj@[k])@ == deps_of(ms@, ms@[k].items@),
        decreases ms@.len() - i,
    {
        let d = module_deps(ms, &ms[i].items);
        adj.push(d);
        i = i + 1;
    }
    assert(adj_view(adj@) =~= import_graph(ms@));
    adj
}

/// Resolves every module, in order.
fn resolve_all(ms: Vec<Module>, ex: &Vec<(String, Vec<String>)>) -> (r: Result<Vec<Module>, LinkError>)
    requires
        forall|k: int| 0 <= k < ms@.len() ==> targets_known(import_namespaces(#[trigger] ms@[k].items@), export_fn(ex@)),
    ensures
        r is Ok <==> forall|k: int|
            0 <= k < ms@.len() ==> !resolve_violates(#[trigger] ms@[k].items@, import_namespaces(ms@[k].items@), export_fn(ex@)),
        r matches Ok(out) ==> out@.len() == ms@.len() && forall|k: int|
            0 <= k < ms@.len() ==> (#[trigger] out@[k]).name == ms@[k].name && resolves(
                ms@[k].items@,
                out@[k].items@,
                import_namespaces(ms@[k].items@),
            ),
        r matches Err(x) ==> rewrite_error(x),
        r matches Err(x) ==> first_fault(ms@, export_fn(ex@), x),
{
    let ghost orig = ms@;
    let mut rest = ms;
    let mut out: Vec<Module> = Vec::new();
    while rest.len() > 0
        invariant
            orig == ms@,
            orig.len() == out@.len() + rest@.len(),
            rest@ == orig.subrange(out@.len() as int, orig.len() as int),
            forall|k: int| 0 <= k < orig.len() ==> targets_known(import_namespaces(#[trigger] orig[k].items@), export_fn(ex@)),
            forall|k: int|
                0 <= k < out@.len() ==> !resolve_violates(#[trigger] orig[k].items@, import_namespaces(orig[k].items@), export_fn(ex@)),
            forall|k: int|
                0 <= k < out@.len() ==> (#[trigger] out@[k]).name == orig[k].name && resolves(
                    orig[k].items@,
                    out@[k].items@,
                    import_namespaces(orig[k].items@),
                ),
        decreases rest@.len(),
    {
        let ghost at = out@.len() as int;
        let m = rest.remove(0);
        proof {
            assert(m == orig[at]);
            assert(rest@ =~= orig.subrange(at + 1, orig.len() as int));
        }
        match resolve(m, ex) {
            Ok(k) => {
                out.push(k);
            },
            Err(x) => {
                proof {
                    assert(resolve_violates(orig[at].items@, import_namespaces(orig[at].items@), export_fn(ex@)));
                }
                return Err(x);
            },
        }
    }
    Ok(out)
}

/// Links a project: module names are distinct and one file is the entry;
/// every import names a declared module and exported bindings; aliases and
/// namespace accesses resolve; the setup order puts every module after the
/// ones it imports, the entry last.
pub fn assemble(modules: Vec<Module>) -> (r: Result<Assembled, ProjectError>)
    ensures
        r is Ok <==> project_links(modules@),
        r matches Ok(a) ==> assembled(modules@, a),
        r matches Err(ProjectError::Link(x)) ==> project_error(modules@, x),
{
    let ghost ms = modules@;
    let n = modules.len();
    let entry = match check_names(&modules) {
        Ok(e) => e,
        Err(x) => {
            return Err(ProjectError::Link(x));
        },
    };
    let ex = export_table(&modules);
    match check_imports(&modules, &ex) {
        Ok(()) => {},
        Err(x) => {
            return Err(ProjectError::Link(x));
        },
    }
    let adj = dependencies(&modules);
    proof {
        lemma_fault_from(ms, 0);
        assert forall|k: int| 0 <= k < ms.len() implies targets_known(
            import_namespaces(#[trigger] ms[k].items@),
            export_fn(ex@),
        ) by {
            lemma_items_sound(ms, ms[k].items@);
            lemma_namespaces_known(ms, ms[k].items@);
        }
        let g = import_graph(ms);
        assert(g.len() == n);
        assert forall|i: int, q: int| 0 <= i < g.len() && 0 <= q < g[i].len() implies #[trigger] g[i][q] < g.len() by {
            lemma_deps(ms, ms[i].items@);
        }
        assert forall|i: int| !edge(g, i, entry as int) by {
            if edge(g, i, entry as int) {
                let q = choose|q: int| 0 <= q < g[i].len() && g[i][q] == entry as int;
                lemma_deps(ms, ms[i].items@);
            }
        }
    }
    let resolved = match resolve_all(modules, &ex) {
        Ok(o) => o,
        Err(x) => {
            return Err(ProjectError::Link(x));
        },
    };
    let order = match topo_order(&adj, entry) {
        Ok(o) => o,
        Err(x) => {
            return Err(ProjectError::Link(x));
        },
    };
    Ok(Assembled { modules: resolved, order, entry })
}

} // verus!
