//! Canonical keys of kernel expressions, used to group like terms and to
//! order the operands the arithmetic rule may move.
//!
//! A constant is keyed by its handle, a name by its spelling, an operation by
//! its name and its operands' keys, an application and an access by their
//! parts; every other node is keyed by a structural rendering (tag `O`) in
//! which strings carry their length, so distinct nodes get distinct keys.
//! Keys are compared character by character.

use crate::ast::{
    AccessForm, ActKind, Arg, Arm, Bind, BindTarget, BindingRef, Element, Expr, Field, Lambda, LocationId, Match,
    MatchItem, MuMarker, Pat, PatElem, PatField, PrimOp, Ref, SlotRef, TemplatePart,
};
use crate::text::{decimal, push_chars, push_decimal, push_decimal_usize};
use vstd::prelude::*;

verus! {

// ── Leaves ───────────────────────────────────────────────────────────────────

/// The name of an operation.
pub open spec fn op_name(op: PrimOp) -> Seq<char> {
    match op {
        PrimOp::Add => "Add"@,
        PrimOp::Sub => "Sub"@,
        PrimOp::Mul => "Mul"@,
        PrimOp::Div => "Div"@,
        PrimOp::Rem => "Rem"@,
        PrimOp::Pow => "Pow"@,
        PrimOp::Neg => "Neg"@,
        PrimOp::Lt => "Lt"@,
        PrimOp::Le => "Le"@,
        PrimOp::Gt => "Gt"@,
        PrimOp::Ge => "Ge"@,
        PrimOp::Eq => "Eq"@,
        PrimOp::Ne => "Ne"@,
    }
}

fn push_op_name(op: PrimOp, out: &mut Vec<char>)
    ensures
        final(out)@ == old(out)@ + op_name(op),
{
    match op {
        PrimOp::Add => push_chars(out, "Add"),
        PrimOp::Sub => push_chars(out, "Sub"),
        PrimOp::Mul => push_chars(out, "Mul"),
        PrimOp::Div => push_chars(out, "Div"),
        PrimOp::Rem => push_chars(out, "Rem"),
        PrimOp::Pow => push_chars(out, "Pow"),
        PrimOp::Neg => push_chars(out, "Neg"),
        PrimOp::Lt => push_chars(out, "Lt"),
        PrimOp::Le => push_chars(out, "Le"),
        PrimOp::Gt => push_chars(out, "Gt"),
        PrimOp::Ge => push_chars(out, "Ge"),
        PrimOp::Eq => push_chars(out, "Eq"),
        PrimOp::Ne => push_chars(out, "Ne"),
    }
}

/// A string with its length in front, so that it reads back unambiguously.
pub open spec fn counted(s: Seq<char>) -> Seq<char> {
    decimal(s.len()) + seq![':'] + s
}

fn push_counted(s: &String, out: &mut Vec<char>)
    ensures
        final(out)@ == old(out)@ + counted(s@),
{
    let st = s.as_str();
    let n = st.unicode_len();
    push_decimal_usize(out, n);
    out.push(':');
    push_chars(out, st);
    assert(final(out)@ =~= old(out)@ + counted(s@));
}

/// The key of a reference.
pub open spec fn ref_key(r: Ref) -> Seq<char> {
    match r {
        Ref::Immutable(BindingRef::Name(n)) => seq!['r'] + n@ + seq![';'],
        Ref::Immutable(BindingRef::Positional(i)) => seq!['R', 'p'] + decimal(i as nat) + seq![';'],
        Ref::Location(LocationId(i)) => seq!['R', 'l'] + decimal(i as nat) + seq![';'],
        Ref::Mu(MuMarker(i)) => seq!['R', 'm'] + decimal(i as nat) + seq![';'],
    }
}

fn push_ref_key(r: &Ref, out: &mut Vec<char>)
    ensures
        final(out)@ == old(out)@ + ref_key(*r),
{
    match r {
        Ref::Immutable(BindingRef::Name(n)) => {
            out.push('r');
            push_chars(out, n.as_str());
            out.push(';');
        },
        Ref::Immutable(BindingRef::Positional(i)) => {
            out.push('R');
            out.push('p');
            push_decimal(out, *i);
            out.push(';');
        },
        Ref::Location(LocationId(i)) => {
            out.push('R');
            out.push('l');
            push_decimal(out, *i);
            out.push(';');
        },
        Ref::Mu(MuMarker(i)) => {
            out.push('R');
            out.push('m');
            push_decimal(out, *i);
            out.push(';');
        },
    }
    assert(final(out)@ =~= old(out)@ + ref_key(*r));
}

pub open spec fn bool_key(b: bool) -> Seq<char> {
    if b {
        "true"@
    } else {
        "false"@
    }
}

fn push_bool(b: bool, out: &mut Vec<char>)
    ensures
        final(out)@ == old(out)@ + bool_key(b),
{
    if b {
        push_chars(out, "true");
    } else {
        push_chars(out, "false");
    }
}

pub open spec fn act_key(k: ActKind) -> char {
    match k {
        ActKind::Pure => 'p',
        ActKind::Mutator => 'm',
        ActKind::Effect => 'e',
    }
}

fn act_char(k: ActKind) -> (r: char)
    ensures
        r == act_key(k),
{
    match k {
        ActKind::Pure => 'p',
        ActKind::Mutator => 'm',
        ActKind::Effect => 'e',
    }
}

pub open spec fn opt_name_key(n: Option<String>) -> Seq<char> {
    match n {
        Some(s) => seq!['s'] + counted(s@),
        None => seq!['n'],
    }
}

fn push_opt_name(n: &Option<String>, out: &mut Vec<char>)
    ensures
        final(out)@ == old(out)@ + opt_name_key(*n),
{
    match n {
        Some(s) => {
            out.push('s');
            push_counted(s, out);
        },
        None => out.push('n'),
    }
    assert(final(out)@ =~= old(out)@ + opt_name_key(*n));
}

// ── Patterns ─────────────────────────────────────────────────────────────────

pub open spec fn pat_key(p: Pat) -> Seq<char>
    decreases p,
{
    match p {
        Pat::Const(v) => seq!['c'] + decimal(v.handle()) + seq![';'],
        Pat::Bind(n) => seq!['b'] + counted(n@),
        Pat::Wild => seq!['_'],
        Pat::Tuple(es) => seq!['t', '('] + pat_elem_keys(es@) + seq![')'],
        Pat::Record { fields, exact } => seq!['d'] + bool_key(exact) + seq!['('] + pat_field_keys(fields@) + seq![')'],
        Pat::Contract(r) => seq!['k'] + ref_key(r),
    }
}

pub open spec fn pat_elem_keys(s: Seq<PatElem>) -> Seq<char>
    decreases s,
{
    if s.len() == 0 {
        seq![]
    } else {
        pat_elem_keys(s.subrange(0, s.len() - 1)) + match s[s.len() - 1] {
            PatElem::Pat(p) => seq!['p'] + pat_key(p),
            PatElem::Rest(n) => seq!['r'] + opt_name_key(n),
        }
    }
}

pub open spec fn pat_field_keys(s: Seq<PatField>) -> Seq<char>
    decreases s,
{
    if s.len() == 0 {
        seq![]
    } else {
        pat_field_keys(s.subrange(0, s.len() - 1)) + match s[s.len() - 1] {
            PatField::Field { key, pat } => seq!['f'] + counted(key@) + pat_key(pat),
            PatField::Rest(n) => seq!['r'] + opt_name_key(n),
        }
    }
}

fn push_pat_key(p: &Pat, out: &mut Vec<char>)
    ensures
        final(out)@ == old(out)@ + pat_key(*p),
    decreases p,
{
    let ghost start = out@;
    match p {
        Pat::Const(v) => {
            out.push('c');
            push_decimal_usize(out, v.addr());
            out.push(';');
        },
        Pat::Bind(n) => {
            out.push('b');
            push_counted(n, out);
        },
        Pat::Wild => out.push('_'),
        Pat::Tuple(es) => {
            out.push('t');
            out.push('(');
            push_pat_elem_keys(es, out);
            out.push(')');
        },
        Pat::Record { fields, exact } => {
            out.push('d');
            push_bool(*exact, out);
            out.push('(');
            push_pat_field_keys(fields, out);
            out.push(')');
        },
        Pat::Contract(r) => {
            out.push('k');
            push_ref_key(r, out);
        },
    }
    assert(out@ =~= start + pat_key(*p));
}


fn push_pat_elem_keys(v: &Vec<PatElem>, out: &mut Vec<char>)
    ensures
        final(out)@ == old(out)@ + pat_elem_keys(v@),
    decreases v,
{
    let ghost start = out@;
    let mut i: usize = 0;
    while i < v.len()
        invariant
            i <= v@.len(),
            out@ == start + pat_elem_keys(v@.subrange(0, i as int)),
        decreases v@.len() - i,
    {
        proof {
            assert(decreases_to!(*v => v@[i as int]));
            assert(v@.subrange(0, i + 1).subrange(0, i as int) =~= v@.subrange(0, i as int));
        }
        match &v[i] {
            PatElem::Pat(q) => {
                out.push('p');
                push_pat_key(q, out);
            },
            PatElem::Rest(n) => {
                out.push('r');
                push_opt_name(n, out);
            },
        }
        i = i + 1;
        assert(out@ =~= start + pat_elem_keys(v@.subrange(0, i as int)));
    }
    assert(v@.subrange(0, v@.len() as int) =~= v@);
}

fn push_pat_field_keys(v: &Vec<PatField>, out: &mut Vec<char>)
    ensures
        final(out)@ == old(out)@ + pat_field_keys(v@),
    decreases v,
{
    let ghost start = out@;
    let mut i: usize = 0;
    while i < v.len()
        invariant
            i <= v@.len(),
            out@ == start + pat_field_keys(v@.subrange(0, i as int)),
        decreases v@.len() - i,
    {
        proof {
            assert(decreases_to!(*v => v@[i as int]));
            assert(v@.subrange(0, i + 1).subrange(0, i as int) =~= v@.subrange(0, i as int));
        }
        match &v[i] {
            PatField::Field { key, pat } => {
                out.push('f');
                push_counted(key, out);
                push_pat_key(pat, out);
            },
            PatField::Rest(n) => {
                out.push('r');
                push_opt_name(n, out);
            },
        }
        i = i + 1;
        assert(out@ =~= start + pat_field_keys(v@.subrange(0, i as int)));
    }
    assert(v@.subrange(0, v@.len() as int) =~= v@);
}

// ── Expressions ──────────────────────────────────────────────────────────────

/// The key of an expression.
pub open spec fn key(e: Expr) -> Seq<char>
    decreases e,
{
    match e {
        Expr::Const(v) => seq!['c'] + decimal(v.handle()) + seq![';'],
        Expr::Ref(r) => ref_key(r),
        Expr::PrimOp { op, args } => seq!['P'] + op_name(op) + seq!['('] + keys(args@) + seq![')'],
        Expr::Apply { callee, args } => seq!['A', '('] + key(*callee) + arg_keys(args@) + seq![')'],
        Expr::Access { target, form, total } => seq!['X'] + bool_key(total) + seq!['('] + key(*target) + form_key(form)
            + seq![')'],
        Expr::Lambda(l) => seq!['O', 'L', act_key(l.act_kind), '('] + pat_key(l.params) + seq!['|'] + key(*l.body) + seq![
            ')',
        ],
        Expr::Match(m) => seq!['O', 'M', '('] + opt_key(m.scrutinee) + seq!['|'] + item_keys(m.items@) + seq![')'],
        Expr::TupleCons(es) => seq!['O', 'T', '('] + elem_keys(es@) + seq![')'],
        Expr::RecordCons(fs) => seq!['O', 'D', '('] + field_keys(fs@) + seq![')'],
        Expr::Template(ps) => seq!['O', 'S', '('] + part_keys(ps@) + seq![')'],
        Expr::Write { slot, value } => seq!['O', 'W'] + match slot {
            SlotRef::Name(n) => seq!['n'] + counted(n@),
            SlotRef::Location(LocationId(i)) => seq!['l'] + decimal(i as nat) + seq![';'],
        } + seq!['('] + key(*value) + seq![')'],
    }
}

pub open spec fn form_key(f: AccessForm) -> Seq<char>
    decreases f,
{
    match f {
        AccessForm::Field(n) => seq!['.'] + n@,
        AccessForm::Index(x) => key(*x),
        AccessForm::Slice { lo, hi } => opt_key(lo) + seq!['~'] + opt_key(hi),
    }
}

pub open spec fn opt_key(o: Option<Box<Expr>>) -> Seq<char>
    decreases o,
{
    match o {
        Some(x) => key(*x),
        None => seq![],
    }
}

pub open spec fn keys(s: Seq<Expr>) -> Seq<char>
    decreases s,
{
    if s.len() == 0 {
        seq![]
    } else {
        keys(s.subrange(0, s.len() - 1)) + key(s[s.len() - 1])
    }
}

pub open spec fn arg_keys(s: Seq<Arg>) -> Seq<char>
    decreases s,
{
    if s.len() == 0 {
        seq![]
    } else {
        arg_keys(s.subrange(0, s.len() - 1)) + match s[s.len() - 1] {
            Arg::Expr(x) => key(x),
            Arg::Spread(x) => key(x),
        }
    }
}

pub open spec fn elem_keys(s: Seq<Element>) -> Seq<char>
    decreases s,
{
    if s.len() == 0 {
        seq![]
    } else {
        elem_keys(s.subrange(0, s.len() - 1)) + match s[s.len() - 1] {
            Element::Expr(x) => seq!['e'] + key(x),
            Element::Spread(x) => seq!['s'] + key(x),
        }
    }
}

pub open spec fn field_keys(s: Seq<Field>) -> Seq<char>
    decreases s,
{
    if s.len() == 0 {
        seq![]
    } else {
        field_keys(s.subrange(0, s.len() - 1)) + match s[s.len() - 1] {
            Field::Field { key: k, value } => seq!['f'] + counted(k@) + key(value),
            Field::Computed { key: k, value } => seq!['k', '('] + key(k) + seq!['|'] + key(value) + seq![')'],
            Field::Spread(x) => seq!['s'] + key(x),
        }
    }
}

pub open spec fn part_keys(s: Seq<TemplatePart>) -> Seq<char>
    decreases s,
{
    if s.len() == 0 {
        seq![]
    } else {
        part_keys(s.subrange(0, s.len() - 1)) + match s[s.len() - 1] {
            TemplatePart::Segment(t) => seq!['g'] + counted(t@),
            TemplatePart::Interp(x) => seq!['i'] + key(x),
        }
    }
}

pub open spec fn guard_key(g: Option<Expr>) -> Seq<char>
    decreases g,
{
    match g {
        Some(x) => seq!['y'] + key(x),
        None => seq!['n'],
    }
}

pub open spec fn bind_key(b: Bind) -> Seq<char>
    decreases b,
{
    (match b.target {
        BindTarget::Name(n) => seq!['n'] + counted(n@),
        BindTarget::Pattern(p) => seq!['p'] + pat_key(p),
    }) + bool_key(b.exported) + seq!['('] + key(b.value) + seq![')']
}

pub open spec fn item_key(x: MatchItem) -> Seq<char>
    decreases x,
{
    match x {
        MatchItem::Bind(b) => seq!['b'] + bind_key(b),
        MatchItem::Stmt(x) => seq!['s', '('] + key(x) + seq![')'],
        MatchItem::Arm(a) => seq!['a'] + (match a.pattern {
            Some(p) => seq!['y'] + pat_key(p),
            None => seq!['n'],
        }) + guard_key(a.guard) + seq!['('] + key(a.result) + seq![')'],
    }
}

pub open spec fn item_keys(s: Seq<MatchItem>) -> Seq<char>
    decreases s,
{
    if s.len() == 0 {
        seq![]
    } else {
        item_keys(s.subrange(0, s.len() - 1)) + item_key(s[s.len() - 1])
    }
}

/// Appends the key of `e` to `out`.
pub fn push_key(e: &Expr, out: &mut Vec<char>)
    ensures
        final(out)@ == old(out)@ + key(*e),
    decreases e,
{
    let ghost start = out@;
    match e {
        Expr::Const(v) => {
            out.push('c');
            push_decimal_usize(out, v.addr());
            out.push(';');
            assert(out@ =~= start + key(*e));
        },
        Expr::Ref(r) => push_ref_key(r, out),
        Expr::PrimOp { op, args } => {
            out.push('P');
            push_op_name(*op, out);
            out.push('(');
            push_keys(args, out);
            out.push(')');
            assert(out@ =~= start + key(*e));
        },
        Expr::Apply { callee, args } => {
            out.push('A');
            out.push('(');
            push_key(callee, out);
            push_arg_keys(args, out);
            out.push(')');
            assert(out@ =~= start + key(*e));
        },
        Expr::Access { target, form, total } => {
            out.push('X');
            push_bool(*total, out);
            out.push('(');
            push_key(target, out);
            push_form_key(form, out);
            out.push(')');
            assert(out@ =~= start + key(*e));
        },
        Expr::Lambda(l) => {
            out.push('O');
            out.push('L');
            out.push(act_char(l.act_kind));
            out.push('(');
            push_pat_key(&l.params, out);
            out.push('|');
            push_key(&l.body, out);
            out.push(')');
            assert(out@ =~= start + key(*e));
        },
        Expr::Match(m) => {
            out.push('O');
            out.push('M');
            out.push('(');
            push_opt_key(&m.scrutinee, out);
            out.push('|');
            push_item_keys(&m.items, out);
            out.push(')');
            assert(out@ =~= start + key(*e));
        },
        Expr::TupleCons(es) => {
            out.push('O');
            out.push('T');
            out.push('(');
            push_elem_keys(es, out);
            out.push(')');
            assert(out@ =~= start + key(*e));
        },
        Expr::RecordCons(fs) => {
            out.push('O');
            out.push('D');
            out.push('(');
            push_field_keys(fs, out);
            out.push(')');
            assert(out@ =~= start + key(*e));
        },
        Expr::Template(ps) => {
            out.push('O');
            out.push('S');
            out.push('(');
            push_part_keys(ps, out);
            out.push(')');
            assert(out@ =~= start + key(*e));
        },
        Expr::Write { slot, value } => {
            out.push('O');
            out.push('W');
            match slot {
                SlotRef::Name(n) => {
                    out.push('n');
                    push_counted(n, out);
                },
                SlotRef::Location(LocationId(i)) => {
                    out.push('l');
                    push_decimal(out, *i);
                    out.push(';');
                },
            }
            out.push('(');
            push_key(value, out);
            out.push(')');
            assert(out@ =~= start + key(*e));
        },
    }
    assert(out@ =~= start + key(*e));
}

fn push_opt_key(o: &Option<Box<Expr>>, out: &mut Vec<char>)
    ensures
        final(out)@ == old(out)@ + opt_key(*o),
    decreases o,
{
    match o {
        Some(x) => push_key(x, out),
        None => {
            assert(out@ =~= old(out)@ + opt_key(*o));
        },
    }
}

fn push_form_key(f: &AccessForm, out: &mut Vec<char>)
    ensures
        final(out)@ == old(out)@ + form_key(*f),
    decreases f,
{
    let ghost start = out@;
    match f {
        AccessForm::Field(n) => {
            out.push('.');
            push_chars(out, n.as_str());
        },
        AccessForm::Index(x) => push_key(x, out),
        AccessForm::Slice { lo, hi } => {
            push_opt_key(lo, out);
            out.push('~');
            push_opt_key(hi, out);
        },
    }
    assert(out@ =~= start + form_key(*f));
}

/// Appends the key of a match item to `out`.
fn push_item_key(item: &MatchItem, out: &mut Vec<char>)
    ensures
        final(out)@ == old(out)@ + item_key(*item),
    decreases item,
{
    let ghost start = out@;
    match item {
        MatchItem::Bind(b) => {
            out.push('b');
            match &b.target {
                BindTarget::Name(n) => {
                    out.push('n');
                    push_counted(n, out);
                },
                BindTarget::Pattern(p) => {
                    out.push('p');
                    push_pat_key(p, out);
                },
            }
            push_bool(b.exported, out);
            out.push('(');
            push_key(&b.value, out);
            out.push(')');
        },
        MatchItem::Stmt(x) => {
            out.push('s');
            out.push('(');
            push_key(x, out);
            out.push(')');
        },
        MatchItem::Arm(a) => {
            out.push('a');
            match &a.pattern {
                Some(p) => {
                    out.push('y');
                    push_pat_key(p, out);
                },
                None => out.push('n'),
            }
            match &a.guard {
                Some(g) => {
                    out.push('y');
                    push_key(g, out);
                },
                None => out.push('n'),
            }
            out.push('(');
            push_key(&a.result, out);
            out.push(')');
        },
    }
    assert(out@ =~= start + item_key(*item));
}


fn push_keys(v: &Vec<Expr>, out: &mut Vec<char>)
    ensures
        final(out)@ == old(out)@ + keys(v@),
    decreases v,
{
    let ghost start = out@;
    let mut i: usize = 0;
    while i < v.len()
        invariant
            i <= v@.len(),
            out@ == start + keys(v@.subrange(0, i as int)),
        decreases v@.len() - i,
    {
        proof {
            assert(decreases_to!(*v => v@[i as int]));
            assert(v@.subrange(0, i + 1).subrange(0, i as int) =~= v@.subrange(0, i as int));
        }
        push_key(&v[i], out);
        i = i + 1;
        assert(out@ =~= start + keys(v@.subrange(0, i as int)));
    }
    assert(v@.subrange(0, v@.len() as int) =~= v@);
}

fn push_arg_keys(v: &Vec<Arg>, out: &mut Vec<char>)
    ensures
        final(out)@ == old(out)@ + arg_keys(v@),
    decreases v,
{
    let ghost start = out@;
    let mut i: usize = 0;
    while i < v.len()
        invariant
            i <= v@.len(),
            out@ == start + arg_keys(v@.subrange(0, i as int)),
        decreases v@.len() - i,
    {
        proof {
            assert(decreases_to!(*v => v@[i as int]));
            assert(v@.subrange(0, i + 1).subrange(0, i as int) =~= v@.subrange(0, i as int));
        }
        match &v[i] {
            Arg::Expr(x) => push_key(x, out),
            Arg::Spread(x) => push_key(x, out),
        }
        i = i + 1;
        assert(out@ =~= start + arg_keys(v@.subrange(0, i as int)));
    }
    assert(v@.subrange(0, v@.len() as int) =~= v@);
}

fn push_elem_keys(v: &Vec<Element>, out: &mut Vec<char>)
    ensures
        final(out)@ == old(out)@ + elem_keys(v@),
    decreases v,
{
    let ghost start = out@;
    let mut i: usize = 0;
    while i < v.len()
        invariant
            i <= v@.len(),
            out@ == start + elem_keys(v@.subrange(0, i as int)),
        decreases v@.len() - i,
    {
        proof {
            assert(decreases_to!(*v => v@[i as int]));
            assert(v@.subrange(0, i + 1).subrange(0, i as int) =~= v@.subrange(0, i as int));
        }
        match &v[i] {
            Element::Expr(x) => {
                out.push('e');
                push_key(x, out);
            },
            Element::Spread(x) => {
                out.push('s');
                push_key(x, out);
            },
        }
        i = i + 1;
        assert(out@ =~= start + elem_keys(v@.subrange(0, i as int)));
    }
    assert(v@.subrange(0, v@.len() as int) =~= v@);
}

fn push_field_keys(v: &Vec<Field>, out: &mut Vec<char>)
    ensures
        final(out)@ == old(out)@ + field_keys(v@),
    decreases v,
{
    let ghost start = out@;
    let mut i: usize = 0;
    while i < v.len()
        invariant
            i <= v@.len(),
            out@ == start + field_keys(v@.subrange(0, i as int)),
        decreases v@.len() - i,
    {
        proof {
            assert(decreases_to!(*v => v@[i as int]));
            assert(v@.subrange(0, i + 1).subrange(0, i as int) =~= v@.subrange(0, i as int));
        }
        match &v[i] {
            Field::Field { key: k, value } => {
                out.push('f');
                push_counted(k, out);
                push_key(value, out);
            },
            Field::Computed { key: k, value } => {
                out.push('k');
                out.push('(');
                push_key(k, out);
                out.push('|');
                push_key(value, out);
                out.push(')');
            },
            Field::Spread(x) => {
                out.push('s');
                push_key(x, out);
            },
        }
        i = i + 1;
        assert(out@ =~= start + field_keys(v@.subrange(0, i as int)));
    }
    assert(v@.subrange(0, v@.len() as int) =~= v@);
}

fn push_part_keys(v: &Vec<TemplatePart>, out: &mut Vec<char>)
    ensures
        final(out)@ == old(out)@ + part_keys(v@),
    decreases v,
{
    let ghost start = out@;
    let mut i: usize = 0;
    while i < v.len()
        invariant
            i <= v@.len(),
            out@ == start + part_keys(v@.subrange(0, i as int)),
        decreases v@.len() - i,
    {
        proof {
            assert(decreases_to!(*v => v@[i as int]));
            assert(v@.subrange(0, i + 1).subrange(0, i as int) =~= v@.subrange(0, i as int));
        }
        match &v[i] {
            TemplatePart::Segment(t) => {
                out.push('g');
                push_counted(t, out);
            },
            TemplatePart::Interp(x) => {
                out.push('i');
                push_key(x, out);
            },
        }
        i = i + 1;
        assert(out@ =~= start + part_keys(v@.subrange(0, i as int)));
    }
    assert(v@.subrange(0, v@.len() as int) =~= v@);
}

fn push_item_keys(v: &Vec<MatchItem>, out: &mut Vec<char>)
    ensures
        final(out)@ == old(out)@ + item_keys(v@),
    decreases v,
{
    let ghost start = out@;
    let mut i: usize = 0;
    while i < v.len()
        invariant
            i <= v@.len(),
            out@ == start + item_keys(v@.subrange(0, i as int)),
        decreases v@.len() - i,
    {
        proof {
            assert(decreases_to!(*v => v@[i as int]));
            assert(v@.subrange(0, i + 1).subrange(0, i as int) =~= v@.subrange(0, i as int));
        }
        push_item_key(&v[i], out);
        i = i + 1;
        assert(out@ =~= start + item_keys(v@.subrange(0, i as int)));
    }
    assert(v@.subrange(0, v@.len() as int) =~= v@);
}

/// The key of an expression.
pub fn key_of(e: &Expr) -> (r: Vec<char>)
    ensures
        r@ == key(*e),
{
    let mut out: Vec<char> = Vec::new();
    push_key(e, &mut out);
    assert(out@ =~= key(*e));
    out
}

// ── Order ────────────────────────────────────────────────────────────────────

/// `a` sorts strictly before `b`: character by character, a proper prefix
/// first.
pub open spec fn key_lt(a: Seq<char>, b: Seq<char>) -> bool
    decreases a.len(),
{
    if a.len() == 0 {
        b.len() > 0
    } else if b.len() == 0 {
        false
    } else if a[0] != b[0] {
        (a[0] as u32) < (b[0] as u32)
    } else {
        key_lt(a.drop_first(), b.drop_first())
    }
}

/// `a` sorts no later than `b`.
pub open spec fn key_le(a: Seq<char>, b: Seq<char>) -> bool {
    a == b || key_lt(a, b)
}

/// Compares two keys: `(a < b, a == b)`.
pub fn compare_keys(a: &Vec<char>, b: &Vec<char>) -> (r: (bool, bool))
    ensures
        r.0 == key_lt(a@, b@),
        r.1 == (a@ == b@),
{
    let mut i: usize = 0;
    assert(a@.subrange(0, a@.len() as int) =~= a@);
    assert(b@.subrange(0, b@.len() as int) =~= b@);
    while i < a.len() && i < b.len()
        invariant
            i <= a@.len(),
            i <= b@.len(),
            a@.subrange(0, i as int) == b@.subrange(0, i as int),
            key_lt(a@, b@) == key_lt(a@.subrange(i as int, a@.len() as int), b@.subrange(i as int, b@.len() as int)),
        decreases a@.len() - i,
    {
        let x = a[i];
        let y = b[i];
        proof {
            let sa = a@.subrange(i as int, a@.len() as int);
            let sb = b@.subrange(i as int, b@.len() as int);
            assert(sa[0] == x && sb[0] == y);
            assert(sa.drop_first() =~= a@.subrange(i + 1, a@.len() as int));
            assert(sb.drop_first() =~= b@.subrange(i + 1, b@.len() as int));
        }
        if x != y {
            proof {
                assert(a@[i as int] != b@[i as int]);
            }
            return ((x as u32) < (y as u32), false);
        }
        proof {
            assert(a@.subrange(0, i + 1) =~= a@.subrange(0, i as int).push(x));
            assert(b@.subrange(0, i + 1) =~= b@.subrange(0, i as int).push(y));
        }
        i = i + 1;
    }
    proof {
        let sa = a@.subrange(i as int, a@.len() as int);
        let sb = b@.subrange(i as int, b@.len() as int);
        if i == a@.len() {
            assert(a@.subrange(0, i as int) =~= a@);
            if i == b@.len() {
                assert(b@.subrange(0, i as int) =~= b@);
            } else {
                assert(a@.len() != b@.len());
            }
        } else {
            assert(b@.subrange(0, i as int) =~= b@);
            assert(a@.len() != b@.len());
        }
        assert(sa.len() == 0 || sb.len() == 0);
    }
    (a.len() < b.len(), a.len() == b.len())
}

} // verus!
