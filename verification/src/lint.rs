//! The lint tier — advisory findings only; a lint never rejects.
//!
//! Lints live where their information lives. Here: the source-text pass (the
//! leading-`-` continuation hazard) and the surface pass (`~`/`?.` redundancy,
//! the identity slice, the non-Boolean `||` right, comparison chains — all sugar
//! the kernel erases). All findings are warnings.
//!
//! The recognizers are syntactic, one honest case each: `~` on a literal
//! Boolean or comparison; `?.` on a record literal that spells the field; a
//! literal non-Boolean right of an unescaped `||`. Absence of a lint is always
//! sound.

use crate::surface::{
    BinOp, SAccessForm, SArg, SArm, SArrowBody, SAt, SElem, SExpr, SField, SPathSeg, SProgram, SStmt,
    STemplatePart, UnOp,
};
use crate::text::{concat3, decimal, is_whitespace, push_chars, push_decimal_usize, str_chars, str_is, string_from_chars, string_of, unicode_whitespace};
use vstd::prelude::*;

verus! {

/// How serious a finding is. Lints are only ever warnings.
#[derive(Clone, Copy, Debug, PartialEq, Eq, Structural)]
pub enum Severity {
    Warning,
}

/// The class of trap a finding is about. A lint reports a misuse the
/// operation's argument obligation would reject or make redundant.
#[derive(Clone, Copy, Debug, PartialEq, Eq, Structural)]
pub enum TrapClass {
    ArgumentObligation,
}

/// One advisory finding.
#[derive(Debug)]
pub struct Finding {
    pub class: TrapClass,
    pub severity: Severity,
    pub message: String,
}

/// What a lint reports.
pub ghost enum LintKind {
    /// `~` on an operand that is already Boolean.
    RedundantLoosen,
    /// A comparison whose operand is itself a comparison.
    ComparisonChain,
    /// A literal non-Boolean right of an unescaped `||`.
    NonBooleanOr,
    /// `t[...]`.
    IdentitySlice,
    /// `?.` on a record literal that spells the field.
    RedundantTotal(Seq<char>),
    /// Line `n` (1-based) begins with a single `-`.
    LeadingMinus(nat),
}

/// The message of each kind of finding.
pub open spec fn lint_text(k: LintKind) -> Seq<char> {
    match k {
        LintKind::RedundantLoosen => "`~` loosens a seat its operand already satisfies — the operand is Boolean (redundant `~`)"@,
        LintKind::ComparisonChain => "a comparison chains into a comparison — did you mean `a < b && b < c`? (comparison-chain hint)"@,
        LintKind::NonBooleanOr => "a non-Boolean right of an unescaped `||` — legal, but only `false` selects it (non-Boolean `||` right)"@,
        LintKind::IdentitySlice => "`t[...]` is the identity slice — it returns `t` itself, same pointer"@,
        LintKind::RedundantTotal(field) => "`?.` on a record that spells `"@ + field
            + "` — permission granted where none is needed (redundant `?.`)"@,
        LintKind::LeadingMinus(n) => "line "@ + decimal(n)
            + ": a leading `-` continues the previous expression as subtraction (leading-minus continuation)"@,
    }
}

/// `fs` are the findings `ks`, in order: argument-obligation warnings with the
/// kinds' messages.
pub open spec fn reports(fs: Seq<Finding>, ks: Seq<LintKind>) -> bool {
    fs.len() == ks.len() && forall|i: int| 0 <= i < fs.len() ==> (#[trigger] fs[i]).severity == Severity::Warning && fs[i].class == TrapClass::ArgumentObligation
        && fs[i].message@ == lint_text(ks[i])
}

/// `new` is `old` followed by the findings `ks`.
pub open spec fn emits(new: Seq<Finding>, old: Seq<Finding>, ks: Seq<LintKind>) -> bool {
    &&& old.len() <= new.len()
    &&& new.subrange(0, old.len() as int) == old
    &&& reports(new.subrange(old.len() as int, new.len() as int), ks)
}

pub proof fn lemma_emits_nothing(o: Seq<Finding>)
    ensures
        emits(o, o, seq![]),
{
    assert(o.subrange(0, o.len() as int) =~= o);
}

pub proof fn lemma_emits_chain(o2: Seq<Finding>, o1: Seq<Finding>, o0: Seq<Finding>, ka: Seq<LintKind>, kb: Seq<LintKind>)
    requires
        emits(o1, o0, ka),
        emits(o2, o1, kb),
    ensures
        emits(o2, o0, ka + kb),
{
    assert(o2.subrange(0, o0.len() as int) =~= o1.subrange(0, o0.len() as int));
    let s = o2.subrange(o0.len() as int, o2.len() as int);
    let s1 = o1.subrange(o0.len() as int, o1.len() as int);
    let s2 = o2.subrange(o1.len() as int, o2.len() as int);
    assert(s =~= s1 + s2) by {
        assert forall|i: int| 0 <= i < s.len() implies s[i] == (s1 + s2)[i] by {
            if i < s1.len() {
                assert(o2[o0.len() + i] == o1[o0.len() + i]);
            }
        }
    }
    assert forall|i: int| 0 <= i < s.len() implies (#[trigger] s[i]).severity == Severity::Warning && s[i].class == TrapClass::ArgumentObligation
        && s[i].message@ == lint_text((ka + kb)[i]) by {
        if i < s1.len() {
            assert(s[i] == s1[i]);
        } else {
            assert(s[i] == s2[i - s1.len()]);
        }
    }
}

// ── Recognizers ──────────────────────────────────────────────────────────────

/// Syntactically Boolean: the literals, a comparison, equality or `&&`
/// result, or `!`.
pub open spec fn boolean_shaped(e: SExpr) -> bool
    decreases e,
{
    match e {
        SExpr::Ident(n) => n@ == "true"@ || n@ == "false"@,
        SExpr::Unary { op, .. } => op == UnOp::Not,
        SExpr::Binary { op, .. } => op == BinOp::Eq || op == BinOp::Ne || relational(op) || op == BinOp::And,
        SExpr::Grouping(x) => boolean_shaped(*x),
        _ => false,
    }
}

pub open spec fn relational(op: BinOp) -> bool {
    op == BinOp::Lt || op == BinOp::Le || op == BinOp::Gt || op == BinOp::Ge
}

/// A comparison node, through grouping.
pub open spec fn comparison(e: SExpr) -> bool
    decreases e,
{
    match e {
        SExpr::Binary { op, .. } => relational(op),
        SExpr::Grouping(x) => comparison(*x),
        _ => false,
    }
}

/// `op` orders numbers: `<`, `<=`, `>` or `>=`.
pub open spec fn ordering(op: BinOp) -> bool {
    op is Lt || op is Le || op is Gt || op is Ge
}

/// Every ordering operator makes a comparison, however deeply grouped; and an
/// ordering with such a comparison on either side reports one comparison
/// chain ahead of what its operands report.
pub proof fn lemma_ordering_chains(outer: BinOp, inner: BinOp, x: SExpr, y: SExpr, z: SExpr)
    requires
        ordering(outer),
        ordering(inner),
    ensures
        comparison(SExpr::Binary { op: inner, left: Box::new(x), right: Box::new(y) }),
        comparison(SExpr::Grouping(Box::new(SExpr::Binary { op: inner, left: Box::new(x), right: Box::new(y) }))),
        ({
            let c = SExpr::Binary { op: inner, left: Box::new(x), right: Box::new(y) };
            &&& lints_expr(SExpr::Binary { op: outer, left: Box::new(c), right: Box::new(z) }) == seq![
                LintKind::ComparisonChain,
            ] + lints_expr(c) + lints_expr(z)
            &&& lints_expr(SExpr::Binary { op: outer, left: Box::new(z), right: Box::new(c) }) == seq![
                LintKind::ComparisonChain,
            ] + lints_expr(z) + lints_expr(c)
        }),
{
    let c = SExpr::Binary { op: inner, left: Box::new(x), right: Box::new(y) };
    assert(comparison(c));
    assert(comparison(SExpr::Grouping(Box::new(c))));
}

/// A comparison, an equality test or a `&&` is Boolean, however grouped, so
/// loosening it with `~` reports a redundant loosening ahead of what the
/// operand reports.
pub proof fn lemma_boolean_operators(op: BinOp, x: SExpr, y: SExpr)
    requires
        ordering(op) || op is Eq || op is Ne || op is And,
    ensures
        boolean_shaped(SExpr::Binary { op, left: Box::new(x), right: Box::new(y) }),
        boolean_shaped(SExpr::Grouping(Box::new(SExpr::Binary { op, left: Box::new(x), right: Box::new(y) }))),
        ({
            let e = SExpr::Binary { op, left: Box::new(x), right: Box::new(y) };
            lints_expr(SExpr::Unary { op: UnOp::Loosen, operand: Box::new(e) }) == seq![LintKind::RedundantLoosen]
                + lints_expr(e)
        }),
{
    let e = SExpr::Binary { op, left: Box::new(x), right: Box::new(y) };
    assert(boolean_shaped(e));
    assert(boolean_shaped(SExpr::Grouping(Box::new(e))));
}

/// A chain of two orderings over operands that report nothing and are no
/// comparisons (`0 <= x <= 10`) reports exactly one comparison chain.
pub proof fn lemma_one_chain(outer: BinOp, inner: BinOp, x: SExpr, y: SExpr, z: SExpr)
    requires
        ordering(outer),
        ordering(inner),
        !comparison(x),
        !comparison(y),
        lints_expr(x) == Seq::<LintKind>::empty(),
        lints_expr(y) == Seq::<LintKind>::empty(),
        lints_expr(z) == Seq::<LintKind>::empty(),
    ensures
        lints_expr(
            SExpr::Binary {
                op: outer,
                left: Box::new(SExpr::Binary { op: inner, left: Box::new(x), right: Box::new(y) }),
                right: Box::new(z),
            },
        ) == seq![LintKind::ComparisonChain],
{
    let c = SExpr::Binary { op: inner, left: Box::new(x), right: Box::new(y) };
    lemma_ordering_chains(outer, inner, x, y, z);
    assert(!(inner == BinOp::Or));
    assert(lints_expr(c) == lints_expr(x) + lints_expr(y));
    assert(lints_expr(c) =~= Seq::<LintKind>::empty());
    assert(seq![LintKind::ComparisonChain] + lints_expr(c) + lints_expr(z) =~= seq![LintKind::ComparisonChain]);
}

/// Syntactically non-Boolean: a literal number, string, template, tuple or
/// record.
pub open spec fn non_boolean_literal(e: SExpr) -> bool {
    e is Number || e is Str || e is Template || e is Tuple || e is Record
}

/// A record literal's fields spell `field` (shorthand or `key: value`).
pub open spec fn spells(fs: Seq<SField>, field: Seq<char>) -> bool {
    exists|i: int| 0 <= i < fs.len() && spells_key(#[trigger] fs[i], field)
}

pub open spec fn spells_key(f: SField, field: Seq<char>) -> bool {
    match f {
        SField::Shorthand(k) => k@ == field,
        SField::KeyValue(k, _) => k@ == field,
        _ => false,
    }
}

// ── What the surface pass reports ────────────────────────────────────────────

pub open spec fn lints_expr(e: SExpr) -> Seq<LintKind>
    decreases e, 1nat,
{
    match e {
        SExpr::Unary { op: UnOp::Loosen, operand } => (if boolean_shaped(*operand) {
            seq![LintKind::RedundantLoosen]
        } else {
            seq![]
        }) + lints_expr(*operand),
        SExpr::Binary { op, left, right } => if relational(op) && (comparison(*left) || comparison(*right)) {
            seq![LintKind::ComparisonChain] + lints_expr(*left) + lints_expr(*right)
        } else if op == BinOp::Or && !(*left matches SExpr::Unary { op: UnOp::Loosen, .. }) && non_boolean_literal(*right) {
            seq![LintKind::NonBooleanOr] + lints_expr(*left) + lints_expr(*right)
        } else {
            lints_expr(*left) + lints_expr(*right)
        },
        SExpr::Access { target, form, total } => if form matches SAccessForm::Slice { lo: None, hi: None } {
            seq![LintKind::IdentitySlice] + lints_expr(*target)
        } else if total && form is Field {
            (if *target matches SExpr::Record(fs) && spells(fs@, form->Field_0@) {
                seq![LintKind::RedundantTotal(form->Field_0@)]
            } else {
                seq![]
            }) + lints_expr(*target)
        } else {
            lints_expr(*target) + match form {
                SAccessForm::Index(x) => lints_expr(*x),
                SAccessForm::Slice { lo, hi } => lints_opt(lo) + lints_opt(hi),
                _ => seq![],
            }
        },
        SExpr::Template(ps) => lints_parts(ps@),
        SExpr::Tuple(es) => lints_elems(es@),
        SExpr::Record(fs) => lints_fields(fs@),
        SExpr::Block(ss) => lints_stmts(ss@),
        SExpr::Grouping(x) => lints_expr(*x),
        SExpr::Hask(x) => lints_expr(*x),
        SExpr::Arrow(a) => match *a.body {
            SArrowBody::Expr(x) => lints_expr(x),
            SArrowBody::Block(ss) => lints_stmts(ss@),
        },
        SExpr::Match { scrutinee, arms } => lints_expr(*scrutinee) + lints_arms(arms@),
        SExpr::Pipe { left, right, .. } => lints_expr(*left) + lints_expr(*right),
        SExpr::Ternary { cond, then, els } => lints_expr(*cond) + lints_expr(*then) + lints_expr(*els),
        SExpr::Unary { operand, .. } => lints_expr(*operand),
        SExpr::Call { callee, args } => lints_expr(*callee) + lints_args(args@),
        _ => seq![],
    }
}

pub open spec fn lints_opt(e: Option<Box<SExpr>>) -> Seq<LintKind>
    decreases e, 0nat,
{
    match e {
        Some(x) => lints_expr(*x),
        None => seq![],
    }
}

pub open spec fn part_lints(p: STemplatePart) -> Seq<LintKind>
    decreases p, 0nat,
{
    match p {
        STemplatePart::Interp(x) => lints_expr(x),
        _ => seq![],
    }
}

pub open spec fn lints_parts(ps: Seq<STemplatePart>) -> Seq<LintKind>
    decreases ps, 0nat,
{
    if ps.len() == 0 {
        seq![]
    } else {
        lints_parts(ps.drop_last()) + part_lints(ps.last())
    }
}

pub open spec fn elem_lints(e: SElem) -> Seq<LintKind>
    decreases e, 0nat,
{
    match e {
        SElem::Expr(x) => lints_expr(x),
        SElem::Spread(x) => lints_expr(x),
    }
}

pub open spec fn lints_elems(es: Seq<SElem>) -> Seq<LintKind>
    decreases es, 0nat,
{
    if es.len() == 0 {
        seq![]
    } else {
        lints_elems(es.drop_last()) + elem_lints(es.last())
    }
}

pub open spec fn lints_field(f: SField) -> Seq<LintKind>
    decreases f, 0nat,
{
    match f {
        SField::KeyValue(_, v) => lints_expr(v),
        SField::Spread(v) => lints_expr(v),
        SField::Computed(k, v) => lints_expr(k) + lints_expr(v),
        SField::Shorthand(_) => seq![],
    }
}

pub open spec fn lints_fields(fs: Seq<SField>) -> Seq<LintKind>
    decreases fs, 0nat,
{
    if fs.len() == 0 {
        seq![]
    } else {
        lints_fields(fs.drop_last()) + lints_field(fs.last())
    }
}

pub open spec fn lints_arg(a: SArg) -> Seq<LintKind>
    decreases a, 0nat,
{
    match a {
        SArg::Expr(x) => lints_expr(x),
        SArg::Spread(x) => lints_expr(x),
    }
}

pub open spec fn lints_args(args: Seq<SArg>) -> Seq<LintKind>
    decreases args, 0nat,
{
    if args.len() == 0 {
        seq![]
    } else {
        lints_args(args.drop_last()) + lints_arg(args.last())
    }
}

/// An arm reports its guard, then its result (its pattern holds no
/// expressions).
pub open spec fn lints_arm(a: SArm) -> Seq<LintKind>
    decreases a, 0nat,
{
    match a.guard {
        Some(g) => lints_expr(g) + lints_expr(a.result),
        None => lints_expr(a.result),
    }
}

pub open spec fn lints_arms(arms: Seq<SArm>) -> Seq<LintKind>
    decreases arms, 0nat,
{
    if arms.len() == 0 {
        seq![]
    } else {
        lints_arms(arms.drop_last()) + lints_arm(arms.last())
    }
}

pub open spec fn lints_seg(s: SPathSeg) -> Seq<LintKind>
    decreases s, 0nat,
{
    match s {
        SPathSeg::Field(_) => seq![],
        SPathSeg::Index(x) => lints_expr(x),
        SPathSeg::Slice { lo, hi } => (match lo {
            Some(x) => lints_expr(x),
            None => seq![],
        }) + match hi {
            Some(x) => lints_expr(x),
            None => seq![],
        },
    }
}

pub open spec fn lints_segs(ss: Seq<SPathSeg>) -> Seq<LintKind>
    decreases ss, 0nat,
{
    if ss.len() == 0 {
        seq![]
    } else {
        lints_segs(ss.drop_last()) + lints_seg(ss.last())
    }
}

pub open spec fn lints_stmt(s: SStmt) -> Seq<LintKind>
    decreases s, 0nat,
{
    match s {
        SStmt::Binding(b) => lints_expr(b.value),
        SStmt::Expr(x) => lints_expr(x),
        SStmt::At(SAt::Binding { binding, .. }) => lints_expr(binding.value),
        SStmt::At(SAt::Anon { arrow, .. }) => lints_expr(arrow),
        SStmt::Mutation { path, value, .. } => lints_segs(path.segments@) + lints_expr(value),
        SStmt::WhenArm { guard, result } => lints_expr(guard) + lints_expr(result),
        SStmt::ElseArm { result } => lints_expr(result),
        _ => seq![],
    }
}

pub open spec fn lints_stmts(ss: Seq<SStmt>) -> Seq<LintKind>
    decreases ss, 0nat,
{
    if ss.len() == 0 {
        seq![]
    } else {
        lints_stmts(ss.drop_last()) + lints_stmt(ss.last())
    }
}


// ── What the source pass reports ─────────────────────────────────────────────

/// Past any whitespace from `p` on the same line.
pub open spec fn skip_ws(s: Seq<char>, p: nat) -> nat
    decreases s.len() - p,
{
    if p < s.len() && s[p as int] != '\n' && unicode_whitespace(s[p as int]) {
        skip_ws(s, p + 1)
    } else {
        p
    }
}

/// The first newline at or after `p`.
pub open spec fn next_newline(s: Seq<char>, p: nat) -> Option<nat>
    decreases s.len() - p,
{
    if p >= s.len() {
        None
    } else if s[p as int] == '\n' {
        Some(p)
    } else {
        next_newline(s, p + 1)
    }
}

/// The line starting at `p` begins, after its leading whitespace, with a
/// single `-` (not `--`).
pub open spec fn leading_minus(s: Seq<char>, p: nat) -> bool {
    let q = skip_ws(s, p);
    &&& q < s.len()
    &&& s[q as int] == '-'
    &&& !(q + 1 < s.len() && s[q + 1int] == '-')
}

/// The findings for the lines from the one starting at `p` (number `line`).
pub open spec fn minus_lines(s: Seq<char>, p: nat, line: nat) -> Seq<LintKind>
    decreases s.len() + 1 - p,
{
    if p > s.len() {
        seq![]
    } else {
        let here = if line > 1 && leading_minus(s, p) {
            seq![LintKind::LeadingMinus(line)]
        } else {
            seq![]
        };
        match next_newline(s, p) {
            Some(k) => if p <= k < s.len() {
                here + minus_lines(s, k + 1, line + 1)
            } else {
                here
            },
            None => here,
        }
    }
}

proof fn lemma_next_newline_at_least(s: Seq<char>, p: nat)
    ensures
        next_newline(s, p) matches Some(k) ==> p <= k < s.len() && s[k as int] == '\n',
    decreases s.len() - p,
{
    if p < s.len() && s[p as int] != '\n' {
        lemma_next_newline_at_least(s, p + 1);
    }
}

proof fn lemma_next_newline_skip(s: Seq<char>, p: nat, q: nat)
    requires
        p <= q <= s.len(),
        forall|j: int| p <= j < q ==> s[j] != '\n',
    ensures
        next_newline(s, p) == next_newline(s, q),
    decreases q - p,
{
    if p < q {
        lemma_next_newline_skip(s, p + 1, q);
    }
}

// ── The passes ───────────────────────────────────────────────────────────────

/// Appends one finding of kind `k`.
fn report(out: &mut Vec<Finding>, message: String, Ghost(k): Ghost<LintKind>)
    requires
        message@ == lint_text(k),
    ensures
        emits(final(out)@, old(out)@, seq![k]),
        final(out)@.len() == old(out)@.len() + 1,
        forall|i: int| 0 <= i < old(out)@.len() ==> final(out)@[i] == old(out)@[i],
        final(out)@.last().severity == Severity::Warning,
        final(out)@.last().class == TrapClass::ArgumentObligation,
        final(out)@.last().message@ == lint_text(k),
{
    out.push(Finding { class: TrapClass::ArgumentObligation, severity: Severity::Warning, message });
    assert(out@.subrange(0, old(out)@.len() as int) =~= old(out)@);
}

/// The source-text pass: a continuation line whose first token is `-` parses
/// as subtraction — legal, linted.
pub fn source_lints(src: &str) -> (r: Vec<Finding>)
    requires
        src@.len() < usize::MAX,
    ensures
        reports(r@, minus_lines(src@, 0, 1)),
{
    let cs = str_chars(src);
    let ghost s = cs@;
    let mut out: Vec<Finding> = Vec::new();
    let mut p: usize = 0;
    let mut line: usize = 1;
    let ghost mut done: Seq<LintKind> = seq![];
    loop
        invariant
            s == cs@,
            s == src@,
            s.len() < usize::MAX,
            p <= s.len(),
            1 <= line <= p + 1,
            reports(out@, done),
            done + minus_lines(s, p as nat, line as nat) == minus_lines(s, 0, 1),
        decreases s.len() + 1 - p,
    {
        let mut q: usize = p;
        while q < cs.len() && cs[q] != '\n' && is_whitespace(cs[q])
            invariant
                p <= q <= s.len(),
                s == cs@,
                skip_ws(s, p as nat) == skip_ws(s, q as nat),
                forall|j: int| p <= j < q ==> s[j] != '\n',
            decreases s.len() - q,
        {
            q = q + 1;
        }
        let fires = line > 1 && q < cs.len() && cs[q] == '-' && !(q + 1 < cs.len() && cs[q + 1] == '-');
        let ghost before = out@;
        if fires {
            let mut m: Vec<char> = Vec::new();
            push_chars(&mut m, "line ");
            push_decimal_usize(&mut m, line);
            push_chars(&mut m, ": a leading `-` continues the previous expression as subtraction (leading-minus continuation)");
            report(&mut out, string_from_chars(&m), Ghost(LintKind::LeadingMinus(line as nat)));
        }
        let ghost here = if fires {
            seq![LintKind::LeadingMinus(line as nat)]
        } else {
            seq![]
        };
        proof {
            assert(fires == (line > 1 && leading_minus(s, p as nat)));
            if fires {
                assert(out@ == before.push(out@.last()));
                assert forall|i: int| 0 <= i < out@.len() implies (#[trigger] out@[i]).severity == Severity::Warning && out@[i].class == TrapClass::ArgumentObligation
                    && out@[i].message@ == lint_text((done + here)[i]) by {
                    if i < before.len() {
                        assert(out@[i] == before[i]);
                    } else {
                        assert((done + here)[i] == here[0]);
                    }
                }
            } else {
                assert(done + here =~= done);
            }
        }
        proof {
            lemma_next_newline_skip(s, p as nat, q as nat);
        }
        let mut k: usize = q;
        while k < cs.len() && cs[k] != '\n'
            invariant
                q <= k <= s.len(),
                s == cs@,
                forall|j: int| p <= j < q ==> s[j] != '\n',
                next_newline(s, p as nat) == next_newline(s, k as nat),
            decreases s.len() - k,
        {
            k = k + 1;
        }
        if k == cs.len() {
            proof {
                assert(minus_lines(s, p as nat, line as nat) == here);
                assert(done + here == minus_lines(s, 0, 1));
            }
            return out;
        }
        proof {
            assert(next_newline(s, k as nat) == Some(k as nat));
            assert(minus_lines(s, p as nat, line as nat) == here + minus_lines(s, (k + 1) as nat, (line + 1) as nat));
            assert(done + here + minus_lines(s, (k + 1) as nat, (line + 1) as nat) == minus_lines(s, 0, 1));
            done = done + here;
        }
        p = k + 1;
        line = line + 1;
    }
}


// ── The surface pass ─────────────────────────────────────────────────────────

/// The surface pass — sugar-level redundancies the kernel erases.
pub fn surface_lints(p: &SProgram) -> (r: Vec<Finding>)
    ensures
        reports(r@, lints_stmts(p.statements@)),
{
    let mut out: Vec<Finding> = Vec::new();
    stmts(&p.statements, &mut out);
    assert(out@.subrange(0, out@.len() as int) =~= out@);
    out
}

fn is_relational(op: BinOp) -> (r: bool)
    ensures
        r == relational(op),
{
    op == BinOp::Lt || op == BinOp::Le || op == BinOp::Gt || op == BinOp::Ge
}

/// Syntactically Boolean.
fn is_boolean_shaped(e: &SExpr) -> (r: bool)
    ensures
        r == boolean_shaped(*e),
    decreases e,
{
    match e {
        SExpr::Ident(n) => str_is(n, "true") || str_is(n, "false"),
        SExpr::Unary { op, .. } => *op == UnOp::Not,
        SExpr::Binary { op, .. } => *op == BinOp::Eq || *op == BinOp::Ne || is_relational(*op) || *op == BinOp::And,
        SExpr::Grouping(x) => is_boolean_shaped(x),
        _ => false,
    }
}

/// A comparison node, through grouping.
fn is_comparison(e: &SExpr) -> (r: bool)
    ensures
        r == comparison(*e),
    decreases e,
{
    match e {
        SExpr::Binary { op, .. } => is_relational(*op),
        SExpr::Grouping(x) => is_comparison(x),
        _ => false,
    }
}

/// Syntactically non-Boolean.
fn is_non_boolean_literal(e: &SExpr) -> (r: bool)
    ensures
        r == non_boolean_literal(*e),
{
    match e {
        SExpr::Number(_) | SExpr::Str(_) | SExpr::Template(_) | SExpr::Tuple(_) | SExpr::Record(_) => true,
        _ => false,
    }
}

/// Whether a record literal spells `field`.
fn record_spells(fs: &Vec<SField>, field: &String) -> (r: bool)
    ensures
        r == spells(fs@, field@),
{
    let mut i: usize = 0;
    while i < fs.len()
        invariant
            i <= fs@.len(),
            forall|j: int| 0 <= j < i ==> !spells_key(#[trigger] fs@[j], field@),
        decreases fs@.len() - i,
    {
        let hit = match &fs[i] {
            SField::Shorthand(k) => str_is(k, field.as_str()),
            SField::KeyValue(k, _) => str_is(k, field.as_str()),
            _ => false,
        };
        if hit {
            assert(spells_key(fs@[i as int], field@));
            return true;
        }
        i = i + 1;
    }
    false
}

fn lint_opt(o: &Option<Box<SExpr>>, out: &mut Vec<Finding>)
    ensures
        emits(final(out)@, old(out)@, lints_opt(*o)),
    decreases o, 0nat,
{
    match o {
        Some(x) => expr(x, out),
        None => {
            proof {
                lemma_emits_nothing(out@);
            }
        },
    }
}

fn stmt(s: &SStmt, out: &mut Vec<Finding>)
    ensures
        emits(final(out)@, old(out)@, lints_stmt(*s)),
    decreases s, 0nat,
{
    let ghost o0 = out@;
    match s {
        SStmt::Binding(b) => expr(&b.value, out),
        SStmt::Expr(e) => expr(e, out),
        SStmt::At(SAt::Binding { binding, .. }) => expr(&binding.value, out),
        SStmt::At(SAt::Anon { arrow, .. }) => expr(arrow, out),
        SStmt::Mutation { path, value, .. } => {
            segs(&path.segments, out);
            let ghost o1 = out@;
            expr(value, out);
            proof {
                lemma_emits_chain(out@, o1, o0, lints_segs(path.segments@), lints_expr(*value));
            }
        },
        SStmt::WhenArm { guard, result } => {
            expr(guard, out);
            let ghost o1 = out@;
            expr(result, out);
            proof {
                lemma_emits_chain(out@, o1, o0, lints_expr(*guard), lints_expr(*result));
            }
        },
        SStmt::ElseArm { result } => expr(result, out),
        _ => {
            proof {
                lemma_emits_nothing(out@);
            }
        },
    }
}

fn seg(sg: &SPathSeg, out: &mut Vec<Finding>)
    ensures
        emits(final(out)@, old(out)@, lints_seg(*sg)),
    decreases sg, 0nat,
{
    let ghost o0 = out@;
    match sg {
        SPathSeg::Field(_) => {
            proof {
                lemma_emits_nothing(out@);
            }
        },
        SPathSeg::Index(x) => expr(x, out),
        SPathSeg::Slice { lo, hi } => {
            match lo {
                Some(x) => expr(x, out),
                None => {
                    proof {
                        lemma_emits_nothing(out@);
                    }
                },
            }
            let ghost o1 = out@;
            match hi {
                Some(x) => expr(x, out),
                None => {
                    proof {
                        lemma_emits_nothing(out@);
                    }
                },
            }
            proof {
                let l = match lo {
                    Some(x) => lints_expr(*x),
                    None => seq![],
                };
                let h = match hi {
                    Some(x) => lints_expr(*x),
                    None => seq![],
                };
                lemma_emits_chain(out@, o1, o0, l, h);
            }
        },
    }
}

fn arm(a: &SArm, out: &mut Vec<Finding>)
    ensures
        emits(final(out)@, old(out)@, lints_arm(*a)),
    decreases a, 0nat,
{
    let ghost o0 = out@;
    match &a.guard {
        Some(g) => {
            expr(g, out);
            let ghost o1 = out@;
            expr(&a.result, out);
            proof {
                lemma_emits_chain(out@, o1, o0, lints_expr(*g), lints_expr(a.result));
            }
        },
        None => expr(&a.result, out),
    }
}

fn field(f: &SField, out: &mut Vec<Finding>)
    ensures
        emits(final(out)@, old(out)@, lints_field(*f)),
    decreases f, 0nat,
{
    let ghost o0 = out@;
    match f {
        SField::Shorthand(_) => {
            proof {
                lemma_emits_nothing(out@);
            }
        },
        SField::KeyValue(_, v) => expr(v, out),
        SField::Spread(v) => expr(v, out),
        SField::Computed(k, v) => {
            expr(k, out);
            let ghost o1 = out@;
            expr(v, out);
            proof {
                lemma_emits_chain(out@, o1, o0, lints_expr(*k), lints_expr(*v));
            }
        },
    }
}

/// A statement list, in order.
fn stmts(v: &Vec<SStmt>, out: &mut Vec<Finding>)
    ensures
        emits(final(out)@, old(out)@, lints_stmts(v@)),
    decreases v, 0nat,
{
    let ghost o0 = out@;
    let mut i: usize = 0;
    proof {
        lemma_emits_nothing(o0);
        assert(v@.take(0) =~= Seq::<SStmt>::empty());
    }
    while i < v.len()
        invariant
            i <= v@.len(),
            o0 == old(out)@,
            emits(out@, o0, lints_stmts(v@.take(i as int))),
        decreases v@.len() - i,
    {
        proof {
            assert(decreases_to!(*v => v@[i as int]));
        }
        let ghost o1 = out@;
        stmt(&v[i], out);
        proof {
            lemma_emits_chain(out@, o1, o0, lints_stmts(v@.take(i as int)), lints_stmt(v@[i as int]));
            assert(v@.take(i + 1).drop_last() =~= v@.take(i as int));
        }
        i = i + 1;
    }
    proof {
        assert(v@.take(v@.len() as int) =~= v@);
    }
}

/// Path segments, in order.
fn segs(v: &Vec<SPathSeg>, out: &mut Vec<Finding>)
    ensures
        emits(final(out)@, old(out)@, lints_segs(v@)),
    decreases v, 0nat,
{
    let ghost o0 = out@;
    let mut i: usize = 0;
    proof {
        lemma_emits_nothing(o0);
        assert(v@.take(0) =~= Seq::<SPathSeg>::empty());
    }
    while i < v.len()
        invariant
            i <= v@.len(),
            o0 == old(out)@,
            emits(out@, o0, lints_segs(v@.take(i as int))),
        decreases v@.len() - i,
    {
        proof {
            assert(decreases_to!(*v => v@[i as int]));
        }
        let ghost o1 = out@;
        seg(&v[i], out);
        proof {
            lemma_emits_chain(out@, o1, o0, lints_segs(v@.take(i as int)), lints_seg(v@[i as int]));
            assert(v@.take(i + 1).drop_last() =~= v@.take(i as int));
        }
        i = i + 1;
    }
    proof {
        assert(v@.take(v@.len() as int) =~= v@);
    }
}

/// Match arms, in order.
fn arms(v: &Vec<SArm>, out: &mut Vec<Finding>)
    ensures
        emits(final(out)@, old(out)@, lints_arms(v@)),
    decreases v, 0nat,
{
    let ghost o0 = out@;
    let mut i: usize = 0;
    proof {
        lemma_emits_nothing(o0);
        assert(v@.take(0) =~= Seq::<SArm>::empty());
    }
    while i < v.len()
        invariant
            i <= v@.len(),
            o0 == old(out)@,
            emits(out@, o0, lints_arms(v@.take(i as int))),
        decreases v@.len() - i,
    {
        proof {
            assert(decreases_to!(*v => v@[i as int]));
        }
        let ghost o1 = out@;
        arm(&v[i], out);
        proof {
            lemma_emits_chain(out@, o1, o0, lints_arms(v@.take(i as int)), lints_arm(v@[i as int]));
            assert(v@.take(i + 1).drop_last() =~= v@.take(i as int));
        }
        i = i + 1;
    }
    proof {
        assert(v@.take(v@.len() as int) =~= v@);
    }
}

/// Record fields, in order.
fn fields(v: &Vec<SField>, out: &mut Vec<Finding>)
    ensures
        emits(final(out)@, old(out)@, lints_fields(v@)),
    decreases v, 0nat,
{
    let ghost o0 = out@;
    let mut i: usize = 0;
    proof {
        lemma_emits_nothing(o0);
        assert(v@.take(0) =~= Seq::<SField>::empty());
    }
    while i < v.len()
        invariant
            i <= v@.len(),
            o0 == old(out)@,
            emits(out@, o0, lints_fields(v@.take(i as int))),
        decreases v@.len() - i,
    {
        proof {
            assert(decreases_to!(*v => v@[i as int]));
        }
        let ghost o1 = out@;
        field(&v[i], out);
        proof {
            lemma_emits_chain(out@, o1, o0, lints_fields(v@.take(i as int)), lints_field(v@[i as int]));
            assert(v@.take(i + 1).drop_last() =~= v@.take(i as int));
        }
        i = i + 1;
    }
    proof {
        assert(v@.take(v@.len() as int) =~= v@);
    }
}

/// Call arguments, in order.
fn args(v: &Vec<SArg>, out: &mut Vec<Finding>)
    ensures
        emits(final(out)@, old(out)@, lints_args(v@)),
    decreases v, 0nat,
{
    let ghost o0 = out@;
    let mut i: usize = 0;
    proof {
        lemma_emits_nothing(o0);
        assert(v@.take(0) =~= Seq::<SArg>::empty());
    }
    while i < v.len()
        invariant
            i <= v@.len(),
            o0 == old(out)@,
            emits(out@, o0, lints_args(v@.take(i as int))),
        decreases v@.len() - i,
    {
        proof {
            assert(decreases_to!(*v => v@[i as int]));
        }
        let ghost o1 = out@;
        match &v[i] {
            SArg::Expr(x) => expr(x, out),
            SArg::Spread(x) => expr(x, out),
        }
        proof {
            lemma_emits_chain(out@, o1, o0, lints_args(v@.take(i as int)), lints_arg(v@[i as int]));
            assert(v@.take(i + 1).drop_last() =~= v@.take(i as int));
        }
        i = i + 1;
    }
    proof {
        assert(v@.take(v@.len() as int) =~= v@);
    }
}

/// Tuple elements, in order.
fn elems(v: &Vec<SElem>, out: &mut Vec<Finding>)
    ensures
        emits(final(out)@, old(out)@, lints_elems(v@)),
    decreases v, 0nat,
{
    let ghost o0 = out@;
    let mut i: usize = 0;
    proof {
        lemma_emits_nothing(o0);
        assert(v@.take(0) =~= Seq::<SElem>::empty());
    }
    while i < v.len()
        invariant
            i <= v@.len(),
            o0 == old(out)@,
            emits(out@, o0, lints_elems(v@.take(i as int))),
        decreases v@.len() - i,
    {
        proof {
            assert(decreases_to!(*v => v@[i as int]));
        }
        let ghost o1 = out@;
        match &v[i] {
            SElem::Expr(x) => expr(x, out),
            SElem::Spread(x) => expr(x, out),
        }
        proof {
            lemma_emits_chain(out@, o1, o0, lints_elems(v@.take(i as int)), elem_lints(v@[i as int]));
            assert(v@.take(i + 1).drop_last() =~= v@.take(i as int));
        }
        i = i + 1;
    }
    proof {
        assert(v@.take(v@.len() as int) =~= v@);
    }
}

/// Template parts, in order.
fn parts(v: &Vec<STemplatePart>, out: &mut Vec<Finding>)
    ensures
        emits(final(out)@, old(out)@, lints_parts(v@)),
    decreases v, 0nat,
{
    let ghost o0 = out@;
    let mut i: usize = 0;
    proof {
        lemma_emits_nothing(o0);
        assert(v@.take(0) =~= Seq::<STemplatePart>::empty());
    }
    while i < v.len()
        invariant
            i <= v@.len(),
            o0 == old(out)@,
            emits(out@, o0, lints_parts(v@.take(i as int))),
        decreases v@.len() - i,
    {
        proof {
            assert(decreases_to!(*v => v@[i as int]));
        }
        let ghost o1 = out@;
        match &v[i] {
            STemplatePart::Interp(x) => expr(x, out),
            _ => {
                proof {
                    lemma_emits_nothing(out@);
                }
            },
        }
        proof {
            lemma_emits_chain(out@, o1, o0, lints_parts(v@.take(i as int)), part_lints(v@[i as int]));
            assert(v@.take(i + 1).drop_last() =~= v@.take(i as int));
        }
        i = i + 1;
    }
    proof {
        assert(v@.take(v@.len() as int) =~= v@);
    }
}

/// Lints one surface expression, appending findings in traversal order.
fn expr(e: &SExpr, out: &mut Vec<Finding>)
    ensures
        emits(final(out)@, old(out)@, lints_expr(*e)),
    decreases e, 1nat,
{
    let ghost o0 = out@;
    match e {
        SExpr::Unary { op: UnOp::Loosen, operand } => {
            let hit = is_boolean_shaped(operand);
            if hit {
                report(out, string_of("`~` loosens a seat its operand already satisfies — the operand is Boolean (redundant `~`)"), Ghost(LintKind::RedundantLoosen));
            } else {
                proof {
                    lemma_emits_nothing(out@);
                }
            }
            let ghost o1 = out@;
            expr(operand, out);
            proof {
                let first = if hit { seq![LintKind::RedundantLoosen] } else { seq![] };
                lemma_emits_chain(out@, o1, o0, first, lints_expr(**operand));
            }
        },
        SExpr::Binary { op, left, right } => {
            let chain = is_relational(*op) && (is_comparison(left) || is_comparison(right));
            let loose = match &**left {
                SExpr::Unary { op: UnOp::Loosen, .. } => true,
                _ => false,
            };
            let or_hint = !chain && *op == BinOp::Or && !loose && is_non_boolean_literal(right);
            if chain {
                report(out, string_of("a comparison chains into a comparison — did you mean `a < b && b < c`? (comparison-chain hint)"), Ghost(LintKind::ComparisonChain));
            } else if or_hint {
                report(out, string_of("a non-Boolean right of an unescaped `||` — legal, but only `false` selects it (non-Boolean `||` right)"), Ghost(LintKind::NonBooleanOr));
            } else {
                proof {
                    lemma_emits_nothing(out@);
                }
            }
            let ghost first = if chain {
                seq![LintKind::ComparisonChain]
            } else if or_hint {
                seq![LintKind::NonBooleanOr]
            } else {
                seq![]
            };
            let ghost o1 = out@;
            expr(left, out);
            let ghost o2 = out@;
            expr(right, out);
            proof {
                lemma_emits_chain(o2, o1, o0, first, lints_expr(**left));
                lemma_emits_chain(out@, o2, o0, first + lints_expr(**left), lints_expr(**right));
            }
        },
        SExpr::Access { target, form, total } => {
            let identity = match form {
                SAccessForm::Slice { lo: None, hi: None } => true,
                _ => false,
            };
            let is_field = match form {
                SAccessForm::Field(_) => true,
                _ => false,
            };
            if identity {
                report(out, string_of("`t[...]` is the identity slice — it returns `t` itself, same pointer"), Ghost(LintKind::IdentitySlice));
                let ghost o1 = out@;
                expr(target, out);
                proof {
                    lemma_emits_chain(out@, o1, o0, seq![LintKind::IdentitySlice], lints_expr(**target));
                }
            } else if *total && is_field {
                let name = match form {
                    SAccessForm::Field(f) => f,
                    _ => {
                        return;
                    },
                };
                let hit = match &**target {
                    SExpr::Record(fs) => record_spells(fs, name),
                    _ => false,
                };
                if hit {
                    report(out, concat3("`?.` on a record that spells `", name.as_str(), "` — permission granted where none is needed (redundant `?.`)"), Ghost(LintKind::RedundantTotal(name@)));
                } else {
                    proof {
                        lemma_emits_nothing(out@);
                    }
                }
                let ghost first = if hit { seq![LintKind::RedundantTotal(name@)] } else { seq![] };
                let ghost o1 = out@;
                expr(target, out);
                proof {
                    lemma_emits_chain(out@, o1, o0, first, lints_expr(**target));
                }
            } else {
                expr(target, out);
                let ghost o1 = out@;
                let ghost rest = match form {
                    SAccessForm::Index(x) => lints_expr(**x),
                    SAccessForm::Slice { lo, hi } => lints_opt(*lo) + lints_opt(*hi),
                    _ => seq![],
                };
                match form {
                    SAccessForm::Field(_) => {
                        proof {
                            lemma_emits_nothing(out@);
                        }
                    },
                    SAccessForm::Index(x) => expr(x, out),
                    SAccessForm::Slice { lo, hi } => {
                        lint_opt(lo, out);
                        let ghost o2 = out@;
                        lint_opt(hi, out);
                        proof {
                            lemma_emits_chain(out@, o2, o1, lints_opt(*lo), lints_opt(*hi));
                        }
                    },
                }
                proof {
                    lemma_emits_chain(out@, o1, o0, lints_expr(**target), rest);
                }
            }
        },
        SExpr::Template(ps) => parts(ps, out),
        SExpr::Tuple(es) => elems(es, out),
        SExpr::Record(fs) => fields(fs, out),
        SExpr::Block(ss) => stmts(ss, out),
        SExpr::Grouping(x) => expr(x, out),
        SExpr::Hask(x) => expr(x, out),
        SExpr::Arrow(a) => match &*a.body {
            SArrowBody::Expr(x) => expr(x, out),
            SArrowBody::Block(ss) => stmts(ss, out),
        },
        SExpr::Match { scrutinee, arms: xs } => {
            expr(scrutinee, out);
            let ghost o1 = out@;
            arms(xs, out);
            proof {
                lemma_emits_chain(out@, o1, o0, lints_expr(**scrutinee), lints_arms(xs@));
            }
        },
        SExpr::Pipe { left, right, .. } => {
            expr(left, out);
            let ghost o1 = out@;
            expr(right, out);
            proof {
                lemma_emits_chain(out@, o1, o0, lints_expr(**left), lints_expr(**right));
            }
        },
        SExpr::Ternary { cond, then, els } => {
            expr(cond, out);
            let ghost o1 = out@;
            expr(then, out);
            let ghost o2 = out@;
            expr(els, out);
            proof {
                lemma_emits_chain(o2, o1, o0, lints_expr(**cond), lints_expr(**then));
                lemma_emits_chain(out@, o2, o0, lints_expr(**cond) + lints_expr(**then), lints_expr(**els));
            }
        },
        SExpr::Unary { operand, .. } => expr(operand, out),
        SExpr::Call { callee, args: xs } => {
            expr(callee, out);
            let ghost o1 = out@;
            args(xs, out);
            proof {
                lemma_emits_chain(out@, o1, o0, lints_expr(**callee), lints_args(xs@));
            }
        },
        _ => {
            proof {
                lemma_emits_nothing(out@);
            }
        },
    }
}

} // verus!
