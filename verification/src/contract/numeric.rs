//! The numeric interval shape behind the bound family — `Range` (closed,
//! bounded) and the four half-lines (`Greater`/`GreaterEq`/`Less`/`LessEq`)
//! are one shape: an interval with an optional, possibly-strict endpoint on
//! each side.
//!
//! An interval denotes a set of rationals (`contains`); every operation here is
//! stated over that set: `meet` is the intersection, `hull` the least interval
//! holding both operands, and the comparisons decide inclusion of the sets their
//! bounds cut out.
//!
//! [`num_abs`] reads a numeric contract into an interval and, where one is
//! known, an integer-lattice congruence; every number the contract admits lies
//! in what it returns (a widening, sound for image over-approximation).

use super::{congruent, frac_mul, frac_pow, is_whole, Contract, Kind};
use crate::ast::PrimOp;
use crate::bignum::{big_add, big_div_floor, big_eq, big_from_i64, big_gcd, big_lcm, big_low_u32_digit, big_lt, big_mod_floor, big_mul, big_neg, big_sub, BigNum};
use crate::rational::{frac_wf, same_value, value_lt, Rational};
use crate::value::ValueData;
use vstd::arithmetic::div_mod::{lemma_div_multiples_vanish, lemma_fundamental_div_mod, lemma_mod_multiples_basic, lemma_mod_multiples_vanish};
use vstd::arithmetic::power::pow;
use vstd::prelude::*;

verus! {

/// One endpoint of an [`Interval`].
#[derive(Clone, Debug)]
pub enum Bound {
    Unbounded,
    /// Inclusive.
    Incl(Rational),
    /// Exclusive.
    Excl(Rational),
}

/// A numeric interval as `(low, high)` bounds.
#[derive(Clone, Debug)]
pub struct Interval {
    pub low: Bound,
    pub high: Bound,
}

/// A finite bound carries a well-formed rational.
pub open spec fn bound_wf(b: Bound) -> bool {
    match b {
        Bound::Unbounded => true,
        Bound::Incl(v) => v.wf(),
        Bound::Excl(v) => v.wf(),
    }
}

/// `q` is allowed by `b` read as a lower bound.
pub open spec fn above(b: Bound, q: (int, int)) -> bool {
    match b {
        Bound::Unbounded => true,
        Bound::Incl(v) => !value_lt(q, v@),
        Bound::Excl(v) => value_lt(v@, q),
    }
}

/// `q` is allowed by `b` read as an upper bound.
pub open spec fn under(b: Bound, q: (int, int)) -> bool {
    match b {
        Bound::Unbounded => true,
        Bound::Incl(v) => !value_lt(v@, q),
        Bound::Excl(v) => value_lt(q, v@),
    }
}

/// Every number `a` admits as a lower bound, `b` admits too.
pub open spec fn low_within(a: Bound, b: Bound) -> bool {
    forall|q: (int, int)| frac_wf(q) && #[trigger] above(a, q) ==> above(b, q)
}

/// Every number `a` admits as an upper bound, `b` admits too.
pub open spec fn high_within(a: Bound, b: Bound) -> bool {
    forall|q: (int, int)| frac_wf(q) && #[trigger] under(a, q) ==> under(b, q)
}

/// No number lies under `high` and above `low` at once.
pub open spec fn gap(high: Bound, low: Bound) -> bool {
    forall|q: (int, int)| frac_wf(q) ==> !(#[trigger] under(high, q) && above(low, q))
}

impl Interval {
    /// Both endpoints are well formed.
    pub open spec fn wf(&self) -> bool {
        bound_wf(self.low) && bound_wf(self.high)
    }

    /// Whether the number `q` lies in the interval.
    pub open spec fn contains(&self, q: (int, int)) -> bool {
        above(self.low, q) && under(self.high, q)
    }

    /// Every number.
    pub fn unbounded() -> (r: Interval)
        ensures
            r.wf(),
            r.low is Unbounded && r.high is Unbounded,
            forall|q: (int, int)| #[trigger] r.contains(q),
    {
        Interval { low: Bound::Unbounded, high: Bound::Unbounded }
    }

    /// Exactly the number `v`.
    pub fn point(v: Rational) -> (r: Interval)
        requires
            v.wf(),
        ensures
            r.wf(),
            forall|q: (int, int)| frac_wf(q) ==> (#[trigger] r.contains(q) <==> same_value(q, v@)),
    {
        let w = v.clone();
        Interval { low: Bound::Incl(v), high: Bound::Incl(w) }
    }

    /// Proven empty — the bounds cross, or meet at a point one side excludes.
    /// Exact: an interval that is not empty holds some number.
    pub fn is_empty(&self) -> (r: bool)
        requires
            self.wf(),
        ensures
            r <==> forall|q: (int, int)| frac_wf(q) ==> !#[trigger] self.contains(q),
    {
        let r = below(&self.high, &self.low);
        proof {
            if r {
                assert forall|q: (int, int)| frac_wf(q) implies !#[trigger] self.contains(q) by {
                    assert(!(under(self.high, q) && above(self.low, q)));
                }
            } else {
                let q = choose|q: (int, int)| frac_wf(q) && #[trigger] under(self.high, q) && above(self.low, q);
                assert(self.contains(q));
            }
        }
        r
    }
}

// ── Fractions ────────────────────────────────────────────────────────────────

proof fn lemma_le_trans(p: (int, int), q: (int, int), r: (int, int))
    requires
        frac_wf(p),
        frac_wf(q),
        frac_wf(r),
        !value_lt(q, p),
        !value_lt(r, q),
    ensures
        !value_lt(r, p),
{
    assert(r.0 * p.1 >= p.0 * r.1) by (nonlinear_arith)
        requires
            q.0 * p.1 >= p.0 * q.1,
            r.0 * q.1 >= q.0 * r.1,
            p.1 > 0,
            q.1 > 0,
            r.1 > 0,
    {
        assert(q.0 * p.1 * r.1 >= p.0 * q.1 * r.1);
        assert(r.0 * q.1 * p.1 >= q.0 * r.1 * p.1);
        assert(r.0 * p.1 * q.1 >= p.0 * r.1 * q.1);
    }
}

proof fn lemma_lt_le_trans(p: (int, int), q: (int, int), r: (int, int))
    requires
        frac_wf(p),
        frac_wf(q),
        frac_wf(r),
        value_lt(p, q),
        !value_lt(r, q),
    ensures
        value_lt(p, r),
{
    assert(p.0 * r.1 < r.0 * p.1) by (nonlinear_arith)
        requires
            p.0 * q.1 < q.0 * p.1,
            r.0 * q.1 >= q.0 * r.1,
            p.1 > 0,
            q.1 > 0,
            r.1 > 0,
    {
        assert(p.0 * q.1 * r.1 < q.0 * p.1 * r.1);
        assert(r.0 * q.1 * p.1 >= q.0 * r.1 * p.1);
        assert(p.0 * r.1 * q.1 < r.0 * p.1 * q.1);
    }
}

proof fn lemma_le_lt_trans(p: (int, int), q: (int, int), r: (int, int))
    requires
        frac_wf(p),
        frac_wf(q),
        frac_wf(r),
        !value_lt(q, p),
        value_lt(q, r),
    ensures
        value_lt(p, r),
{
    assert(p.0 * r.1 < r.0 * p.1) by (nonlinear_arith)
        requires
            q.0 * p.1 >= p.0 * q.1,
            q.0 * r.1 < r.0 * q.1,
            p.1 > 0,
            q.1 > 0,
            r.1 > 0,
    {
        assert(q.0 * p.1 * r.1 >= p.0 * q.1 * r.1);
        assert(q.0 * r.1 * p.1 < r.0 * q.1 * p.1);
        assert(p.0 * r.1 * q.1 < r.0 * p.1 * q.1);
    }
}

/// The number halfway between `p` and `q`.
spec fn midpoint(p: (int, int), q: (int, int)) -> (int, int) {
    (p.0 * q.1 + q.0 * p.1, 2 * p.1 * q.1)
}

proof fn lemma_midpoint(p: (int, int), q: (int, int))
    requires
        frac_wf(p),
        frac_wf(q),
        value_lt(p, q),
    ensures
        frac_wf(midpoint(p, q)),
        value_lt(p, midpoint(p, q)),
        value_lt(midpoint(p, q), q),
{
    let m = midpoint(p, q);
    assert(m.1 > 0) by (nonlinear_arith)
        requires
            m.1 == 2 * p.1 * q.1,
            p.1 > 0,
            q.1 > 0,
    ;
    assert(p.0 * m.1 < m.0 * p.1) by (nonlinear_arith)
        requires
            m.0 == p.0 * q.1 + q.0 * p.1,
            m.1 == 2 * p.1 * q.1,
            p.0 * q.1 < q.0 * p.1,
            p.1 > 0,
    {
        assert(p.0 * m.1 == 2 * p.0 * q.1 * p.1);
        assert(m.0 * p.1 == p.0 * q.1 * p.1 + q.0 * p.1 * p.1);
        assert(p.0 * q.1 * p.1 < q.0 * p.1 * p.1);
    }
    assert(m.0 * q.1 < q.0 * m.1) by (nonlinear_arith)
        requires
            m.0 == p.0 * q.1 + q.0 * p.1,
            m.1 == 2 * p.1 * q.1,
            p.0 * q.1 < q.0 * p.1,
            q.1 > 0,
    {
        assert(q.0 * m.1 == 2 * q.0 * p.1 * q.1);
        assert(m.0 * q.1 == p.0 * q.1 * q.1 + q.0 * p.1 * q.1);
        assert(p.0 * q.1 * q.1 < q.0 * p.1 * q.1);
    }
}

/// One less than `p`.
spec fn pred(p: (int, int)) -> (int, int) {
    (p.0 - p.1, p.1)
}

/// One more than `p`.
spec fn succ(p: (int, int)) -> (int, int) {
    (p.0 + p.1, p.1)
}

proof fn lemma_pred_succ(p: (int, int))
    requires
        frac_wf(p),
    ensures
        frac_wf(pred(p)),
        frac_wf(succ(p)),
        value_lt(pred(p), p),
        value_lt(p, succ(p)),
{
    assert((p.0 - p.1) * p.1 < p.0 * p.1) by (nonlinear_arith)
        requires
            p.1 > 0,
    ;
    assert(p.0 * p.1 < (p.0 + p.1) * p.1) by (nonlinear_arith)
        requires
            p.1 > 0,
    ;
}

// ── Comparing bounds ─────────────────────────────────────────────────────────

/// `a`, read as a lower bound, starts at or above `b`: by endpoint, an
/// inclusive endpoint reaching one step further than an exclusive one.
spec fn low_cmp(a: Bound, b: Bound) -> bool {
    match (a, b) {
        (_, Bound::Unbounded) => true,
        (Bound::Unbounded, _) => false,
        (Bound::Incl(va), Bound::Excl(vb)) => value_lt(vb@, va@),
        (Bound::Incl(va), Bound::Incl(vb)) => !value_lt(va@, vb@),
        (Bound::Excl(va), Bound::Incl(vb)) => !value_lt(va@, vb@),
        (Bound::Excl(va), Bound::Excl(vb)) => !value_lt(va@, vb@),
    }
}

/// `a`, read as an upper bound, ends at or below `b`.
spec fn high_cmp(a: Bound, b: Bound) -> bool {
    match (a, b) {
        (_, Bound::Unbounded) => true,
        (Bound::Unbounded, _) => false,
        (Bound::Incl(va), Bound::Excl(vb)) => value_lt(va@, vb@),
        (Bound::Incl(va), Bound::Incl(vb)) => !value_lt(vb@, va@),
        (Bound::Excl(va), Bound::Incl(vb)) => !value_lt(vb@, va@),
        (Bound::Excl(va), Bound::Excl(vb)) => !value_lt(vb@, va@),
    }
}

/// `high` lies strictly below `low`, a shared endpoint counting as a gap
/// unless both include it.
spec fn gap_cmp(high: Bound, low: Bound) -> bool {
    match (high, low) {
        (Bound::Unbounded, _) => false,
        (_, Bound::Unbounded) => false,
        (Bound::Incl(vh), Bound::Incl(vl)) => value_lt(vh@, vl@),
        (Bound::Incl(vh), Bound::Excl(vl)) => !value_lt(vl@, vh@),
        (Bound::Excl(vh), Bound::Incl(vl)) => !value_lt(vl@, vh@),
        (Bound::Excl(vh), Bound::Excl(vl)) => !value_lt(vl@, vh@),
    }
}

proof fn lemma_low_exact(a: Bound, b: Bound)
    requires
        bound_wf(a),
        bound_wf(b),
    ensures
        low_within(a, b) <==> low_cmp(a, b),
{
    if low_cmp(a, b) {
        assert forall|q: (int, int)| frac_wf(q) && #[trigger] above(a, q) implies above(b, q) by {
            match (a, b) {
                (Bound::Incl(va), Bound::Incl(vb)) => lemma_le_trans(vb@, va@, q),
                (Bound::Incl(va), Bound::Excl(vb)) => lemma_lt_le_trans(vb@, va@, q),
                (Bound::Excl(va), Bound::Incl(vb)) => lemma_le_lt_trans(vb@, va@, q),
                (Bound::Excl(va), Bound::Excl(vb)) => lemma_le_lt_trans(vb@, va@, q),
                _ => {},
            }
        }
    } else {
        let q = match (a, b) {
            (Bound::Unbounded, Bound::Incl(vb)) => pred(vb@),
            (Bound::Unbounded, Bound::Excl(vb)) => pred(vb@),
            (Bound::Incl(va), _) => va@,
            (Bound::Excl(va), Bound::Incl(vb)) => midpoint(va@, vb@),
            (Bound::Excl(va), Bound::Excl(vb)) => midpoint(va@, vb@),
            _ => (0, 1),
        };
        match (a, b) {
            (Bound::Unbounded, Bound::Incl(vb)) => lemma_pred_succ(vb@),
            (Bound::Unbounded, Bound::Excl(vb)) => lemma_pred_succ(vb@),
            (Bound::Excl(va), Bound::Incl(vb)) => lemma_midpoint(va@, vb@),
            (Bound::Excl(va), Bound::Excl(vb)) => lemma_midpoint(va@, vb@),
            _ => {},
        }
        assert(frac_wf(q) && above(a, q) && !above(b, q));
    }
}

proof fn lemma_high_exact(a: Bound, b: Bound)
    requires
        bound_wf(a),
        bound_wf(b),
    ensures
        high_within(a, b) <==> high_cmp(a, b),
{
    if high_cmp(a, b) {
        assert forall|q: (int, int)| frac_wf(q) && #[trigger] under(a, q) implies under(b, q) by {
            match (a, b) {
                (Bound::Incl(va), Bound::Incl(vb)) => lemma_le_trans(q, va@, vb@),
                (Bound::Incl(va), Bound::Excl(vb)) => lemma_le_lt_trans(q, va@, vb@),
                (Bound::Excl(va), Bound::Incl(vb)) => lemma_lt_le_trans(q, va@, vb@),
                (Bound::Excl(va), Bound::Excl(vb)) => lemma_lt_le_trans(q, va@, vb@),
                _ => {},
            }
        }
    } else {
        let q = match (a, b) {
            (Bound::Unbounded, Bound::Incl(vb)) => succ(vb@),
            (Bound::Unbounded, Bound::Excl(vb)) => succ(vb@),
            (Bound::Incl(va), _) => va@,
            (Bound::Excl(va), Bound::Incl(vb)) => midpoint(vb@, va@),
            (Bound::Excl(va), Bound::Excl(vb)) => midpoint(vb@, va@),
            _ => (0, 1),
        };
        match (a, b) {
            (Bound::Unbounded, Bound::Incl(vb)) => lemma_pred_succ(vb@),
            (Bound::Unbounded, Bound::Excl(vb)) => lemma_pred_succ(vb@),
            (Bound::Excl(va), Bound::Incl(vb)) => lemma_midpoint(vb@, va@),
            (Bound::Excl(va), Bound::Excl(vb)) => lemma_midpoint(vb@, va@),
            _ => {},
        }
        assert(frac_wf(q) && under(a, q) && !under(b, q));
    }
}

proof fn lemma_gap_exact(high: Bound, low: Bound)
    requires
        bound_wf(high),
        bound_wf(low),
    ensures
        gap(high, low) <==> gap_cmp(high, low),
{
    if gap_cmp(high, low) {
        assert forall|q: (int, int)| frac_wf(q) implies !(#[trigger] under(high, q) && above(low, q)) by {
            if under(high, q) && above(low, q) {
                match (high, low) {
                    (Bound::Incl(vh), Bound::Incl(vl)) => lemma_le_lt_trans(q, vh@, vl@),
                    (Bound::Incl(vh), Bound::Excl(vl)) => lemma_lt_le_trans(vl@, q, vh@),
                    (Bound::Excl(vh), Bound::Incl(vl)) => lemma_lt_le_trans(q, vh@, vl@),
                    (Bound::Excl(vh), Bound::Excl(vl)) => lemma_lt_le_trans(q, vh@, vl@),
                    _ => {},
                }
            }
        }
    } else {
        let q = match (high, low) {
            (Bound::Unbounded, Bound::Incl(vl)) => succ(vl@),
            (Bound::Unbounded, Bound::Excl(vl)) => succ(vl@),
            (Bound::Incl(vh), Bound::Unbounded) => pred(vh@),
            (Bound::Excl(vh), Bound::Unbounded) => pred(vh@),
            (Bound::Incl(vh), Bound::Incl(vl)) => vh@,
            (Bound::Incl(vh), Bound::Excl(vl)) => midpoint(vl@, vh@),
            (Bound::Excl(vh), Bound::Incl(vl)) => midpoint(vl@, vh@),
            (Bound::Excl(vh), Bound::Excl(vl)) => midpoint(vl@, vh@),
            _ => (0, 1),
        };
        match (high, low) {
            (Bound::Unbounded, Bound::Incl(vl)) => lemma_pred_succ(vl@),
            (Bound::Unbounded, Bound::Excl(vl)) => lemma_pred_succ(vl@),
            (Bound::Incl(vh), Bound::Unbounded) => lemma_pred_succ(vh@),
            (Bound::Excl(vh), Bound::Unbounded) => lemma_pred_succ(vh@),
            (Bound::Incl(vh), Bound::Excl(vl)) => lemma_midpoint(vl@, vh@),
            (Bound::Excl(vh), Bound::Incl(vl)) => lemma_midpoint(vl@, vh@),
            (Bound::Excl(vh), Bound::Excl(vl)) => lemma_midpoint(vl@, vh@),
            _ => {},
        }
        assert(frac_wf(q) && under(high, q) && above(low, q));
    }
}

/// `(value, strict)` for a finite bound.
fn bound_parts(b: &Bound) -> (r: (&Rational, bool))
    requires
        !(*b is Unbounded),
    ensures
        match *b {
            Bound::Incl(v) => *r.0 == v && !r.1,
            Bound::Excl(v) => *r.0 == v && r.1,
            Bound::Unbounded => false,
        },
{
    match b {
        Bound::Excl(v) => (v, true),
        Bound::Incl(v) => (v, false),
        Bound::Unbounded => vstd::pervasive::unreached(),
    }
}

/// `a`, read as a lower bound, starts at or above `b`: every number above
/// `a` is above `b`.
pub fn low_ge(a: &Bound, b: &Bound) -> (r: bool)
    requires
        bound_wf(*a),
        bound_wf(*b),
    ensures
        r == low_within(*a, *b),
{
    proof {
        lemma_low_exact(*a, *b);
    }
    if let Bound::Unbounded = b {
        return true;
    }
    if let Bound::Unbounded = a {
        return false;
    }
    let (va, sa) = bound_parts(a);
    let (vb, sb) = bound_parts(b);
    vb.lt(va) || (va.eq_value(vb) && (sa || !sb))
}

/// `a`, read as an upper bound, ends at or below `b`: every number under `a`
/// is under `b`.
pub fn high_le(a: &Bound, b: &Bound) -> (r: bool)
    requires
        bound_wf(*a),
        bound_wf(*b),
    ensures
        r == high_within(*a, *b),
{
    proof {
        lemma_high_exact(*a, *b);
    }
    if let Bound::Unbounded = b {
        return true;
    }
    if let Bound::Unbounded = a {
        return false;
    }
    let (va, sa) = bound_parts(a);
    let (vb, sb) = bound_parts(b);
    va.lt(vb) || (va.eq_value(vb) && (sa || !sb))
}

/// Whether `high` lies strictly below `low`, so that no number sits between
/// them.
pub fn below(high: &Bound, low: &Bound) -> (r: bool)
    requires
        bound_wf(*high),
        bound_wf(*low),
    ensures
        r == gap(*high, *low),
{
    proof {
        lemma_gap_exact(*high, *low);
    }
    if let Bound::Unbounded = high {
        return false;
    }
    if let Bound::Unbounded = low {
        return false;
    }
    let (vh, sh) = bound_parts(high);
    let (vl, sl) = bound_parts(low);
    vh.lt(vl) || (vh.eq_value(vl) && (sh || sl))
}

// ── Combining intervals ──────────────────────────────────────────────────────

/// The meet (intersection) of two intervals: highest low, lowest high.
pub fn meet(a: Interval, b: Interval) -> (r: Interval)
    requires
        a.wf(),
        b.wf(),
    ensures
        r.wf(),
        forall|q: (int, int)| frac_wf(q) ==> (#[trigger] r.contains(q) <==> a.contains(q) && b.contains(q)),
{
    proof {
        lemma_low_exact(a.low, b.low);
        lemma_low_exact(b.low, a.low);
        lemma_high_exact(a.high, b.high);
        lemma_high_exact(b.high, a.high);
    }
    let take_a_low = low_ge(&a.low, &b.low);
    let take_a_high = high_le(&a.high, &b.high);
    let Interval { low: al, high: ah } = a;
    let Interval { low: bl, high: bh } = b;
    let low = if take_a_low { al } else { bl };
    let high = if take_a_high { ah } else { bh };
    Interval { low, high }
}

/// The hull of two intervals: lowest low, highest high — the least interval
/// holding both.
pub fn hull(a: Interval, b: Interval) -> (r: Interval)
    requires
        a.wf(),
        b.wf(),
    ensures
        r.wf(),
        forall|q: (int, int)|
            frac_wf(q) ==> (#[trigger] r.contains(q) <==> (above(a.low, q) || above(b.low, q)) && (under(
                a.high,
                q,
            ) || under(b.high, q))),
        forall|q: (int, int)| frac_wf(q) && (a.contains(q) || b.contains(q)) ==> #[trigger] r.contains(q),
{
    proof {
        lemma_low_exact(a.low, b.low);
        lemma_low_exact(b.low, a.low);
        lemma_high_exact(a.high, b.high);
        lemma_high_exact(b.high, a.high);
    }
    let take_b_low = low_ge(&a.low, &b.low);
    let take_b_high = high_le(&a.high, &b.high);
    let Interval { low: al, high: ah } = a;
    let Interval { low: bl, high: bh } = b;
    let low = if take_b_low { bl } else { al };
    let high = if take_b_high { bh } else { ah };
    Interval { low, high }
}

/// `A ⊆ B` for intervals: A's low is no lower than B's, and A's high no
/// higher.
pub fn interval_subset(a: &Interval, b: &Interval) -> (r: bool)
    requires
        a.wf(),
        b.wf(),
    ensures
        r == (low_within(a.low, b.low) && high_within(a.high, b.high)),
        r ==> forall|q: (int, int)| frac_wf(q) && #[trigger] a.contains(q) ==> b.contains(q),
{
    low_ge(&a.low, &b.low) && high_le(&a.high, &b.high)
}

/// Disjoint when one interval lies entirely below the other.
pub fn intervals_disjoint(a: &Interval, b: &Interval) -> (r: bool)
    requires
        a.wf(),
        b.wf(),
    ensures
        r == (gap(a.high, b.low) || gap(b.high, a.low)),
        r ==> forall|q: (int, int)| frac_wf(q) ==> !(#[trigger] a.contains(q) && b.contains(q)),
{
    below(&a.high, &b.low) || below(&b.high, &a.low)
}

// ── Congruence — the integer-lattice facet ───────────────────────────────────

/// `g` is the greatest common divisor of `a`, `b` and `e`: non-negative, zero
/// exactly when all three are, dividing each, and divided by each of their
/// common divisors.
pub open spec fn is_gcd3(g: int, a: int, b: int, e: int) -> bool {
    &&& g >= 0
    &&& (g == 0 <==> a == 0 && b == 0 && e == 0)
    &&& g > 0 ==> a % g == 0 && b % g == 0 && e % g == 0
    &&& forall|d: int| d > 0 && a % d == 0 && b % d == 0 && e % d == 0 ==> #[trigger] (g % d) == 0
}

/// `x ≡ r (mod n)`. **`n = 0` encodes an exact integer** (`x = r`), which makes
/// the `gcd`-based composition uniform.
#[derive(Debug)]
pub struct Congruence {
    pub n: BigNum,
    pub r: BigNum,
}

impl Clone for Congruence {
    fn clone(&self) -> (c: Self)
        ensures
            c.n@ == self.n@,
            c.r@ == self.r@,
    {
        Congruence { n: self.n.clone(), r: self.r.clone() }
    }
}

/// Zero test.
fn is_zero(n: &BigNum) -> (r: bool)
    ensures
        r == (n@ == 0),
{
    big_eq(n, &big_from_i64(0))
}

/// The magnitude of `n`.
fn magnitude(n: &BigNum) -> (r: BigNum)
    ensures
        r@ == if n@ < 0 { -n@ } else { n@ },
{
    if big_lt(n, &big_from_i64(0)) {
        big_neg(n)
    } else {
        n.clone()
    }
}

impl Congruence {
    /// Whether the integer `x` lies on the lattice.
    pub open spec fn has(&self, x: int) -> bool {
        congruent(x, self.n@, self.r@)
    }

    /// The modulus is non-negative.
    pub open spec fn wf(&self) -> bool {
        self.n@ >= 0
    }

    /// `x ≡ r (mod n)`, normalized: the modulus non-negative and, when it is
    /// positive, the residue in `0..n`.
    pub fn new(n: BigNum, r: BigNum) -> (c: Congruence)
        ensures
            c.wf(),
            c.n@ == if n@ < 0 { -n@ } else { n@ },
            c.n@ > 0 ==> 0 <= c.r@ < c.n@,
            forall|x: int| #[trigger] c.has(x) <==> congruent(x, n@, r@),
    {
        let m = magnitude(&n);
        if is_zero(&m) {
            Congruence { n: m, r }
        } else {
            let res = big_mod_floor(&r, &m);
            proof {
                assert forall|x: int| #[trigger] congruent(x, m@, res@) <==> congruent(x, n@, r@) by {
                    lemma_fundamental_div_mod(r@, m@);
                    lemma_mod_multiples_vanish(r@ / m@, x - r@, m@);
                    assert(m@ * (r@ / m@) + (x - r@) == x - res@);
                }
            }
            Congruence { n: m, r: res }
        }
    }

    /// Exactly the integer `v`.
    pub fn exact(v: BigNum) -> (c: Congruence)
        ensures
            c.wf(),
            forall|x: int| #[trigger] c.has(x) <==> x == v@,
    {
        Congruence { n: big_from_i64(0), r: v }
    }

    /// The two lattices share an integer.
    pub open spec fn meets(&self, o: &Congruence) -> bool {
        exists|x: int| self.has(x) && o.has(x)
    }

    /// `r` is what [`Congruence::meet`] gives for `self` and `o`.
    pub open spec fn meet_result(&self, o: &Congruence, r: Option<Congruence>) -> bool {
        &&& r matches Some(c) ==> c.wf() && forall|x: int| self.has(x) && o.has(x) ==> #[trigger] c.has(x)
        &&& (self.n@ > 0 || o.n@ > 0) ==> (r matches Some(c) ==> forall|x: int| #[trigger] c.has(x) ==> self.has(x)
            && o.has(x))
        &&& self.n@ == 0 && o.n@ == 0 ==> (r matches Some(c) && c.n@ == 0 && c.r@ == self.r@)
        &&& (self.n@ > 0 || o.n@ > 0) && !self.meets(o) ==> r is None
        &&& self.meets(o) && (self.n@ == 0 || o.n@ == 0 || self.r@ < self.n@) ==> r is Some
    }

    /// The congruence holding exactly the integers on both lattices (by CRT,
    /// searching the `lcm` window above `self`'s residue), or `None` when the
    /// residues are incompatible or the window holds no meeting point. Two
    /// exact integers are not compared: the first is kept.
    pub fn meet(&self, o: &Congruence) -> (r: Option<Congruence>)
        requires
            self.wf(),
            o.wf(),
        ensures
            r matches Some(c) ==> c.wf() && forall|x: int| self.has(x) && o.has(x) ==> #[trigger] c.has(x),
            (self.n@ > 0 || o.n@ > 0) ==> (r matches Some(c) ==> forall|x: int| #[trigger] c.has(x) ==> self.has(x)
                && o.has(x)),
            self.n@ == 0 && o.n@ == 0 ==> (r matches Some(c) && c.n@ == 0 && c.r@ == self.r@),
            (self.n@ > 0 || o.n@ > 0) && !self.meets(o) ==> r is None,
            self.meets(o) && (self.n@ == 0 || o.n@ == 0 || self.r@ < self.n@) ==> r is Some,
            self.meet_result(o, r),
    {
        let g = big_gcd(&self.n, &o.n);
        proof {
            if self.meets(o) && g@ > 0 {
                let x = choose|x: int| self.has(x) && o.has(x);
                lemma_common_point_residues(self.n@, self.r@, o.n@, o.r@, g@, x);
            }
        }
        if !is_zero(&g) && !is_zero(&big_mod_floor(&big_sub(&self.r, &o.r), &g)) {
            proof {
                if self.meets(o) {
                    let x = choose|x: int| self.has(x) && o.has(x);
                    lemma_common_point_residues(self.n@, self.r@, o.n@, o.r@, g@, x);
                }
            }
            return None;
        }
        if is_zero(&self.n) {
            let c = self.clone();
            proof {
                if o.n@ > 0 {
                    lemma_mod_self(o.n@);
                    assert(0int % o.n@ == 0) by {
                        lemma_mod_multiples_basic(0, o.n@);
                    }
                    assert(g@ % o.n@ == 0);
                    lemma_mutual_dvd(g@, o.n@);
                    assert forall|x: int| #[trigger] c.has(x) implies self.has(x) && o.has(x) by {}
                    assert(c.has(self.r@));
                }
            }
            return Some(c);
        }
        if is_zero(&o.n) {
            let c = o.clone();
            proof {
                lemma_mod_self(self.n@);
                assert(0int % self.n@ == 0) by {
                    lemma_mod_multiples_basic(0, self.n@);
                }
                assert(g@ % self.n@ == 0);
                lemma_mutual_dvd(g@, self.n@);
                assert forall|x: int| #[trigger] c.has(x) implies self.has(x) && o.has(x) by {
                    lemma_dvd_neg(self.r@ - o.r@, self.n@);
                    assert(-(self.r@ - o.r@) == x - self.r@);
                }
                assert(c.has(o.r@));
            }
            return Some(c);
        }
        let lcm = big_lcm(&self.n, &o.n);
        let mut cand = self.r.clone();
        proof {
            lemma_mod_multiples_basic(0, self.n@);
        }
        while big_lt(&cand, &lcm)
            invariant
                self.wf(),
                o.wf(),
                self.n@ > 0,
                o.n@ > 0,
                lcm@ > 0,
                lcm@ % self.n@ == 0 && lcm@ % o.n@ == 0,
                forall|m: int| m % self.n@ == 0 && m % o.n@ == 0 ==> #[trigger] (m % lcm@) == 0,
                (cand@ - self.r@) % self.n@ == 0,
                cand@ >= self.r@,
                forall|z: int| self.r@ <= z < cand@ && #[trigger] self.has(z) ==> !o.has(z),
            decreases if cand@ < lcm@ { lcm@ - cand@ } else { 0 },
        {
            let gap = big_mod_floor(&big_sub(&cand, &o.r), &o.n);
            if is_zero(&gap) {
                let c = Congruence::new(lcm, cand);
                proof {
                    assert forall|x: int| self.has(x) && o.has(x) implies #[trigger] c.has(x) by {
                        lemma_dvd_sub(x - self.r@, cand@ - self.r@, self.n@);
                        lemma_dvd_sub(x - o.r@, cand@ - o.r@, o.n@);
                        assert(x - self.r@ - (cand@ - self.r@) == x - cand@);
                        assert(x - o.r@ - (cand@ - o.r@) == x - cand@);
                    }
                    assert forall|x: int| #[trigger] c.has(x) implies self.has(x) && o.has(x) by {
                        lemma_dvd_trans(self.n@, lcm@, x - cand@);
                        lemma_dvd_trans(o.n@, lcm@, x - cand@);
                        lemma_dvd_add(x - cand@, cand@ - self.r@, self.n@);
                        lemma_dvd_add(x - cand@, cand@ - o.r@, o.n@);
                        assert(x - cand@ + (cand@ - self.r@) == x - self.r@);
                        assert(x - cand@ + (cand@ - o.r@) == x - o.r@);
                    }
                    lemma_mod_multiples_basic(0, lcm@);
                    assert(c.has(cand@));
                }
                return Some(c);
            }
            let next = big_add(&cand, &self.n);
            proof {
                lemma_dvd_add(cand@ - self.r@, self.n@, self.n@);
                lemma_mod_self(self.n@);
                assert(cand@ - self.r@ + self.n@ == next@ - self.r@);
                assert forall|z: int| self.r@ <= z < next@ && #[trigger] self.has(z) implies !o.has(z) by {
                    if z >= cand@ {
                        lemma_dvd_sub(z - self.r@, cand@ - self.r@, self.n@);
                        assert(z - self.r@ - (cand@ - self.r@) == z - cand@);
                        lemma_small_multiple(z - cand@, self.n@);
                    }
                }
            }
            cand = next;
        }
        proof {
            if self.meets(o) && self.r@ < self.n@ {
                let x = choose|x: int| self.has(x) && o.has(x);
                let y = x % lcm@;
                lemma_fundamental_div_mod(x, lcm@);
                lemma_mod_multiples_basic(x / lcm@, lcm@);
                assert(lcm@ * (x / lcm@) == (x / lcm@) * lcm@) by (nonlinear_arith);
                assert((x - y) % lcm@ == 0);
                lemma_dvd_trans(self.n@, lcm@, x - y);
                lemma_dvd_trans(o.n@, lcm@, x - y);
                lemma_dvd_sub(x - self.r@, x - y, self.n@);
                lemma_dvd_sub(x - o.r@, x - y, o.n@);
                assert(x - self.r@ - (x - y) == y - self.r@);
                assert(x - o.r@ - (x - y) == y - o.r@);
                lemma_multiple_above(y - self.r@, self.n@);
                assert(self.has(y) && o.has(y));
            }
        }
        None
    }

    /// The coarsest congruence holding every integer on either lattice — the
    /// join used for a union hull.
    pub fn join(&self, o: &Congruence) -> (c: Congruence)
        requires
            self.wf(),
            o.wf(),
        ensures
            c.wf(),
            forall|x: int| self.has(x) || o.has(x) ==> #[trigger] c.has(x),
            is_gcd3(c.n@, self.n@, o.n@, self.r@ - o.r@),
            forall|x: int| #[trigger] c.has(x) <==> congruent(x, c.n@, self.r@),
    {
        let diff = big_sub(&self.r, &o.r);
        let g1 = big_gcd(&self.n, &o.n);
        let g = big_gcd(&g1, &diff);
        let c = Congruence::new(g, self.r.clone());
        proof {
            assert forall|x: int| self.has(x) || o.has(x) implies #[trigger] c.has(x) by {
                if g@ == 0 {
                    assert(self.n@ == 0 && o.n@ == 0 && diff@ == 0);
                } else {
                    if self.has(x) {
                        if self.n@ > 0 {
                            lemma_dvd_trans(g@, g1@, self.n@);
                            lemma_dvd_trans(g@, self.n@, x - self.r@);
                        } else {
                            lemma_mod_multiples_basic(0, g@);
                        }
                    } else {
                        if o.n@ > 0 {
                            lemma_dvd_trans(g@, g1@, o.n@);
                            lemma_dvd_trans(g@, o.n@, x - o.r@);
                        } else {
                            lemma_mod_multiples_basic(0, g@);
                            assert(x - o.r@ == 0);
                        }
                        lemma_dvd_neg(diff@, g@);
                        lemma_dvd_add(x - o.r@, o.r@ - self.r@, g@);
                        assert(x - o.r@ + (o.r@ - self.r@) == x - self.r@);
                    }
                }
            }
            if g@ > 0 {
                if g1@ > 0 {
                    lemma_dvd_trans(g@, g1@, self.n@);
                    lemma_dvd_trans(g@, g1@, o.n@);
                } else {
                    lemma_mod_multiples_basic(0, g@);
                }
            }
            assert forall|d: int| d > 0 && self.n@ % d == 0 && o.n@ % d == 0 && (self.r@ - o.r@) % d == 0 implies #[trigger] (
            c.n@ % d) == 0 by {
                assert(g1@ % d == 0);
            }
        }
        c
    }
}

// ── Divisibility ─────────────────────────────────────────────────────────────

proof fn lemma_dvd_witness(a: int, m: int)
    requires
        m > 0,
        a % m == 0,
    ensures
        a == (a / m) * m,
{
    lemma_fundamental_div_mod(a, m);
    assert(m * (a / m) == (a / m) * m) by (nonlinear_arith);
}

proof fn lemma_dvd_add(a: int, b: int, m: int)
    requires
        m > 0,
        a % m == 0,
        b % m == 0,
    ensures
        (a + b) % m == 0,
{
    lemma_dvd_witness(a, m);
    lemma_dvd_witness(b, m);
    let k = a / m + b / m;
    assert(a + b == k * m) by (nonlinear_arith)
        requires
            a == (a / m) * m,
            b == (b / m) * m,
            k == a / m + b / m,
    ;
    lemma_mod_multiples_basic(k, m);
}

proof fn lemma_dvd_neg(a: int, m: int)
    requires
        m > 0,
        a % m == 0,
    ensures
        (-a) % m == 0,
{
    lemma_dvd_witness(a, m);
    let k = -(a / m);
    assert(-a == k * m) by (nonlinear_arith)
        requires
            a == (a / m) * m,
            k == -(a / m),
    ;
    lemma_mod_multiples_basic(k, m);
}

proof fn lemma_dvd_sub(a: int, b: int, m: int)
    requires
        m > 0,
        a % m == 0,
        b % m == 0,
    ensures
        (a - b) % m == 0,
{
    lemma_dvd_neg(b, m);
    lemma_dvd_add(a, -b, m);
}

proof fn lemma_dvd_trans(g: int, n: int, a: int)
    requires
        g > 0,
        n > 0,
        n % g == 0,
        a % n == 0,
    ensures
        a % g == 0,
{
    lemma_dvd_witness(n, g);
    lemma_dvd_witness(a, n);
    let k = (a / n) * (n / g);
    assert(a == k * g) by (nonlinear_arith)
        requires
            n == (n / g) * g,
            a == (a / n) * n,
            k == (a / n) * (n / g),
    ;
    lemma_mod_multiples_basic(k, g);
}

/// A common point of two lattices puts their residues on the lattice of any
/// common divisor `g` of the moduli.
proof fn lemma_common_point_residues(n: int, r: int, m: int, t: int, g: int, x: int)
    requires
        n >= 0,
        m >= 0,
        g > 0,
        n % g == 0,
        m % g == 0,
        congruent(x, n, r),
        congruent(x, m, t),
    ensures
        (r - t) % g == 0,
{
    assert((x - r) % g == 0) by {
        if n == 0 {
            lemma_mod_multiples_basic(0, g);
        } else {
            lemma_dvd_trans(g, n, x - r);
        }
    }
    assert((x - t) % g == 0) by {
        if m == 0 {
            lemma_mod_multiples_basic(0, g);
        } else {
            lemma_dvd_trans(g, m, x - t);
        }
    }
    lemma_dvd_sub(x - t, x - r, g);
    assert(x - t - (x - r) == r - t);
}

/// Two positive numbers that divide each other are equal.
proof fn lemma_mutual_dvd(a: int, b: int)
    requires
        a > 0,
        b > 0,
        a % b == 0,
        b % a == 0,
    ensures
        a == b,
{
    lemma_dvd_witness(a, b);
    lemma_dvd_witness(b, a);
    assert(a >= b) by (nonlinear_arith)
        requires
            a == (a / b) * b,
            a > 0,
            b > 0,
    ;
    assert(b >= a) by (nonlinear_arith)
        requires
            b == (b / a) * a,
            a > 0,
            b > 0,
    ;
}

/// A multiple of `n` in `0..n` is zero.
proof fn lemma_small_multiple(k: int, n: int)
    requires
        n > 0,
        0 <= k < n,
        k % n == 0,
    ensures
        k == 0,
{
    vstd::arithmetic::div_mod::lemma_small_mod(k as nat, n as nat);
}

/// A multiple of `n` above `-n` is not negative.
proof fn lemma_multiple_above(k: int, n: int)
    requires
        n > 0,
        k > -n,
        k % n == 0,
    ensures
        k >= 0,
{
    lemma_dvd_witness(k, n);
    assert(k >= 0) by (nonlinear_arith)
        requires
            k == (k / n) * n,
            k > -n,
            n > 0,
    ;
}

proof fn lemma_mod_self(m: int)
    requires
        m > 0,
    ensures
        m % m == 0,
{
    lemma_mod_multiples_basic(1, m);
}

// ── NumAbs — the two facets together ─────────────────────────────────────────

/// The numeric abstraction: an interval and, when known, an integer-lattice
/// congruence. This is the shape every numeric contract form projects onto.
#[derive(Debug)]
pub struct NumAbs {
    pub iv: Interval,
    pub cong: Option<Congruence>,
}

impl NumAbs {
    /// The interval's endpoints and the lattice's modulus are well formed.
    pub open spec fn wf(&self) -> bool {
        self.iv.wf() && (self.cong matches Some(c) ==> c.wf())
    }

    /// Whether the number `q` lies in the abstraction: inside the interval
    /// and, where a lattice is known, a whole number on it.
    pub open spec fn admits(&self, q: (int, int)) -> bool {
        &&& self.iv.contains(q)
        &&& self.cong matches Some(c) ==> is_whole(q) && c.has(q.0 / q.1)
    }

    fn of(iv: Interval) -> (r: NumAbs)
        ensures
            r.iv == iv,
            r.cong is None,
    {
        NumAbs { iv, cong: None }
    }
}

// ── Whole numbers and equal values ───────────────────────────────────────────

proof fn lemma_same_value_lt(p: (int, int), q: (int, int), r: (int, int))
    requires
        frac_wf(p),
        frac_wf(q),
        frac_wf(r),
        same_value(p, q),
    ensures
        value_lt(p, r) <==> value_lt(q, r),
        value_lt(r, p) <==> value_lt(r, q),
{
    assert(value_lt(p, r) <==> value_lt(q, r)) by (nonlinear_arith)
        requires
            p.0 * q.1 == q.0 * p.1,
            p.1 > 0,
            q.1 > 0,
            r.1 > 0,
            value_lt(p, r) == (p.0 * r.1 < r.0 * p.1),
            value_lt(q, r) == (q.0 * r.1 < r.0 * q.1),
    {
        assert(p.0 * r.1 * q.1 == q.0 * r.1 * p.1);
    }
    assert(value_lt(r, p) <==> value_lt(r, q)) by (nonlinear_arith)
        requires
            p.0 * q.1 == q.0 * p.1,
            p.1 > 0,
            q.1 > 0,
            r.1 > 0,
            value_lt(r, p) == (r.0 * p.1 < p.0 * r.1),
            value_lt(r, q) == (r.0 * q.1 < q.0 * r.1),
    {
        assert(p.0 * r.1 * q.1 == q.0 * r.1 * p.1);
    }
}

/// A whole number compares with integers by its integer value, and equals it.
proof fn lemma_whole_cmp(p: (int, int), x: int)
    requires
        frac_wf(p),
        is_whole(p),
    ensures
        value_lt(p, (x, 1)) <==> p.0 / p.1 < x,
        value_lt((x, 1), p) <==> x < p.0 / p.1,
        same_value(p, (p.0 / p.1, 1)),
{
    lemma_dvd_witness(p.0, p.1);
    let k = p.0 / p.1;
    assert(value_lt(p, (x, 1)) <==> k < x) by (nonlinear_arith)
        requires
            p.0 == k * p.1,
            p.1 > 0,
            value_lt(p, (x, 1)) == (p.0 * 1 < x * p.1),
    ;
    assert(value_lt((x, 1), p) <==> x < k) by (nonlinear_arith)
        requires
            p.0 == k * p.1,
            p.1 > 0,
            value_lt((x, 1), p) == (x * p.1 < p.0 * 1),
    ;
    assert(p.0 * 1 == k * p.1) by (nonlinear_arith)
        requires
            p.0 == k * p.1,
    ;
}

/// A number equal in value to a whole number is whole, with the same value.
proof fn lemma_whole_same_value(p: (int, int), q: (int, int))
    requires
        frac_wf(p),
        frac_wf(q),
        same_value(p, q),
        is_whole(p),
    ensures
        is_whole(q),
        q.0 / q.1 == p.0 / p.1,
{
    lemma_dvd_witness(p.0, p.1);
    let k = p.0 / p.1;
    assert(q.0 == q.1 * k) by (nonlinear_arith)
        requires
            p.0 == k * p.1,
            p.0 * q.1 == q.0 * p.1,
            p.1 > 0,
    {
        assert(k * p.1 * q.1 == q.0 * p.1);
        assert(p.1 * (k * q.1) == p.1 * q.0);
    }
    lemma_mod_multiples_basic(k, q.1);
    assert(k * q.1 == q.1 * k) by (nonlinear_arith);
    lemma_div_multiples_vanish(k, q.1);
}

proof fn lemma_pow_base_mono(a: int, b: int, k: nat)
    requires
        0 < a <= b,
    ensures
        0 < pow(a, k) <= pow(b, k),
    decreases k,
{
    reveal(pow);
    if k > 0 {
        lemma_pow_base_mono(a, b, (k - 1) as nat);
        let pa = pow(a, (k - 1) as nat);
        let pb = pow(b, (k - 1) as nat);
        assert(0 < a * pa <= b * pb) by (nonlinear_arith)
            requires
                0 < a <= b,
                0 < pa <= pb,
        ;
    }
}

/// The terms `b·rᵏ` of a geometric sequence with ratio above one stay on the
/// side of `b` away from zero.
proof fn lemma_geo_side(b: (int, int), r: (int, int), k: nat)
    requires
        frac_wf(b),
        frac_wf(r),
        value_lt((1, 1), r),
    ensures
        frac_wf(frac_mul(b, frac_pow(r, k))),
        value_lt((0, 1), b) ==> !value_lt(frac_mul(b, frac_pow(r, k)), b),
        !value_lt((0, 1), b) ==> !value_lt(b, frac_mul(b, frac_pow(r, k))),
{
    assert(r.0 > r.1) by (nonlinear_arith)
        requires
            value_lt((1, 1), r) == (1 * r.1 < r.0 * 1),
            value_lt((1, 1), r),
    ;
    lemma_pow_base_mono(r.1, r.0, k);
    let p0 = pow(r.0, k);
    let p1 = pow(r.1, k);
    let t = frac_mul(b, frac_pow(r, k));
    assert(t.1 > 0) by (nonlinear_arith)
        requires
            t.1 == b.1 * p1,
            b.1 > 0,
            p1 > 0,
    ;
    if value_lt((0, 1), b) {
        assert(b.0 > 0) by (nonlinear_arith)
            requires
                value_lt((0, 1), b) == (0 * b.1 < b.0 * 1),
                value_lt((0, 1), b),
        ;
        assert(!value_lt(t, b)) by (nonlinear_arith)
            requires
                t == (b.0 * p0, b.1 * p1),
                value_lt(t, b) == (t.0 * b.1 < b.0 * t.1),
                b.0 > 0,
                b.1 > 0,
                0 < p1 <= p0,
        {
            assert(b.0 * b.1 * p1 <= b.0 * b.1 * p0);
        }
    } else {
        assert(b.0 <= 0) by (nonlinear_arith)
            requires
                value_lt((0, 1), b) == (0 * b.1 < b.0 * 1),
                !value_lt((0, 1), b),
        ;
        assert(!value_lt(b, t)) by (nonlinear_arith)
            requires
                t == (b.0 * p0, b.1 * p1),
                value_lt(b, t) == (b.0 * t.1 < t.0 * b.1),
                b.0 <= 0,
                b.1 > 0,
                0 < p1 <= p0,
        {
            assert(b.0 * b.1 <= 0);
            assert(b.0 * b.1 * p0 <= b.0 * b.1 * p1);
        }
    }
}

// ── Reading contracts ────────────────────────────────────────────────────────

/// A numeric contract denoting exactly one value — `Equals(v)` or the
/// `Range(v, v)` that normalizes to it: the value, which the contract admits.
/// The one value an `Equals` of a number, or a `Range` whose ends are the
/// same number, denotes.
pub open spec fn point_of(c: Contract) -> Option<(int, int)> {
    match c {
        Contract::Equals(v) => match v.data_spec() {
            ValueData::Number(n) => Some(n@),
            _ => None,
        },
        Contract::Range(l, h) => if same_value(l@, h@) {
            Some(l@)
        } else {
            None
        },
        _ => None,
    }
}

fn as_point(c: &Contract) -> (r: Option<Rational>)
    ensures
        r is None <==> point_of(*c) is None,
        r matches Some(p) ==> point_of(*c) == Some(p@),
        r matches Some(p) ==> p.wf() && forall|q: (int, int)| frac_wf(q) && same_value(q, p@) ==> #[trigger] c.admits_number(q),
{
    match c {
        Contract::Equals(v) => match v.as_number() {
            Some(n) => Some(n.clone()),
            None => None,
        },
        Contract::Range(l, h) => {
            if l.eq_value(h) {
                let p = l.clone();
                proof {
                    assert forall|q: (int, int)| frac_wf(q) && same_value(q, p@) implies #[trigger] c.admits_number(q) by {
                        crate::rational::lemma_same_value_transitive(h@, l@, q);
                    }
                }
                Some(p)
            } else {
                None
            }
        },
        _ => None,
    }
}

/// How many lattice steps the search takes: the modulus's least significant
/// 32-bit digit, at least one.
pub open spec fn lattice_steps(n: int) -> int {
    let d = (if n < 0 { -n } else { n }) % 0x1_0000_0000;
    if n == 0 || d < 1 { 1 } else { d }
}

/// The nearest lattice member strictly above (`up`) or below `q`, when `q` is
/// an integer, searched over at most the modulus's low 32-bit digit of steps.
fn next_on_lattice(q: &Rational, c: &Congruence, up: bool) -> (r: Option<Rational>)
    requires
        c.n@ > 0,
        q.wf(),
    ensures
        r is Some ==> is_whole(q@),
        r matches Some(v) ==> v@.1 == 1 && c.has(v@.0) && if up {
            q@.0 / q@.1 < v@.0 <= q@.0 / q@.1 + lattice_steps(c.n@)
        } else {
            q@.0 / q@.1 - lattice_steps(c.n@) <= v@.0 < q@.0 / q@.1
        },
        r is None && is_whole(q@) && up ==> forall|x: int|
            q@.0 / q@.1 < x <= q@.0 / q@.1 + lattice_steps(c.n@) ==> !#[trigger] c.has(x),
        r is None && is_whole(q@) && !up ==> forall|x: int|
            q@.0 / q@.1 - lattice_steps(c.n@) <= x < q@.0 / q@.1 ==> !#[trigger] c.has(x),
        r matches Some(v) ==> {
            &&& v.wf()
            &&& up ==> forall|x: int| #[trigger] c.has(x) && value_lt(q@, (x, 1)) ==> !value_lt((x, 1), v@)
            &&& !up ==> forall|x: int| #[trigger] c.has(x) && value_lt((x, 1), q@) ==> !value_lt(v@, (x, 1))
        },
{
    if !q.is_integer() {
        return None;
    }
    let qi = big_div_floor(q.numer(), q.denom());
    let step = big_from_i64(if up { 1 } else { -1 });
    let mut v = big_add(&qi, &step);
    let limit: u32 = match big_low_u32_digit(&c.n) {
        Some(d) => if d < 1 {
            1
        } else {
            d
        },
        None => 1,
    };
    let mut i: u32 = 0;
    while i < limit
        invariant
            c.n@ > 0,
            q.wf(),
            is_whole(q@),
            qi@ == q@.0 / q@.1,
            step@ == if up { 1int } else { -1int },
            limit == lattice_steps(c.n@),
            i <= limit,
            up ==> v@ == qi@ + 1 + i && forall|x: int| qi@ < x < v@ ==> !#[trigger] c.has(x),
            !up ==> v@ == qi@ - 1 - i && forall|x: int| v@ < x < qi@ ==> !#[trigger] c.has(x),
        decreases limit - i,
    {
        if is_zero(&big_mod_floor(&big_sub(&v, &c.r), &c.n)) {
            let r = Rational::from_integer(v);
            proof {
                assert forall|x: int| #[trigger] c.has(x) && value_lt(q@, (x, 1)) implies !value_lt((x, 1), r@) by {
                    lemma_whole_cmp(q@, x);
                }
                assert forall|x: int| #[trigger] c.has(x) && value_lt((x, 1), q@) implies !value_lt(r@, (x, 1)) by {
                    lemma_whole_cmp(q@, x);
                }
            }
            return Some(r);
        }
        v = big_add(&v, &step);
        i = i + 1;
    }
    None
}

/// **Grid alignment.** An exclusive bound on an integer lattice snaps to the
/// next lattice point and becomes inclusive: over the integers, `> -1` *is*
/// `≥ 0`.
fn snap_to_lattice(a: NumAbs) -> (r: NumAbs)
    requires
        a.wf(),
    ensures
        r.wf(),
        forall|q: (int, int)| frac_wf(q) && a.admits(q) ==> #[trigger] r.admits(q),
        forall|q: (int, int)| frac_wf(q) ==> (#[trigger] r.admits(q) <==> a.admits(q)),
        same_cong(r.cong, a.cong),
{
    let c = match &a.cong {
        Some(c) => c.clone(),
        None => {
            return a;
        },
    };
    if is_zero(&c.n) {
        return a;
    }
    let NumAbs { iv, cong } = a;
    let Interval { low, high } = iv;
    let low_next = match &low {
        Bound::Excl(q) => next_on_lattice(q, &c, true),
        _ => None,
    };
    let high_next = match &high {
        Bound::Excl(q) => next_on_lattice(q, &c, false),
        _ => None,
    };
    let new_low = match low_next {
        Some(next) => Bound::Incl(next),
        None => low,
    };
    let new_high = match high_next {
        Some(prev) => Bound::Incl(prev),
        None => high,
    };
    let r = NumAbs { iv: Interval { low: new_low, high: new_high }, cong };
    proof {
        assert forall|q: (int, int)| frac_wf(q) && a.admits(q) implies #[trigger] r.admits(q) by {
            let x = q.0 / q.1;
            assert(c.has(x));
            lemma_whole_cmp(q, x);
            if let Bound::Excl(lq) = low {
                if let Some(next) = low_next {
                    lemma_same_value_lt(q, (x, 1), lq@);
                    lemma_same_value_lt(q, (x, 1), next@);
                }
            }
            if let Bound::Excl(hq) = high {
                if let Some(prev) = high_next {
                    lemma_same_value_lt(q, (x, 1), hq@);
                    lemma_same_value_lt(q, (x, 1), prev@);
                }
            }
        }
        assert forall|q: (int, int)| frac_wf(q) && r.admits(q) implies #[trigger] a.admits(q) by {
            if let Bound::Excl(lq) = low {
                if let Some(next) = low_next {
                    lemma_whole_cmp(lq@, next@.0);
                    assert(value_lt(lq@, (next@.0, 1int)));
                    assert(next@ == (next@.0, 1int));
                    lemma_lt_le_trans(lq@, next@, q);
                }
            }
            if let Bound::Excl(hq) = high {
                if let Some(prev) = high_next {
                    lemma_whole_cmp(hq@, prev@.0);
                    assert(value_lt((prev@.0, 1int), hq@));
                    assert(prev@ == (prev@.0, 1int));
                    lemma_le_lt_trans(q, prev@, hq@);
                }
            }
        }
    }
    r
}

/// Two optional lattices are the same: absent both, or with equal modulus
/// and residue.
pub open spec fn same_cong(a: Option<Congruence>, b: Option<Congruence>) -> bool {
    match (a, b) {
        (None, None) => true,
        (Some(p), Some(q)) => p.n@ == q.n@ && p.r@ == q.r@,
        _ => false,
    }
}

/// A numeric form whose abstraction is exact: a number kind, a bound, an
/// equality, or a lattice.
pub open spec fn read_exactly(c: Contract) -> bool {
    match c {
        Contract::Kind(_) => true,
        Contract::Range(_, _) => true,
        Contract::Greater(_) => true,
        Contract::GreaterEq(_) => true,
        Contract::Less(_) => true,
        Contract::LessEq(_) => true,
        Contract::Equals(_) => true,
        Contract::Mod { .. } => true,
        _ => false,
    }
}

/// `z` is the meet of the abstractions `x` and `y`: the intersection of
/// their intervals, and the meet of their lattices (one alone where only one
/// is known).
pub open spec fn meet_of(x: NumAbs, y: NumAbs, z: NumAbs) -> bool {
    &&& forall|q: (int, int)| frac_wf(q) ==> (#[trigger] z.iv.contains(q) <==> x.iv.contains(q) && y.iv.contains(q))
    &&& match (x.cong, y.cong) {
        (Some(p), Some(o)) => p.meet_result(&o, z.cong),
        (Some(p), None) => same_cong(z.cong, Some(p)),
        (None, Some(o)) => same_cong(z.cong, Some(o)),
        (None, None) => z.cong is None,
    }
}

/// `z` is the hull of the abstractions `x` and `y`: the smallest interval
/// around both, and, where both lattices are known, the lattice modulo the
/// `gcd` of both moduli and the residues' difference.
pub open spec fn hull_of(x: NumAbs, y: NumAbs, z: NumAbs) -> bool {
    &&& forall|q: (int, int)|
        frac_wf(q) ==> (#[trigger] z.iv.contains(q) <==> (above(x.iv.low, q) || above(y.iv.low, q)) && (under(
            x.iv.high,
            q,
        ) || under(y.iv.high, q)))
    &&& match (x.cong, y.cong) {
        (Some(p), Some(o)) => z.cong matches Some(c) && c.wf() && is_gcd3(c.n@, p.n@, o.n@, p.r@ - o.r@) && forall|w: int|
            #[trigger] c.has(w) <==> congruent(w, c.n@, p.r@),
        _ => z.cong is None,
    }
}

/// `z` is the abstraction `x` with `b` excluded: the same lattice, and the
/// interval narrowed as [`excluded`] says (exclusive bounds then snapped onto
/// the lattice, which admits the same numbers).
pub open spec fn diff_of(x: NumAbs, b: Contract, z: NumAbs) -> bool {
    &&& same_cong(z.cong, x.cong)
    &&& forall|q: (int, int)|
        frac_wf(q) ==> (#[trigger] z.admits(q) <==> excluded(x.iv, b, q) && (x.cong matches Some(c) ==> is_whole(q)
            && c.has(q.0 / q.1)))
}

/// `z` is the numeric abstraction of `c`, as [`num_abs`] computes it: sound
/// for every form, exact for the forms read exactly, a half-line for a
/// geometric sequence, and for a composite form the meet, hull or exclusion
/// of the abstractions of its numeric operands.
pub open spec fn abs_of(c: Contract, z: NumAbs) -> bool
    decreases c,
{
    &&& z.wf()
    &&& forall|q: (int, int)| frac_wf(q) && c.admits_number(q) ==> #[trigger] z.admits(q)
    &&& read_exactly(c) ==> forall|q: (int, int)| frac_wf(q) ==> (#[trigger] z.admits(q) <==> c.admits_number(q))
    &&& (c matches Contract::Geo { b, .. } ==> z.cong is None && forall|q: (int, int)|
        frac_wf(q) ==> (#[trigger] z.admits(q) <==> if value_lt((0, 1), b@) {
            !value_lt(q, b@)
        } else {
            !value_lt(b@, q)
        }))
    &&& match c {
        Contract::Intersection(a, b) => if a.numeric_form() && b.numeric_form() {
            exists|x: NumAbs, y: NumAbs| #![trigger meet_of(x, y, z)] abs_of(*a, x) && abs_of(*b, y) && meet_of(x, y, z)
        } else if a.numeric_form() {
            abs_of(*a, z)
        } else {
            abs_of(*b, z)
        },
        Contract::Union(a, b) => exists|x: NumAbs, y: NumAbs| #![trigger hull_of(x, y, z)] abs_of(*a, x) && abs_of(*b, y) && hull_of(x, y, z),
        Contract::Difference(a, b) => exists|x: NumAbs| #![trigger diff_of(x, *b, z)] abs_of(*a, x) && diff_of(x, *b, z),
        _ => true,
    }
}

proof fn lemma_abs_of_difference(c: Contract, a: Contract, b: Contract, x: NumAbs, z: NumAbs)
    requires
        c == Contract::Difference(Box::new(a), Box::new(b)),
        abs_of(a, x),
        diff_of(x, b, z),
        z.wf(),
        forall|q: (int, int)| frac_wf(q) && c.admits_number(q) ==> #[trigger] z.admits(q),
    ensures
        abs_of(c, z),
{
    reveal_with_fuel(abs_of, 2);
    assert(abs_of(a, x) && diff_of(x, b, z));
}

/// The **widening** conversion: the interval/congruence pair holding every
/// number the contract admits, returned exactly when the contract is built
/// from numeric forms (so that it denotes numbers alone). Sound for an image
/// over-approximation only: `Mod`/`Geo` read as unbounded on a side.
pub fn num_abs(c: &Contract) -> (r: Option<NumAbs>)
    requires
        c.numeric_wf(),
    ensures
        r is Some <==> c.numeric_form(),
        r matches Some(x) ==> abs_of(*c, x),
        r matches Some(x) ==> x.wf() && forall|q: (int, int)| frac_wf(q) && c.admits_number(q) ==> #[trigger] x.admits(q),
        r matches Some(x) ==> (read_exactly(*c) ==> forall|q: (int, int)| frac_wf(q) ==> (#[trigger] x.admits(q) <==> c.admits_number(q))),
        r matches Some(x) ==> (c matches Contract::Geo { b, .. } ==> x.cong is None && forall|q: (int, int)|
            frac_wf(q) ==> (#[trigger] x.admits(q) <==> if value_lt((0, 1), b@) {
                !value_lt(q, b@)
            } else {
                !value_lt(b@, q)
            })),
    decreases c,
{
    match c {
        Contract::Kind(k) => {
            if *k == Kind::Number {
                Some(NumAbs::of(Interval::unbounded()))
            } else {
                None
            }
        },
        Contract::Range(l, h) => Some(NumAbs::of(Interval { low: Bound::Incl(l.clone()), high: Bound::Incl(h.clone()) })),
        Contract::Greater(m) => Some(NumAbs::of(Interval { low: Bound::Excl(m.clone()), high: Bound::Unbounded })),
        Contract::GreaterEq(m) => Some(NumAbs::of(Interval { low: Bound::Incl(m.clone()), high: Bound::Unbounded })),
        Contract::Less(m) => Some(NumAbs::of(Interval { low: Bound::Unbounded, high: Bound::Excl(m.clone()) })),
        Contract::LessEq(m) => Some(NumAbs::of(Interval { low: Bound::Unbounded, high: Bound::Incl(m.clone()) })),
        Contract::Equals(v) => match v.as_number() {
            None => None,
            Some(n) => {
                let q = n.clone();
                let cong = if q.is_integer() {
                    Some(Congruence::exact(big_div_floor(q.numer(), q.denom())))
                } else {
                    None
                };
                let ghost p = q@;
                let x = NumAbs { iv: Interval::point(q), cong };
                proof {
                    assert forall|w: (int, int)| frac_wf(w) implies (#[trigger] x.admits(w) <==> c.admits_number(w)) by {
                        if x.cong is Some && same_value(p, w) {
                            lemma_whole_same_value(p, w);
                        }
                    }
                }
                Some(x)
            },
        },
        // The lattice: unbounded extent, exact congruence.
        Contract::Mod { n, r } => Some(
            NumAbs { iv: Interval::unbounded(), cong: Some(Congruence::new(n.clone(), r.clone())) },
        ),
        // `b, b·r, b·r², …` with `r > 1` — bounded on the side `b` sits.
        Contract::Geo { b, r } => {
            let zero = Rational::from(0);
            let positive = zero.lt(b);
            let iv = if positive {
                Interval { low: Bound::Incl(b.clone()), high: Bound::Unbounded }
            } else {
                Interval { low: Bound::Unbounded, high: Bound::Incl(b.clone()) }
            };
            let x = NumAbs::of(iv);
            proof {
                assert forall|w: (int, int)| frac_wf(w) && c.admits_number(w) implies #[trigger] x.admits(w) by {
                    let k = choose|k: nat| same_value(w, #[trigger] frac_mul(b@, frac_pow(r@, k)));
                    lemma_geo_side(b@, r@, k);
                    lemma_same_value_lt(w, frac_mul(b@, frac_pow(r@, k)), b@);
                }
            }
            Some(x)
        },
        Contract::Intersection(a, b) => {
            let x = num_abs(a);
            let y = num_abs(b);
            match (x, y) {
                (Some(x), Some(y)) => {
                    let cong = match (&x.cong, &y.cong) {
                        (Some(p), Some(q)) => p.meet(q),
                        (Some(p), None) => Some(p.clone()),
                        (None, Some(q)) => Some(q.clone()),
                        (None, None) => None,
                    };
                    let ghost (gx, gy) = (x, y);
                    let z = NumAbs { iv: meet(x.iv, y.iv), cong };
                    proof {
                        assert forall|w: (int, int)| frac_wf(w) && c.admits_number(w) implies #[trigger] z.admits(w) by {
                            assert(gx.admits(w) && gy.admits(w));
                        }
                        assert(meet_of(gx, gy, z));
                        assert(abs_of(**a, gx) && abs_of(**b, gy));
                        assert(abs_of(*c, z));
                    }
                    Some(z)
                },
                // `⟦A ∩ B⟧ ⊆ ⟦A⟧`, so one side alone already contains the meet.
                (Some(x), None) => Some(x),
                (None, Some(y)) => Some(y),
                (None, None) => None,
            }
        },
        Contract::Union(a, b) => {
            let x = match num_abs(a) {
                Some(x) => x,
                None => {
                    return None;
                },
            };
            let y = match num_abs(b) {
                Some(y) => y,
                None => {
                    return None;
                },
            };
            let cong = match (&x.cong, &y.cong) {
                (Some(p), Some(q)) => Some(p.join(q)),
                _ => None,
            };
            let ghost (gx, gy) = (x, y);
            let z = NumAbs { iv: hull(x.iv, y.iv), cong };
            proof {
                assert(hull_of(gx, gy, z));
                assert(abs_of(**a, gx) && abs_of(**b, gy));
            }
            proof {
                assert forall|w: (int, int)| frac_wf(w) && c.admits_number(w) implies #[trigger] z.admits(w) by {
                    if a.admits_number(w) {
                        assert(gx.admits(w));
                    } else {
                        assert(gy.admits(w));
                    }
                }
            }
            Some(z)
        },
        Contract::Difference(a, b) => {
            let x = match num_abs(a) {
                Some(x) => x,
                None => {
                    return None;
                },
            };
            let ghost gx = x;
            let NumAbs { iv, cong } = x;
            let excluded = exclude(iv, b);
            let y = NumAbs { iv: excluded, cong };
            proof {
                assert forall|w: (int, int)| frac_wf(w) && c.admits_number(w) implies #[trigger] y.admits(w) by {
                    assert(gx.admits(w));
                }
            }
            let z = snap_to_lattice(y);
            proof {
                assert(diff_of(gx, **b, z));
                assert(abs_of(**a, gx));
                assert(exists|x: NumAbs| abs_of(**a, x) && diff_of(x, **b, z));
                assert forall|w: (int, int)| frac_wf(w) && c.admits_number(w) implies #[trigger] z.admits(w) by {
                    assert(y.admits(w));
                }
                assert(z.wf());
                lemma_abs_of_difference(*c, **a, **b, gx, z);
            }
            Some(z)
        },
        _ => None,
    }
}

/// Narrow an interval by what the excluded contract `b` removes: a singleton
/// exclusion sitting on an inclusive endpoint makes it exclusive
/// (`[0,∞) ∖ {0}` is `(0,∞)`), and a half-line exclusion meets its
/// complement. Every number of the interval that `b` does not admit stays.
/// Whether the number `q` stays in `iv` once `b` is excluded: a point of `b`
/// on an inclusive endpoint leaves, and a half-line `b` cuts its complement.
pub open spec fn excluded(iv: Interval, b: Contract, q: (int, int)) -> bool {
    &&& iv.contains(q)
    &&& !(point_of(b) matches Some(p) && same_value(q, p) && ((iv.low matches Bound::Incl(l) && same_value(l@, p))
        || (iv.high matches Bound::Incl(h) && same_value(h@, p))))
    &&& match b {
        Contract::LessEq(c) => value_lt(c@, q),
        Contract::Less(c) => !value_lt(q, c@),
        Contract::GreaterEq(c) => value_lt(q, c@),
        Contract::Greater(c) => !value_lt(c@, q),
        _ => true,
    }
}

fn exclude(iv: Interval, b: &Contract) -> (r: Interval)
    requires
        iv.wf(),
    ensures
        r.wf(),
        forall|q: (int, int)| frac_wf(q) && iv.contains(q) && !b.admits_number(q) ==> #[trigger] r.contains(q),
        forall|q: (int, int)| frac_wf(q) ==> (#[trigger] r.contains(q) <==> excluded(iv, *b, q)),
{
    let Interval { low, high } = iv;
    let ghost old_low = low;
    let ghost old_high = high;
    let mut low = low;
    let mut high = high;
    match as_point(b) {
        Some(p) => {
            let on_low = match &low {
                Bound::Incl(l) => l.eq_value(&p),
                _ => false,
            };
            if on_low {
                low = Bound::Excl(p.clone());
            }
            let on_high = match &high {
                Bound::Incl(h) => h.eq_value(&p),
                _ => false,
            };
            let ghost pv = p@;
            if on_high {
                high = Bound::Excl(p);
            }
            proof {
                assert forall|q: (int, int)| frac_wf(q) implies (#[trigger] above(low, q) && under(high, q) <==> above(
                    old_low,
                    q,
                ) && under(old_high, q) && !(same_value(q, pv) && ((old_low matches Bound::Incl(l) && same_value(l@, pv))
                    || (old_high matches Bound::Incl(h) && same_value(h@, pv))))) by {
                    if let Bound::Incl(l) = old_low {
                        if same_value(l@, pv) {
                            lemma_same_value_lt(l@, pv, q);
                        }
                        if same_value(l@, pv) && same_value(q, pv) {
                            crate::rational::lemma_same_value_transitive(q, pv, l@);
                        }
                        if same_value(l@, pv) && same_value(q, l@) {
                            crate::rational::lemma_same_value_transitive(q, l@, pv);
                        }
                    }
                    if let Bound::Incl(h) = old_high {
                        if same_value(h@, pv) {
                            lemma_same_value_lt(h@, pv, q);
                        }
                        if same_value(h@, pv) && same_value(q, pv) {
                            crate::rational::lemma_same_value_transitive(q, pv, h@);
                        }
                        if same_value(h@, pv) && same_value(q, h@) {
                            crate::rational::lemma_same_value_transitive(q, h@, pv);
                        }
                    }
                }
                assert forall|q: (int, int)| frac_wf(q) && above(old_low, q) && under(old_high, q)
                    && !b.admits_number(q) implies #[trigger] above(low, q) && under(high, q) by {
                    if let Bound::Incl(l) = old_low {
                        if on_low && same_value(q, l@) {
                            crate::rational::lemma_same_value_transitive(q, l@, p@);
                        }
                        if on_low {
                            lemma_same_value_lt(l@, p@, q);
                        }
                    }
                    if let Bound::Incl(h) = old_high {
                        if on_high && same_value(q, h@) {
                            crate::rational::lemma_same_value_transitive(q, h@, p@);
                        }
                        if on_high {
                            lemma_same_value_lt(h@, p@, q);
                        }
                    }
                }
            }
        },
        None => {},
    }
    assert(forall|q: (int, int)| frac_wf(q) && above(old_low, q) && under(old_high, q) && !b.admits_number(q)
        ==> #[trigger] above(low, q) && under(high, q));
    assert(forall|q: (int, int)| frac_wf(q) ==> (#[trigger] above(low, q) && under(high, q) <==> above(old_low, q)
        && under(old_high, q) && !(point_of(*b) matches Some(pp) && same_value(q, pp) && ((old_low matches Bound::Incl(l)
        && same_value(l@, pp)) || (old_high matches Bound::Incl(h) && same_value(h@, pp))))));
    let narrowed = Interval { low, high };
    let complement: Option<Interval> = match b {
        Contract::LessEq(c) => Some(Interval { low: Bound::Excl(c.clone()), high: Bound::Unbounded }),
        Contract::Less(c) => Some(Interval { low: Bound::Incl(c.clone()), high: Bound::Unbounded }),
        Contract::GreaterEq(c) => Some(Interval { low: Bound::Unbounded, high: Bound::Excl(c.clone()) }),
        Contract::Greater(c) => Some(Interval { low: Bound::Unbounded, high: Bound::Incl(c.clone()) }),
        _ => None,
    };
    let ghost kept = narrowed;
    match complement {
        Some(comp) => {
            let ghost half = comp;
            proof {
                assert forall|q: (int, int)| frac_wf(q) && !b.admits_number(q) implies #[trigger] half.contains(q) by {}
            }
            let r = meet(narrowed, comp);
            proof {
                assert forall|q: (int, int)| frac_wf(q) implies (#[trigger] r.contains(q) <==> excluded(iv, *b, q)) by {
                    assert(r.contains(q) <==> kept.contains(q) && half.contains(q));
                }
                assert forall|q: (int, int)| frac_wf(q) && iv.contains(q) && !b.admits_number(q) implies #[trigger] r.contains(
                    q,
                ) by {
                    assert(above(kept.low, q) && under(kept.high, q));
                    assert(half.contains(q));
                }
            }
            r
        },
        None => narrowed,
    }
}

// ── Transfer rules ───────────────────────────────────────────────────────────

/// The sum of two fractions.
pub open spec fn frac_add(p: (int, int), q: (int, int)) -> (int, int) {
    (p.0 * q.1 + q.0 * p.1, p.1 * q.1)
}

/// The difference of two fractions.
pub open spec fn frac_sub(p: (int, int), q: (int, int)) -> (int, int) {
    (p.0 * q.1 - q.0 * p.1, p.1 * q.1)
}

/// The negation of a fraction.
pub open spec fn frac_neg(p: (int, int)) -> (int, int) {
    (-p.0, p.1)
}

/// `r` combines the endpoints `a` and `b` by `op`: unbounded when either is,
/// otherwise at `op` of their values, inclusive only when both are.
pub open spec fn combined(r: Bound, a: Bound, b: Bound, op: spec_fn((int, int), (int, int)) -> (int, int)) -> bool {
    match (a, b) {
        (Bound::Incl(p), Bound::Incl(q)) => r matches Bound::Incl(v) && same_value(v@, op(p@, q@)),
        (Bound::Incl(p), Bound::Excl(q)) => r matches Bound::Excl(v) && same_value(v@, op(p@, q@)),
        (Bound::Excl(p), Bound::Incl(q)) => r matches Bound::Excl(v) && same_value(v@, op(p@, q@)),
        (Bound::Excl(p), Bound::Excl(q)) => r matches Bound::Excl(v) && same_value(v@, op(p@, q@)),
        _ => r is Unbounded,
    }
}

/// `r` is `b` mirrored through zero.
pub open spec fn flipped(r: Bound, b: Bound) -> bool {
    match b {
        Bound::Incl(p) => r matches Bound::Incl(v) && v@ == frac_neg(p@),
        Bound::Excl(p) => r matches Bound::Excl(v) && v@ == frac_neg(p@),
        Bound::Unbounded => r is Unbounded,
    }
}

proof fn lemma_frac_sub_is_add_neg(p: (int, int), q: (int, int))
    ensures
        frac_sub(p, q) == frac_add(p, frac_neg(q)),
{
    assert((-q.0) * p.1 == -(q.0 * p.1)) by (nonlinear_arith);
}

proof fn lemma_add_wf(p: (int, int), q: (int, int))
    requires
        frac_wf(p),
        frac_wf(q),
    ensures
        frac_wf(frac_add(p, q)),
{
    assert(p.1 * q.1 > 0) by (nonlinear_arith)
        requires
            p.1 > 0,
            q.1 > 0,
    ;
}

/// Sums are monotone: `a ≤ p` and `c ≤ q` give `a + c ≤ p + q`, strictly
/// when either step is strict.
proof fn lemma_add_mono(a: (int, int), c: (int, int), p: (int, int), q: (int, int))
    requires
        frac_wf(a),
        frac_wf(c),
        frac_wf(p),
        frac_wf(q),
        !value_lt(p, a),
        !value_lt(q, c),
    ensures
        !value_lt(frac_add(p, q), frac_add(a, c)),
        value_lt(a, p) || value_lt(c, q) ==> value_lt(frac_add(a, c), frac_add(p, q)),
{
    let s = frac_add(a, c);
    let t = frac_add(p, q);
    assert(p.0 * a.1 * (q.1 * c.1) >= a.0 * p.1 * (q.1 * c.1)) by (nonlinear_arith)
        requires
            p.0 * a.1 >= a.0 * p.1,
            q.1 > 0,
            c.1 > 0,
    ;
    assert(q.0 * c.1 * (p.1 * a.1) >= c.0 * q.1 * (p.1 * a.1)) by (nonlinear_arith)
        requires
            q.0 * c.1 >= c.0 * q.1,
            p.1 > 0,
            a.1 > 0,
    ;
    lemma_cross_sum(p.0, q.1, q.0, p.1, a.1, c.1);
    lemma_cross_sum(a.0, c.1, c.0, a.1, p.1, q.1);
    if value_lt(a, p) {
        assert(p.0 * a.1 * (q.1 * c.1) > a.0 * p.1 * (q.1 * c.1)) by (nonlinear_arith)
            requires
                p.0 * a.1 > a.0 * p.1,
                q.1 > 0,
                c.1 > 0,
        ;
    }
    if value_lt(c, q) {
        assert(q.0 * c.1 * (p.1 * a.1) > c.0 * q.1 * (p.1 * a.1)) by (nonlinear_arith)
            requires
                q.0 * c.1 > c.0 * q.1,
                p.1 > 0,
                a.1 > 0,
        ;
    }
}

/// `(x·y + z·w)·(u·v)`, regrouped so each summand pairs with its partner.
proof fn lemma_cross_sum(x: int, y: int, z: int, w: int, u: int, v: int)
    ensures
        (x * y + z * w) * (u * v) == x * u * (y * v) + z * v * (w * u),
{
    assert((x * y + z * w) * (u * v) == (x * y) * (u * v) + (z * w) * (u * v)) by (nonlinear_arith);
    assert((x * y) * (u * v) == x * u * (y * v)) by (nonlinear_arith);
    assert((z * w) * (u * v) == z * v * (w * u)) by (nonlinear_arith);
}

/// Negation reverses the order.
proof fn lemma_neg_antitone(p: (int, int), q: (int, int))
    ensures
        value_lt(frac_neg(p), frac_neg(q)) <==> value_lt(q, p),
{
    assert(value_lt(frac_neg(p), frac_neg(q)) <==> value_lt(q, p)) by (nonlinear_arith)
        requires
            value_lt(frac_neg(p), frac_neg(q)) == ((-p.0) * q.1 < (-q.0) * p.1),
            value_lt(q, p) == (q.0 * p.1 < p.0 * q.1),
    ;
}

/// The sum of two whole numbers is whole, with the sum of their values.
proof fn lemma_whole_add(p: (int, int), q: (int, int))
    requires
        frac_wf(p),
        frac_wf(q),
        is_whole(p),
        is_whole(q),
    ensures
        is_whole(frac_add(p, q)),
        frac_add(p, q).0 / frac_add(p, q).1 == p.0 / p.1 + q.0 / q.1,
{
    lemma_dvd_witness(p.0, p.1);
    lemma_dvd_witness(q.0, q.1);
    let (k, m) = (p.0 / p.1, q.0 / q.1);
    let t = frac_add(p, q);
    assert(t.1 > 0 && t.0 == (k + m) * t.1) by (nonlinear_arith)
        requires
            p.0 == k * p.1,
            q.0 == m * q.1,
            p.1 > 0,
            q.1 > 0,
            t == (p.0 * q.1 + q.0 * p.1, p.1 * q.1),
    ;
    lemma_mod_multiples_basic(k + m, t.1);
    assert((k + m) * t.1 == t.1 * (k + m)) by (nonlinear_arith);
    lemma_div_multiples_vanish(k + m, t.1);
}

/// The negation of a whole number is whole, with the negated value.
proof fn lemma_whole_neg(p: (int, int))
    requires
        frac_wf(p),
        is_whole(p),
    ensures
        is_whole(frac_neg(p)),
        frac_neg(p).0 / frac_neg(p).1 == -(p.0 / p.1),
{
    lemma_dvd_witness(p.0, p.1);
    let k = p.0 / p.1;
    assert(-p.0 == (-k) * p.1) by (nonlinear_arith)
        requires
            p.0 == k * p.1,
    ;
    lemma_mod_multiples_basic(-k, p.1);
    assert((-k) * p.1 == p.1 * (-k)) by (nonlinear_arith);
    lemma_div_multiples_vanish(-k, p.1);
}

impl Congruence {
    /// The lattice of sums: `x ≡ r (mod n)` and `y ≡ s (mod m)` give
    /// `x + y ≡ r + s (mod gcd(n, m))`.
    pub fn add(&self, o: &Congruence) -> (c: Congruence)
        requires
            self.wf(),
            o.wf(),
        ensures
            c.wf(),
            forall|x: int, y: int| self.has(x) && o.has(y) ==> #[trigger] c.has(x + y),
    {
        let g = big_gcd(&self.n, &o.n);
        let c = Congruence::new(g, big_add(&self.r, &o.r));
        proof {
            assert forall|x: int, y: int| self.has(x) && o.has(y) implies #[trigger] c.has(x + y) by {
                if g@ > 0 {
                    lemma_on_divisor(x - self.r@, self.n@, g@);
                    lemma_on_divisor(y - o.r@, o.n@, g@);
                    lemma_dvd_add(x - self.r@, y - o.r@, g@);
                    assert(x - self.r@ + (y - o.r@) == x + y - (self.r@ + o.r@));
                }
            }
        }
        c
    }

    /// The lattice of differences.
    pub fn sub(&self, o: &Congruence) -> (c: Congruence)
        requires
            self.wf(),
            o.wf(),
        ensures
            c.wf(),
            forall|x: int, y: int| self.has(x) && o.has(y) ==> #[trigger] c.has(x - y),
    {
        let g = big_gcd(&self.n, &o.n);
        let c = Congruence::new(g, big_sub(&self.r, &o.r));
        proof {
            assert forall|x: int, y: int| self.has(x) && o.has(y) implies #[trigger] c.has(x - y) by {
                if g@ > 0 {
                    lemma_on_divisor(x - self.r@, self.n@, g@);
                    lemma_on_divisor(y - o.r@, o.n@, g@);
                    lemma_dvd_sub(x - self.r@, y - o.r@, g@);
                    assert(x - self.r@ - (y - o.r@) == x - y - (self.r@ - o.r@));
                }
            }
        }
        c
    }

    /// The lattice of negations.
    pub fn neg(&self) -> (c: Congruence)
        requires
            self.wf(),
        ensures
            c.wf(),
            forall|x: int| self.has(x) ==> #[trigger] c.has(-x),
    {
        let c = Congruence::new(self.n.clone(), big_neg(&self.r));
        proof {
            assert forall|x: int| self.has(x) implies #[trigger] c.has(-x) by {
                if self.n@ > 0 {
                    lemma_dvd_neg(x - self.r@, self.n@);
                    assert(-(x - self.r@) == -x - (-self.r@));
                }
            }
        }
        c
    }
}

/// A multiple of `n` (or zero, when `n` is) is a multiple of any divisor of `n`.
proof fn lemma_on_divisor(a: int, n: int, g: int)
    requires
        g > 0,
        n >= 0,
        n % g == 0,
        n == 0 ==> a == 0,
        n > 0 ==> a % n == 0,
    ensures
        a % g == 0,
{
    if n > 0 {
        lemma_dvd_trans(g, n, a);
    } else {
        lemma_mod_multiples_basic(0, g);
    }
}

/// Sum of two endpoints.
fn combine_add(a: &Bound, b: &Bound) -> (r: Bound)
    requires
        bound_wf(*a),
        bound_wf(*b),
    ensures
        bound_wf(r),
        combined(r, *a, *b, |p: (int, int), q: (int, int)| frac_add(p, q)),
{
    match (a, b) {
        (Bound::Incl(p), Bound::Incl(q)) => Bound::Incl(p.add(q)),
        (Bound::Incl(p), Bound::Excl(q)) => Bound::Excl(p.add(q)),
        (Bound::Excl(p), Bound::Incl(q)) => Bound::Excl(p.add(q)),
        (Bound::Excl(p), Bound::Excl(q)) => Bound::Excl(p.add(q)),
        _ => Bound::Unbounded,
    }
}

/// Difference of two endpoints.
fn combine_sub(a: &Bound, b: &Bound) -> (r: Bound)
    requires
        bound_wf(*a),
        bound_wf(*b),
    ensures
        bound_wf(r),
        combined(r, *a, *b, |p: (int, int), q: (int, int)| frac_sub(p, q)),
{
    match (a, b) {
        (Bound::Incl(p), Bound::Incl(q)) => Bound::Incl(p.sub(q)),
        (Bound::Incl(p), Bound::Excl(q)) => Bound::Excl(p.sub(q)),
        (Bound::Excl(p), Bound::Incl(q)) => Bound::Excl(p.sub(q)),
        (Bound::Excl(p), Bound::Excl(q)) => Bound::Excl(p.sub(q)),
        _ => Bound::Unbounded,
    }
}

/// A bound mirrored through zero.
fn flip(b: &Bound) -> (r: Bound)
    requires
        bound_wf(*b),
    ensures
        bound_wf(r),
        flipped(r, *b),
{
    match b {
        Bound::Unbounded => Bound::Unbounded,
        Bound::Incl(v) => Bound::Incl(v.neg()),
        Bound::Excl(v) => Bound::Excl(v.neg()),
    }
}

/// Both lattices are known: combine them.
fn both_add(a: &Option<Congruence>, b: &Option<Congruence>) -> (r: Option<Congruence>)
    requires
        a matches Some(p) ==> p.wf(),
        b matches Some(q) ==> q.wf(),
    ensures
        r is Some <==> (a is Some && b is Some),
        r matches Some(c) ==> c.wf() && forall|x: int, y: int| a->0.has(x) && b->0.has(y) ==> #[trigger] c.has(x + y),
{
    match (a, b) {
        (Some(p), Some(q)) => Some(p.add(q)),
        _ => None,
    }
}

fn both_sub(a: &Option<Congruence>, b: &Option<Congruence>) -> (r: Option<Congruence>)
    requires
        a matches Some(p) ==> p.wf(),
        b matches Some(q) ==> q.wf(),
    ensures
        r is Some <==> (a is Some && b is Some),
        r matches Some(c) ==> c.wf() && forall|x: int, y: int| a->0.has(x) && b->0.has(y) ==> #[trigger] c.has(x - y),
{
    match (a, b) {
        (Some(p), Some(q)) => Some(p.sub(q)),
        _ => None,
    }
}

/// `[a,b] + [c,d] = [a+c, b+d]`; an endpoint is inclusive only when both are.
/// Every sum of admitted numbers is admitted.
pub fn abs_add(x: &NumAbs, y: &NumAbs) -> (r: NumAbs)
    requires
        x.wf(),
        y.wf(),
    ensures
        r.wf(),
        combined(r.iv.low, x.iv.low, y.iv.low, |p: (int, int), q: (int, int)| frac_add(p, q)),
        combined(r.iv.high, x.iv.high, y.iv.high, |p: (int, int), q: (int, int)| frac_add(p, q)),
        r.cong is Some <==> (x.cong is Some && y.cong is Some),
        forall|p: (int, int), q: (int, int)|
            frac_wf(p) && frac_wf(q) && x.admits(p) && y.admits(q) ==> #[trigger] r.admits(frac_add(p, q)),
{
    let r = NumAbs {
        iv: Interval { low: combine_add(&x.iv.low, &y.iv.low), high: combine_add(&x.iv.high, &y.iv.high) },
        cong: both_add(&x.cong, &y.cong),
    };
    proof {
        assert forall|p: (int, int), q: (int, int)|
            frac_wf(p) && frac_wf(q) && x.admits(p) && y.admits(q) implies #[trigger] r.admits(frac_add(p, q)) by {
            lemma_add_wf(p, q);
            lemma_sum_within(x.iv.low, y.iv.low, r.iv.low, x.iv.high, y.iv.high, r.iv.high, p, q);
            if r.cong is Some {
                lemma_whole_add(p, q);
            }
        }
    }
    r
}

/// A sum of numbers within two intervals lies within the interval of summed
/// endpoints.
proof fn lemma_sum_within(
    al: Bound,
    bl: Bound,
    rl: Bound,
    ah: Bound,
    bh: Bound,
    rh: Bound,
    p: (int, int),
    q: (int, int),
)
    requires
        bound_wf(al),
        bound_wf(bl),
        bound_wf(rl),
        bound_wf(ah),
        bound_wf(bh),
        bound_wf(rh),
        frac_wf(p),
        frac_wf(q),
        combined(rl, al, bl, |p: (int, int), q: (int, int)| frac_add(p, q)),
        combined(rh, ah, bh, |p: (int, int), q: (int, int)| frac_add(p, q)),
        above(al, p) && under(ah, p),
        above(bl, q) && under(bh, q),
    ensures
        above(rl, frac_add(p, q)),
        under(rh, frac_add(p, q)),
{
    lemma_add_wf(p, q);
    match (al, bl) {
        (Bound::Incl(a), Bound::Incl(c)) | (Bound::Incl(a), Bound::Excl(c)) | (Bound::Excl(a), Bound::Incl(c)) | (
            Bound::Excl(a),
            Bound::Excl(c),
        ) => {
            lemma_add_mono(a@, c@, p, q);
            lemma_add_wf(a@, c@);
            let v = match rl {
                Bound::Incl(v) => v,
                Bound::Excl(v) => v,
                Bound::Unbounded => a,
            };
            lemma_same_value_lt(v@, frac_add(a@, c@), frac_add(p, q));
        },
        _ => {},
    }
    match (ah, bh) {
        (Bound::Incl(a), Bound::Incl(c)) | (Bound::Incl(a), Bound::Excl(c)) | (Bound::Excl(a), Bound::Incl(c)) | (
            Bound::Excl(a),
            Bound::Excl(c),
        ) => {
            lemma_add_mono(p, q, a@, c@);
            lemma_add_wf(a@, c@);
            let v = match rh {
                Bound::Incl(v) => v,
                Bound::Excl(v) => v,
                Bound::Unbounded => a,
            };
            lemma_same_value_lt(v@, frac_add(a@, c@), frac_add(p, q));
        },
        _ => {},
    }
}

/// Differences are monotone: `a ≤ p` and `q ≤ d` give `a − d ≤ p − q`,
/// strictly when either step is strict.
proof fn lemma_sub_mono(a: (int, int), d: (int, int), p: (int, int), q: (int, int))
    requires
        frac_wf(a),
        frac_wf(d),
        frac_wf(p),
        frac_wf(q),
        !value_lt(p, a),
        !value_lt(d, q),
    ensures
        !value_lt(frac_sub(p, q), frac_sub(a, d)),
        value_lt(a, p) || value_lt(q, d) ==> value_lt(frac_sub(a, d), frac_sub(p, q)),
{
    lemma_neg_antitone(d, q);
    lemma_neg_antitone(q, d);
    lemma_add_mono(a, frac_neg(d), p, frac_neg(q));
    lemma_frac_sub_is_add_neg(p, q);
    lemma_frac_sub_is_add_neg(a, d);
}

/// A difference of numbers within two intervals lies within the interval of
/// crosswise differences of endpoints.
proof fn lemma_diff_within(
    al: Bound,
    bh: Bound,
    rl: Bound,
    ah: Bound,
    bl: Bound,
    rh: Bound,
    p: (int, int),
    q: (int, int),
)
    requires
        bound_wf(al),
        bound_wf(bl),
        bound_wf(rl),
        bound_wf(ah),
        bound_wf(bh),
        bound_wf(rh),
        frac_wf(p),
        frac_wf(q),
        combined(rl, al, bh, |p: (int, int), q: (int, int)| frac_sub(p, q)),
        combined(rh, ah, bl, |p: (int, int), q: (int, int)| frac_sub(p, q)),
        above(al, p) && under(ah, p),
        above(bl, q) && under(bh, q),
    ensures
        above(rl, frac_sub(p, q)),
        under(rh, frac_sub(p, q)),
{
    lemma_frac_sub_is_add_neg(p, q);
    lemma_add_wf(p, frac_neg(q));
    match (al, bh) {
        (Bound::Incl(a), Bound::Incl(d)) | (Bound::Incl(a), Bound::Excl(d)) | (Bound::Excl(a), Bound::Incl(d)) | (
            Bound::Excl(a),
            Bound::Excl(d),
        ) => {
            lemma_sub_mono(a@, d@, p, q);
            lemma_frac_sub_is_add_neg(a@, d@);
            lemma_add_wf(a@, frac_neg(d@));
            let v = match rl {
                Bound::Incl(v) => v,
                Bound::Excl(v) => v,
                Bound::Unbounded => a,
            };
            lemma_same_value_lt(v@, frac_sub(a@, d@), frac_sub(p, q));
        },
        _ => {},
    }
    match (ah, bl) {
        (Bound::Incl(b), Bound::Incl(c)) | (Bound::Incl(b), Bound::Excl(c)) | (Bound::Excl(b), Bound::Incl(c)) | (
            Bound::Excl(b),
            Bound::Excl(c),
        ) => {
            lemma_sub_mono(p, q, b@, c@);
            lemma_frac_sub_is_add_neg(b@, c@);
            lemma_add_wf(b@, frac_neg(c@));
            let v = match rh {
                Bound::Incl(v) => v,
                Bound::Excl(v) => v,
                Bound::Unbounded => b,
            };
            lemma_same_value_lt(v@, frac_sub(b@, c@), frac_sub(p, q));
        },
        _ => {},
    }
}

/// `[a,b] − [c,d] = [a−d, b−c]` — each result bound pairs with the
/// subtrahend's **opposite** bound. Every difference of admitted numbers is
/// admitted.
pub fn abs_sub(x: &NumAbs, y: &NumAbs) -> (r: NumAbs)
    requires
        x.wf(),
        y.wf(),
    ensures
        r.wf(),
        combined(r.iv.low, x.iv.low, y.iv.high, |p: (int, int), q: (int, int)| frac_sub(p, q)),
        combined(r.iv.high, x.iv.high, y.iv.low, |p: (int, int), q: (int, int)| frac_sub(p, q)),
        r.cong is Some <==> (x.cong is Some && y.cong is Some),
        forall|p: (int, int), q: (int, int)|
            frac_wf(p) && frac_wf(q) && x.admits(p) && y.admits(q) ==> #[trigger] r.admits(frac_sub(p, q)),
{
    let r = NumAbs {
        iv: Interval { low: combine_sub(&x.iv.low, &y.iv.high), high: combine_sub(&x.iv.high, &y.iv.low) },
        cong: both_sub(&x.cong, &y.cong),
    };
    proof {
        assert forall|p: (int, int), q: (int, int)|
            frac_wf(p) && frac_wf(q) && x.admits(p) && y.admits(q) implies #[trigger] r.admits(frac_sub(p, q)) by {
            lemma_diff_within(x.iv.low, y.iv.high, r.iv.low, x.iv.high, y.iv.low, r.iv.high, p, q);
            lemma_frac_sub_is_add_neg(p, q);
            if r.cong is Some {
                lemma_whole_neg(q);
                lemma_whole_add(p, frac_neg(q));
                let (u, w) = (p.0 / p.1, q.0 / q.1);
                assert(r.cong->0.has(u - w));
                assert(frac_sub(p, q).0 / frac_sub(p, q).1 == u - w);
            }
        }
    }
    r
}

/// `−[a,b] = [−b, −a]`. The negation of every admitted number is admitted.
pub fn abs_neg(x: &NumAbs) -> (r: NumAbs)
    requires
        x.wf(),
    ensures
        r.wf(),
        flipped(r.iv.low, x.iv.high),
        flipped(r.iv.high, x.iv.low),
        r.cong is Some <==> x.cong is Some,
        forall|p: (int, int)| frac_wf(p) && x.admits(p) ==> #[trigger] r.admits(frac_neg(p)),
{
    let cong = match &x.cong {
        Some(c) => Some(c.neg()),
        None => None,
    };
    let r = NumAbs { iv: Interval { low: flip(&x.iv.high), high: flip(&x.iv.low) }, cong };
    proof {
        assert forall|p: (int, int)| frac_wf(p) && x.admits(p) implies #[trigger] r.admits(frac_neg(p)) by {
            match x.iv.high {
                Bound::Incl(v) => lemma_neg_antitone(p, v@),
                Bound::Excl(v) => lemma_neg_antitone(v@, p),
                Bound::Unbounded => {},
            }
            match x.iv.low {
                Bound::Incl(v) => lemma_neg_antitone(v@, p),
                Bound::Excl(v) => lemma_neg_antitone(p, v@),
                Bound::Unbounded => {},
            }
            if r.cong is Some {
                lemma_whole_neg(p);
                assert(r.cong->0.has(-(p.0 / p.1)));
            }
        }
    }
    r
}

/// The two bounds meet at one shared point both include.
pub open spec fn touch(high: Bound, low: Bound) -> bool {
    high matches Bound::Incl(h) && low matches Bound::Incl(l) && same_value(h@, l@)
}

/// The two bounds meet at one shared, mutually-included point (so `≤` holds
/// everywhere while `<` does not).
fn touching(high: &Bound, low: &Bound) -> (r: bool)
    ensures
        r == touch(*high, *low),
{
    match (high, low) {
        (Bound::Incl(h), Bound::Incl(l)) => h.eq_value(l),
        _ => false,
    }
}

/// Whether the ordering comparison `op` holds of `p` and `q`.
pub open spec fn order_holds(op: PrimOp, p: (int, int), q: (int, int)) -> bool {
    match op {
        PrimOp::Lt => value_lt(p, q),
        PrimOp::Le => !value_lt(q, p),
        PrimOp::Gt => value_lt(q, p),
        PrimOp::Ge => !value_lt(p, q),
        _ => false,
    }
}

/// What the bounds alone settle of `op`: `x`'s interval below `y`'s
/// (`always_lt`), above it (`always_gt`), or also touching it at one shared
/// point (`always_le`, `always_ge`).
pub open spec fn decided(op: PrimOp, x: Interval, y: Interval) -> Option<bool> {
    let always_lt = gap(x.high, y.low);
    let always_gt = gap(y.high, x.low);
    let always_le = always_lt || touch(x.high, y.low);
    let always_ge = always_gt || touch(y.high, x.low);
    match op {
        PrimOp::Lt => if always_lt {
            Some(true)
        } else if always_ge {
            Some(false)
        } else {
            None
        },
        PrimOp::Le => if always_le {
            Some(true)
        } else if always_gt {
            Some(false)
        } else {
            None
        },
        PrimOp::Gt => if always_gt {
            Some(true)
        } else if always_le {
            Some(false)
        } else {
            None
        },
        PrimOp::Ge => if always_ge {
            Some(true)
        } else if always_lt {
            Some(false)
        } else {
            None
        },
        _ => None,
    }
}

/// Whether the operands' bounds **settle** an ordering comparison:
/// `Some(true)` when it holds for every pair, `Some(false)` when it holds for
/// none, `None` when the ranges overlap so both outcomes are live.
pub fn compare_decided(op: PrimOp, x: &NumAbs, y: &NumAbs) -> (r: Option<bool>)
    requires
        x.wf(),
        y.wf(),
    ensures
        r == decided(op, x.iv, y.iv),
        r matches Some(b) ==> forall|p: (int, int), q: (int, int)|
            frac_wf(p) && frac_wf(q) && x.admits(p) && y.admits(q) ==> #[trigger] order_holds(op, p, q) == b,
{
    let always_lt = below(&x.iv.high, &y.iv.low);
    let always_gt = below(&y.iv.high, &x.iv.low);
    let always_le = always_lt || touching(&x.iv.high, &y.iv.low);
    let always_ge = always_gt || touching(&y.iv.high, &x.iv.low);
    let r = match op {
        PrimOp::Lt => if always_lt {
            Some(true)
        } else if always_ge {
            Some(false)
        } else {
            None
        },
        PrimOp::Le => if always_le {
            Some(true)
        } else if always_gt {
            Some(false)
        } else {
            None
        },
        PrimOp::Gt => if always_gt {
            Some(true)
        } else if always_le {
            Some(false)
        } else {
            None
        },
        PrimOp::Ge => if always_ge {
            Some(true)
        } else if always_lt {
            Some(false)
        } else {
            None
        },
        _ => None,
    };
    proof {
        assert forall|p: (int, int), q: (int, int)|
            frac_wf(p) && frac_wf(q) && x.admits(p) && y.admits(q) implies (always_lt ==> value_lt(p, q)) && (
            always_gt ==> value_lt(q, p)) && (always_le ==> !value_lt(q, p)) && (always_ge ==> !value_lt(p, q)) by {
            lemma_gap_orders(x.iv.high, y.iv.low, p, q);
            lemma_gap_orders(y.iv.high, x.iv.low, q, p);
            lemma_touch_orders(x.iv.high, y.iv.low, p, q);
            lemma_touch_orders(y.iv.high, x.iv.low, q, p);
        }
    }
    r
}

/// Under a bound that lies below another, every number is below every
/// number above the other.
proof fn lemma_gap_orders(high: Bound, low: Bound, p: (int, int), q: (int, int))
    requires
        bound_wf(high),
        bound_wf(low),
        frac_wf(p),
        frac_wf(q),
        under(high, p),
        above(low, q),
    ensures
        gap(high, low) ==> value_lt(p, q),
{
    if gap(high, low) && !value_lt(p, q) {
        // `q ≤ p`, so `q` lies both under `high` and above `low`.
        match high {
            Bound::Incl(h) => lemma_le_trans(q, p, h@),
            Bound::Excl(h) => lemma_le_lt_trans(q, p, h@),
            Bound::Unbounded => {},
        }
        assert(under(high, q) && above(low, q));
    }
}

/// Under a bound that touches another at a shared included point, every
/// number is at most every number above the other.
proof fn lemma_touch_orders(high: Bound, low: Bound, p: (int, int), q: (int, int))
    requires
        bound_wf(high),
        bound_wf(low),
        frac_wf(p),
        frac_wf(q),
        under(high, p),
        above(low, q),
    ensures
        touch(high, low) ==> !value_lt(q, p),
{
    if touch(high, low) {
        let (h, l) = (high->Incl_0, low->Incl_0);
        lemma_same_value_lt(h@, l@, q);
        lemma_le_trans(p, h@, q);
    }
}

// ── Products ─────────────────────────────────────────────────────────────────

impl Congruence {
    /// Scaling by an exact integer: `x ≡ r (mod n)` gives `c·x ≡ c·r (mod c·n)`.
    pub fn scale(&self, c: &BigNum) -> (s: Congruence)
        requires
            self.wf(),
        ensures
            s.wf(),
            forall|x: int| self.has(x) ==> #[trigger] s.has(c@ * x),
    {
        let s = Congruence::new(big_mul(&self.n, c), big_mul(&self.r, c));
        proof {
            assert forall|x: int| self.has(x) implies #[trigger] s.has(c@ * x) by {
                let m = self.n@ * c@;
                if self.n@ == 0 {
                    assert(m == 0) by (nonlinear_arith)
                        requires
                            m == self.n@ * c@,
                            self.n@ == 0,
                    ;
                    assert(c@ * x == self.r@ * c@) by (nonlinear_arith)
                        requires
                            x == self.r@,
                    ;
                } else if m != 0 {
                    lemma_dvd_witness(x - self.r@, self.n@);
                    let k = (x - self.r@) / self.n@;
                    let am = if m < 0 { -m } else { m };
                    let j = if m < 0 { -k } else { k };
                    assert(c@ * x - self.r@ * c@ == j * am) by (nonlinear_arith)
                        requires
                            x - self.r@ == k * self.n@,
                            m == self.n@ * c@,
                            am == if m < 0 { -m } else { m },
                            j == if m < 0 { -k } else { k },
                    ;
                    assert(am > 0);
                    lemma_mod_multiples_basic(j, am);
                } else {
                    assert(c@ == 0) by (nonlinear_arith)
                        requires
                            m == self.n@ * c@,
                            m == 0,
                            self.n@ != 0,
                    ;
                    assert(c@ * x == 0 && self.r@ * c@ == 0) by (nonlinear_arith)
                        requires
                            c@ == 0,
                    ;
                }
            }
        }
        s
    }
}

/// A number or an infinity, for the corners of a product.
pub ghost enum XVal {
    NegInf,
    Fin((int, int)),
    PosInf,
}

/// The order of extended numbers.
pub open spec fn x_le(a: XVal, b: XVal) -> bool {
    match (a, b) {
        (XVal::NegInf, _) => true,
        (_, XVal::PosInf) => true,
        (XVal::Fin(p), XVal::Fin(q)) => !value_lt(q, p),
        _ => false,
    }
}

/// The sign of an extended number.
pub open spec fn x_sign(a: XVal) -> int {
    match a {
        XVal::NegInf => -1,
        XVal::PosInf => 1,
        XVal::Fin(p) => if p.0 > 0 {
            1
        } else if p.0 < 0 {
            -1
        } else {
            0
        },
    }
}

/// The product of extended numbers, with `0 · ∞ = 0`: a zero endpoint is
/// attained, so the product genuinely reaches zero.
pub open spec fn x_mul(a: XVal, b: XVal) -> XVal {
    match (a, b) {
        (XVal::Fin(p), XVal::Fin(q)) => XVal::Fin(frac_mul(p, q)),
        _ => if x_sign(a) == 0 || x_sign(b) == 0 {
            XVal::Fin((0, 1))
        } else if x_sign(a) * x_sign(b) > 0 {
            XVal::PosInf
        } else {
            XVal::NegInf
        },
    }
}

/// Equal extended numbers: the same infinity, or equal values.
pub open spec fn x_eqv(a: XVal, b: XVal) -> bool {
    match (a, b) {
        (XVal::Fin(p), XVal::Fin(q)) => same_value(p, q),
        _ => a == b,
    }
}

/// Finite parts have positive denominators.
pub open spec fn x_wf(a: XVal) -> bool {
    a matches XVal::Fin(p) ==> frac_wf(p)
}

proof fn lemma_frac_mul_wf(p: (int, int), q: (int, int))
    requires
        frac_wf(p),
        frac_wf(q),
    ensures
        frac_wf(frac_mul(p, q)),
        frac_mul(p, q).0 > 0 <==> (p.0 > 0 && q.0 > 0 || p.0 < 0 && q.0 < 0),
        frac_mul(p, q).0 < 0 <==> (p.0 > 0 && q.0 < 0 || p.0 < 0 && q.0 > 0),
{
    assert(p.1 * q.1 > 0) by (nonlinear_arith)
        requires
            p.1 > 0,
            q.1 > 0,
    ;
    assert(p.0 * q.0 > 0 <==> (p.0 > 0 && q.0 > 0 || p.0 < 0 && q.0 < 0)) by (nonlinear_arith);
    assert(p.0 * q.0 < 0 <==> (p.0 > 0 && q.0 < 0 || p.0 < 0 && q.0 > 0)) by (nonlinear_arith);
}

/// Multiplying by a non-negative number keeps the order; by a non-positive
/// one it reverses it.
proof fn lemma_frac_mul_mono(a: (int, int), b: (int, int), q: (int, int))
    requires
        frac_wf(a),
        frac_wf(b),
        frac_wf(q),
        !value_lt(b, a),
    ensures
        q.0 >= 0 ==> !value_lt(frac_mul(b, q), frac_mul(a, q)),
        q.0 <= 0 ==> !value_lt(frac_mul(a, q), frac_mul(b, q)),
{
    let (ab, bb) = (frac_mul(a, q), frac_mul(b, q));
    assert((a.0 * q.0) * (b.1 * q.1) == q.0 * q.1 * (a.0 * b.1)) by (nonlinear_arith);
    assert((b.0 * q.0) * (a.1 * q.1) == q.0 * q.1 * (b.0 * a.1)) by (nonlinear_arith);
    assert(q.0 * q.1 * (a.0 * b.1) - q.0 * q.1 * (b.0 * a.1) == q.0 * q.1 * (a.0 * b.1 - b.0 * a.1))
        by (nonlinear_arith);
    assert(a.0 * b.1 - b.0 * a.1 <= 0);
    if q.0 >= 0 {
        assert(q.0 * q.1 * (a.0 * b.1 - b.0 * a.1) <= 0) by (nonlinear_arith)
            requires
                q.0 >= 0,
                q.1 > 0,
                a.0 * b.1 - b.0 * a.1 <= 0,
        ;
    }
    if q.0 <= 0 {
        assert(q.0 * q.1 * (a.0 * b.1 - b.0 * a.1) >= 0) by (nonlinear_arith)
            requires
                q.0 <= 0,
                q.1 > 0,
                a.0 * b.1 - b.0 * a.1 <= 0,
        ;
    }
}

proof fn lemma_frac_mul_comm(p: (int, int), q: (int, int))
    ensures
        frac_mul(p, q) == frac_mul(q, p),
{
    assert(p.0 * q.0 == q.0 * p.0 && p.1 * q.1 == q.1 * p.1) by (nonlinear_arith);
}

/// Extended products are monotone in the second factor: increasing for a
/// non-negative first factor, decreasing for a non-positive one.
proof fn lemma_x_mono(x: XVal, q: XVal, r: XVal)
    requires
        x_wf(x),
        x_wf(q),
        x_wf(r),
        x_le(q, r),
    ensures
        x_sign(x) >= 0 ==> x_le(x_mul(x, q), x_mul(x, r)),
        x_sign(x) <= 0 ==> x_le(x_mul(x, r), x_mul(x, q)),
{
    lemma_sign_mono(q, r);
    match x {
        XVal::Fin(a) => {
            match (q, r) {
                (XVal::Fin(b), XVal::Fin(c)) => {
                    lemma_frac_mul_mono(b, c, a);
                    lemma_frac_mul_comm(a, b);
                    lemma_frac_mul_comm(a, c);
                },
                (XVal::Fin(b), _) => {
                    lemma_frac_mul_wf(a, b);
                    lemma_frac_mul_comm(a, b);
                    lemma_frac_mul_wf(b, a);
                    lemma_zero_cmp(frac_mul(a, b));
                },
                (_, XVal::Fin(c)) => {
                    lemma_frac_mul_wf(a, c);
                    lemma_frac_mul_comm(a, c);
                    lemma_frac_mul_wf(c, a);
                    lemma_zero_cmp(frac_mul(a, c));
                },
                _ => {},
            }
        },
        _ => {},
    }
}

/// Comparing with zero is a sign test.
proof fn lemma_zero_cmp(p: (int, int))
    requires
        frac_wf(p),
    ensures
        value_lt((0, 1), p) <==> p.0 > 0,
        value_lt(p, (0, 1)) <==> p.0 < 0,
{
}

/// Signs follow the order.
proof fn lemma_sign_mono(q: XVal, r: XVal)
    requires
        x_wf(q),
        x_wf(r),
        x_le(q, r),
    ensures
        x_sign(q) <= x_sign(r),
{
    if let XVal::Fin(b) = q {
        if let XVal::Fin(c) = r {
            assert(b.0 * c.1 <= c.0 * b.1);
            assert(b.0 > 0 ==> c.0 > 0) by (nonlinear_arith)
                requires
                    b.0 * c.1 <= c.0 * b.1,
                    b.1 > 0,
                    c.1 > 0,
            ;
            assert(c.0 < 0 ==> b.0 < 0) by (nonlinear_arith)
                requires
                    b.0 * c.1 <= c.0 * b.1,
                    b.1 > 0,
                    c.1 > 0,
            ;
        }
    }
}

proof fn lemma_x_le_trans(a: XVal, b: XVal, c: XVal)
    requires
        x_wf(a),
        x_wf(b),
        x_wf(c),
        x_le(a, b),
        x_le(b, c),
    ensures
        x_le(a, c),
{
    if let (XVal::Fin(p), XVal::Fin(q), XVal::Fin(r)) = (a, b, c) {
        lemma_le_trans(p, q, r);
    }
}

proof fn lemma_x_le_total(a: XVal, b: XVal)
    ensures
        x_le(a, b) || x_le(b, a),
{
}

/// The order does not see the difference between equal extended numbers.
proof fn lemma_x_eqv_le(a: XVal, a2: XVal, b: XVal)
    requires
        x_wf(a),
        x_wf(a2),
        x_wf(b),
        x_eqv(a, a2),
    ensures
        x_le(a, b) <==> x_le(a2, b),
        x_le(b, a) <==> x_le(b, a2),
{
    if let (XVal::Fin(p), XVal::Fin(p2), XVal::Fin(q)) = (a, a2, b) {
        lemma_same_value_lt(p, p2, q);
    }
}

proof fn lemma_x_mul_comm(a: XVal, b: XVal)
    ensures
        x_mul(a, b) == x_mul(b, a),
{
    if let (XVal::Fin(p), XVal::Fin(q)) = (a, b) {
        lemma_frac_mul_comm(p, q);
    }
    assert(x_sign(a) * x_sign(b) == x_sign(b) * x_sign(a)) by (nonlinear_arith);
}

proof fn lemma_x_mul_wf(a: XVal, b: XVal)
    requires
        x_wf(a),
        x_wf(b),
    ensures
        x_wf(x_mul(a, b)),
{
    if let (XVal::Fin(p), XVal::Fin(q)) = (a, b) {
        lemma_frac_mul_wf(p, q);
    }
}

/// An endpoint under extended arithmetic: a finite rational or an infinity.
#[derive(Debug)]
pub enum Ext {
    NegInf,
    Fin(Rational),
    PosInf,
}

/// The extended number an endpoint stands for.
pub open spec fn ext_view(e: Ext) -> XVal {
    match e {
        Ext::NegInf => XVal::NegInf,
        Ext::Fin(q) => XVal::Fin(q@),
        Ext::PosInf => XVal::PosInf,
    }
}

pub open spec fn ext_wf(e: Ext) -> bool {
    e matches Ext::Fin(q) ==> q.wf()
}

/// A lower bound as an extended number.
fn low_ext(b: &Bound) -> (e: Ext)
    requires
        bound_wf(*b),
    ensures
        ext_wf(e),
        ext_view(e) == match *b {
            Bound::Unbounded => XVal::NegInf,
            Bound::Incl(v) => XVal::Fin(v@),
            Bound::Excl(v) => XVal::Fin(v@),
        },
{
    match b {
        Bound::Unbounded => Ext::NegInf,
        Bound::Incl(v) => Ext::Fin(v.clone()),
        Bound::Excl(v) => Ext::Fin(v.clone()),
    }
}

/// An upper bound as an extended number.
fn high_ext(b: &Bound) -> (e: Ext)
    requires
        bound_wf(*b),
    ensures
        ext_wf(e),
        ext_view(e) == match *b {
            Bound::Unbounded => XVal::PosInf,
            Bound::Incl(v) => XVal::Fin(v@),
            Bound::Excl(v) => XVal::Fin(v@),
        },
{
    match b {
        Bound::Unbounded => Ext::PosInf,
        Bound::Incl(v) => Ext::Fin(v.clone()),
        Bound::Excl(v) => Ext::Fin(v.clone()),
    }
}

fn sign_of(e: &Ext) -> (r: i32)
    requires
        ext_wf(*e),
    ensures
        r == x_sign(ext_view(*e)),
{
    match e {
        Ext::NegInf => -1,
        Ext::PosInf => 1,
        Ext::Fin(q) => {
            let zero = Rational::from(0);
            proof {
                lemma_zero_cmp(q@);
            }
            if zero.lt(q) {
                1
            } else if q.lt(&zero) {
                -1
            } else {
                0
            }
        },
    }
}

/// `x · y` extended, with `0 · ∞ = 0`.
fn mul_ext(a: &Ext, b: &Ext) -> (r: Ext)
    requires
        ext_wf(*a),
        ext_wf(*b),
    ensures
        ext_wf(r),
        x_eqv(ext_view(r), x_mul(ext_view(*a), ext_view(*b))),
{
    let (sa, sb) = (sign_of(a), sign_of(b));
    if sa == 0 || sb == 0 {
        proof {
            if let (XVal::Fin(x), XVal::Fin(y)) = (ext_view(*a), ext_view(*b)) {
                assert(x.0 * y.0 == 0) by (nonlinear_arith)
                    requires
                        x.0 == 0 || y.0 == 0,
                ;
                assert(0 * (x.1 * y.1) == (x.0 * y.0) * 1) by (nonlinear_arith)
                    requires
                        x.0 * y.0 == 0,
                ;
            }
        }
        let z = Rational::from(0);
        assert(z@ == (0int, 1int));
        return Ext::Fin(z);
    }
    match (a, b) {
        (Ext::Fin(x), Ext::Fin(y)) => Ext::Fin(x.mul(y)),
        _ => if sa * sb > 0 {
            Ext::PosInf
        } else {
            Ext::NegInf
        },
    }
}

/// `a < b` for extended numbers.
fn ext_lt(a: &Ext, b: &Ext) -> (r: bool)
    requires
        ext_wf(*a),
        ext_wf(*b),
    ensures
        r == !x_le(ext_view(*b), ext_view(*a)),
{
    match (a, b) {
        (Ext::Fin(x), Ext::Fin(y)) => x.lt(y),
        (Ext::NegInf, Ext::NegInf) => false,
        (Ext::NegInf, _) => true,
        (Ext::PosInf, _) => false,
        (Ext::Fin(_), Ext::PosInf) => true,
        (Ext::Fin(_), Ext::NegInf) => false,
    }
}

/// `b` is the bound the extended number `v` gives: inclusive at a finite
/// value, unbounded at an infinity.
pub open spec fn bound_at(b: Bound, v: XVal) -> bool {
    match v {
        XVal::Fin(q) => b matches Bound::Incl(w) && w@ == q,
        _ => b is Unbounded,
    }
}

/// Build an interval from extended corner results: from the least corner to
/// the greatest. A finite endpoint is emitted **inclusive** — sound, at most
/// one point wider than the true image.
fn from_corners(corners: &Vec<Ext>) -> (r: Interval)
    requires
        corners@.len() > 0,
        forall|i: int| 0 <= i < corners@.len() ==> ext_wf(#[trigger] corners@[i]),
    ensures
        r.wf(),
        exists|m: int|
            0 <= m < corners@.len() && bound_at(r.low, ext_view(corners@[m])) && forall|i: int|
                0 <= i < corners@.len() ==> x_le(ext_view(corners@[m]), ext_view(#[trigger] corners@[i])),
        exists|m: int|
            0 <= m < corners@.len() && bound_at(r.high, ext_view(corners@[m])) && forall|i: int|
                0 <= i < corners@.len() ==> x_le(ext_view(#[trigger] corners@[i]), ext_view(corners@[m])),
{
    let mut lo: usize = 0;
    let mut hi: usize = 0;
    let mut i: usize = 1;
    while i < corners.len()
        invariant
            corners@.len() > 0,
            forall|i: int| 0 <= i < corners@.len() ==> ext_wf(#[trigger] corners@[i]),
            1 <= i <= corners@.len(),
            lo < corners@.len(),
            hi < corners@.len(),
            forall|j: int| 0 <= j < i ==> x_le(ext_view(corners@[lo as int]), ext_view(#[trigger] corners@[j])),
            forall|j: int| 0 <= j < i ==> x_le(ext_view(#[trigger] corners@[j]), ext_view(corners@[hi as int])),
        decreases corners@.len() - i,
    {
        proof {
            lemma_x_le_total(ext_view(corners@[i as int]), ext_view(corners@[lo as int]));
            lemma_x_le_total(ext_view(corners@[i as int]), ext_view(corners@[hi as int]));
        }
        if ext_lt(&corners[i], &corners[lo]) {
            proof {
                assert forall|j: int| 0 <= j < i implies x_le(ext_view(corners@[i as int]), ext_view(
                    #[trigger] corners@[j],
                )) by {
                    lemma_x_le_trans(ext_view(corners@[i as int]), ext_view(corners@[lo as int]), ext_view(corners@[j]));
                }
            }
            lo = i;
        }
        if ext_lt(&corners[hi], &corners[i]) {
            proof {
                assert forall|j: int| 0 <= j < i implies x_le(ext_view(#[trigger] corners@[j]), ext_view(
                    corners@[i as int],
                )) by {
                    lemma_x_le_trans(ext_view(corners@[j]), ext_view(corners@[hi as int]), ext_view(corners@[i as int]));
                }
            }
            hi = i;
        }
        i = i + 1;
    }
    let low = match &corners[lo] {
        Ext::Fin(q) => Bound::Incl(q.clone()),
        _ => Bound::Unbounded,
    };
    let high = match &corners[hi] {
        Ext::Fin(q) => Bound::Incl(q.clone()),
        _ => Bound::Unbounded,
    };
    Interval { low, high }
}

/// The extended number a lower bound starts at.
pub open spec fn low_x(b: Bound) -> XVal {
    match b {
        Bound::Unbounded => XVal::NegInf,
        Bound::Incl(v) => XVal::Fin(v@),
        Bound::Excl(v) => XVal::Fin(v@),
    }
}

/// The extended number an upper bound ends at.
pub open spec fn high_x(b: Bound) -> XVal {
    match b {
        Bound::Unbounded => XVal::PosInf,
        Bound::Incl(v) => XVal::Fin(v@),
        Bound::Excl(v) => XVal::Fin(v@),
    }
}

/// The four corner products of two intervals.
pub open spec fn corners_of(a: Interval, b: Interval) -> Seq<XVal> {
    let (al, ah, bl, bh) = (low_x(a.low), high_x(a.high), low_x(b.low), high_x(b.high));
    seq![x_mul(al, bl), x_mul(al, bh), x_mul(ah, bl), x_mul(ah, bh)]
}

/// `b` is the bound at an extended number equal to `v`.
pub open spec fn bound_near(b: Bound, v: XVal) -> bool {
    match v {
        XVal::Fin(q) => b matches Bound::Incl(w) && same_value(w@, q),
        _ => b is Unbounded,
    }
}

/// A product of numbers within two ranges lies between two of the corner
/// products.
proof fn lemma_corners_bracket(al: XVal, ah: XVal, bl: XVal, bh: XVal, p: (int, int), q: (int, int))
    requires
        x_wf(al),
        x_wf(ah),
        x_wf(bl),
        x_wf(bh),
        frac_wf(p),
        frac_wf(q),
        x_le(al, XVal::Fin(p)),
        x_le(XVal::Fin(p), ah),
        x_le(bl, XVal::Fin(q)),
        x_le(XVal::Fin(q), bh),
    ensures
        x_le(x_mul(al, bl), XVal::Fin(frac_mul(p, q))) || x_le(x_mul(al, bh), XVal::Fin(frac_mul(p, q))) || x_le(
            x_mul(ah, bl),
            XVal::Fin(frac_mul(p, q)),
        ) || x_le(x_mul(ah, bh), XVal::Fin(frac_mul(p, q))),
        x_le(XVal::Fin(frac_mul(p, q)), x_mul(al, bl)) || x_le(XVal::Fin(frac_mul(p, q)), x_mul(al, bh)) || x_le(
            XVal::Fin(frac_mul(p, q)),
            x_mul(ah, bl),
        ) || x_le(XVal::Fin(frac_mul(p, q)), x_mul(ah, bh)),
{
    let (pp, qq) = (XVal::Fin(p), XVal::Fin(q));
    let pq = x_mul(pp, qq);
    lemma_frac_mul_wf(p, q);
    lemma_x_mul_wf(al, qq);
    lemma_x_mul_wf(ah, qq);
    lemma_x_mul_wf(al, bl);
    lemma_x_mul_wf(al, bh);
    lemma_x_mul_wf(ah, bl);
    lemma_x_mul_wf(ah, bh);
    lemma_x_mul_comm(qq, al);
    lemma_x_mul_comm(qq, ah);
    lemma_x_mul_comm(qq, pp);
    // Below: the product is above `e·q` for one end `e` of the first range,
    // and `e·q` above one corner.
    let lo_e = if x_sign(qq) >= 0 { al } else { ah };
    if x_sign(qq) >= 0 {
        lemma_x_mono(qq, al, pp);
    } else {
        lemma_x_mono(qq, pp, ah);
    }
    let lo_c = if x_sign(lo_e) >= 0 { x_mul(lo_e, bl) } else { x_mul(lo_e, bh) };
    if x_sign(lo_e) >= 0 {
        lemma_x_mono(lo_e, bl, qq);
    } else {
        lemma_x_mono(lo_e, qq, bh);
    }
    lemma_x_mul_wf(lo_e, bl);
    lemma_x_mul_wf(lo_e, bh);
    lemma_x_le_trans(lo_c, x_mul(lo_e, qq), pq);
    // Above, symmetrically.
    let hi_e = if x_sign(qq) >= 0 { ah } else { al };
    if x_sign(qq) >= 0 {
        lemma_x_mono(qq, pp, ah);
    } else {
        lemma_x_mono(qq, al, pp);
    }
    let hi_c = if x_sign(hi_e) >= 0 { x_mul(hi_e, bh) } else { x_mul(hi_e, bl) };
    if x_sign(hi_e) >= 0 {
        lemma_x_mono(hi_e, qq, bh);
    } else {
        lemma_x_mono(hi_e, bl, qq);
    }
    lemma_x_mul_wf(hi_e, bl);
    lemma_x_mul_wf(hi_e, bh);
    lemma_x_le_trans(pq, x_mul(hi_e, qq), hi_c);
}

/// A number within an interval sits between its extended ends.
proof fn lemma_contains_x(iv: Interval, p: (int, int))
    requires
        iv.wf(),
        frac_wf(p),
        iv.contains(p),
    ensures
        x_le(low_x(iv.low), XVal::Fin(p)),
        x_le(XVal::Fin(p), high_x(iv.high)),
{
}

/// The four corner products under extended arithmetic — total, and exact on
/// the bounded case: every product of members lies between the least and
/// greatest corner.
fn mul_iv(a: &Interval, b: &Interval) -> (r: Interval)
    requires
        a.wf(),
        b.wf(),
    ensures
        r.wf(),
        exists|m: int| 0 <= m < 4 && bound_near(r.low, corners_of(*a, *b)[m]) && forall|i: int|
            0 <= i < 4 ==> x_le(corners_of(*a, *b)[m], #[trigger] corners_of(*a, *b)[i]),
        exists|m: int| 0 <= m < 4 && bound_near(r.high, corners_of(*a, *b)[m]) && forall|i: int|
            0 <= i < 4 ==> x_le(#[trigger] corners_of(*a, *b)[i], corners_of(*a, *b)[m]),
        forall|p: (int, int), q: (int, int)|
            frac_wf(p) && frac_wf(q) && a.contains(p) && b.contains(q) ==> #[trigger] r.contains(frac_mul(p, q)),
{
    let (al, ah) = (low_ext(&a.low), high_ext(&a.high));
    let (bl, bh) = (low_ext(&b.low), high_ext(&b.high));
    let corners = vec![mul_ext(&al, &bl), mul_ext(&al, &bh), mul_ext(&ah, &bl), mul_ext(&ah, &bh)];
    let ghost cs = corners_of(*a, *b);
    proof {
        assert forall|i: int| 0 <= i < 4 implies x_eqv(ext_view(#[trigger] corners@[i]), cs[i]) && x_wf(cs[i]) by {
            lemma_x_mul_wf(low_x(a.low), low_x(b.low));
            lemma_x_mul_wf(low_x(a.low), high_x(b.high));
            lemma_x_mul_wf(high_x(a.high), low_x(b.low));
            lemma_x_mul_wf(high_x(a.high), high_x(b.high));
        }
    }
    let r = from_corners(&corners);
    proof {
        let m = choose|m: int|
            0 <= m < corners@.len() && bound_at(r.low, ext_view(corners@[m])) && forall|i: int|
                0 <= i < corners@.len() ==> x_le(ext_view(corners@[m]), ext_view(#[trigger] corners@[i]));
        let n = choose|n: int|
            0 <= n < corners@.len() && bound_at(r.high, ext_view(corners@[n])) && forall|i: int|
                0 <= i < corners@.len() ==> x_le(ext_view(#[trigger] corners@[i]), ext_view(corners@[n]));
        assert forall|i: int| 0 <= i < 4 implies x_le(cs[m], #[trigger] cs[i]) by {
            lemma_x_eqv_le(ext_view(corners@[m]), cs[m], ext_view(corners@[i]));
            lemma_x_eqv_le(ext_view(corners@[i]), cs[i], cs[m]);
        }
        assert forall|i: int| 0 <= i < 4 implies x_le(#[trigger] cs[i], cs[n]) by {
            lemma_x_eqv_le(ext_view(corners@[n]), cs[n], ext_view(corners@[i]));
            lemma_x_eqv_le(ext_view(corners@[i]), cs[i], cs[n]);
        }
        assert(bound_near(r.low, cs[m]));
        assert(bound_near(r.high, cs[n]));
        assert forall|p: (int, int), q: (int, int)|
            frac_wf(p) && frac_wf(q) && a.contains(p) && b.contains(q) implies #[trigger] r.contains(frac_mul(p, q)) by {
            lemma_contains_x(*a, p);
            lemma_contains_x(*b, q);
            lemma_frac_mul_wf(p, q);
            let z = XVal::Fin(frac_mul(p, q));
            lemma_corners_bracket(low_x(a.low), high_x(a.high), low_x(b.low), high_x(b.high), p, q);
            let k = if x_le(cs[0], z) { 0int } else if x_le(cs[1], z) { 1int } else if x_le(cs[2], z) { 2int } else { 3int };
            lemma_x_le_trans(cs[m], cs[k], z);
            let j = if x_le(z, cs[0]) { 0int } else if x_le(z, cs[1]) { 1int } else if x_le(z, cs[2]) { 2int } else { 3int };
            lemma_x_le_trans(z, cs[j], cs[n]);
            if let XVal::Fin(w) = cs[m] {
                let lw = r.low->Incl_0;
                lemma_same_value_lt(lw@, w, frac_mul(p, q));
            }
            if let XVal::Fin(w) = cs[n] {
                let hw = r.high->Incl_0;
                lemma_same_value_lt(hw@, w, frac_mul(p, q));
            }
        }
    }
    r
}

/// The product of two whole numbers is whole, with the product of their
/// values.
proof fn lemma_whole_mul(p: (int, int), q: (int, int))
    requires
        frac_wf(p),
        frac_wf(q),
        is_whole(p),
        is_whole(q),
    ensures
        is_whole(frac_mul(p, q)),
        frac_mul(p, q).0 / frac_mul(p, q).1 == (p.0 / p.1) * (q.0 / q.1),
{
    lemma_dvd_witness(p.0, p.1);
    lemma_dvd_witness(q.0, q.1);
    let (k, m) = (p.0 / p.1, q.0 / q.1);
    let t = frac_mul(p, q);
    assert(t.1 > 0 && t.0 == (k * m) * t.1) by (nonlinear_arith)
        requires
            p.0 == k * p.1,
            q.0 == m * q.1,
            p.1 > 0,
            q.1 > 0,
            t == (p.0 * q.0, p.1 * q.1),
    ;
    lemma_mod_multiples_basic(k * m, t.1);
    assert((k * m) * t.1 == t.1 * (k * m)) by (nonlinear_arith);
    lemma_div_multiples_vanish(k * m, t.1);
}

/// `×` — the corner products of the intervals; the congruence survives only
/// for **scaling** by an exact integer. Every product of admitted numbers is
/// admitted.
pub fn abs_mul(x: &NumAbs, y: &NumAbs) -> (r: NumAbs)
    requires
        x.wf(),
        y.wf(),
    ensures
        r.wf(),
        exists|m: int| 0 <= m < 4 && bound_near(r.iv.low, corners_of(x.iv, y.iv)[m]) && forall|i: int|
            0 <= i < 4 ==> x_le(corners_of(x.iv, y.iv)[m], #[trigger] corners_of(x.iv, y.iv)[i]),
        exists|m: int| 0 <= m < 4 && bound_near(r.iv.high, corners_of(x.iv, y.iv)[m]) && forall|i: int|
            0 <= i < 4 ==> x_le(#[trigger] corners_of(x.iv, y.iv)[i], corners_of(x.iv, y.iv)[m]),
        r.cong is Some <==> (x.cong is Some && y.cong is Some && (y.cong->0.n@ == 0 || x.cong->0.n@ == 0)),
        forall|p: (int, int), q: (int, int)|
            frac_wf(p) && frac_wf(q) && x.admits(p) && y.admits(q) ==> #[trigger] r.admits(frac_mul(p, q)),
{
    let cong = match (&x.cong, &y.cong) {
        (Some(p), Some(q)) => if is_zero(&q.n) {
            Some(p.scale(&q.r))
        } else if is_zero(&p.n) {
            Some(q.scale(&p.r))
        } else {
            None
        },
        _ => None,
    };
    let r = NumAbs { iv: mul_iv(&x.iv, &y.iv), cong };
    proof {
        assert forall|p: (int, int), q: (int, int)|
            frac_wf(p) && frac_wf(q) && x.admits(p) && y.admits(q) implies #[trigger] r.admits(frac_mul(p, q)) by {
            if r.cong is Some {
                lemma_whole_mul(p, q);
                let (u, w) = (p.0 / p.1, q.0 / q.1);
                let (c, d) = (x.cong->0, y.cong->0);
                if d.n@ == 0 {
                    assert(r.cong->0.has(d.r@ * u));
                    assert(w == d.r@);
                    assert(d.r@ * u == u * w) by (nonlinear_arith)
                        requires
                            w == d.r@,
                    ;
                } else {
                    assert(r.cong->0.has(c.r@ * w));
                    assert(u == c.r@);
                    assert(c.r@ * w == u * w);
                }
            }
        }
    }
    r
}

// ── Quotients ────────────────────────────────────────────────────────────────

/// The quotient of two fractions, with a positive denominator when the
/// divisor is not zero.
pub open spec fn frac_div(p: (int, int), q: (int, int)) -> (int, int) {
    if q.0 > 0 {
        (p.0 * q.1, p.1 * q.0)
    } else {
        (-(p.0 * q.1), -(p.1 * q.0))
    }
}

/// The reciprocal of an extended number: `1/±∞ = 0`.
pub open spec fn x_recip(a: XVal) -> XVal {
    match a {
        XVal::Fin(q) => XVal::Fin(frac_div((1, 1), q)),
        _ => XVal::Fin((0, 1)),
    }
}

/// `x / y` extended: `None` at a zero divisor and at `∞/∞`, where quotients
/// run off without bound.
pub open spec fn x_div(a: XVal, b: XVal) -> Option<XVal> {
    if x_sign(b) == 0 {
        None
    } else {
        match (a, b) {
            (XVal::Fin(p), XVal::Fin(q)) => Some(XVal::Fin(frac_div(p, q))),
            (XVal::Fin(_), _) => Some(XVal::Fin((0, 1))),
            (_, XVal::Fin(_)) => Some(
                if x_sign(a) * x_sign(b) > 0 {
                    XVal::PosInf
                } else {
                    XVal::NegInf
                },
            ),
            _ => None,
        }
    }
}

proof fn lemma_frac_div(p: (int, int), q: (int, int))
    requires
        frac_wf(p),
        frac_wf(q),
        q.0 != 0,
    ensures
        frac_wf(frac_div(p, q)),
        frac_wf(frac_div((1, 1), q)),
        same_value(frac_div(p, q), frac_mul(p, frac_div((1, 1), q))),
        frac_div((1, 1), q).0 > 0 <==> q.0 > 0,
        frac_div((1, 1), q).0 != 0,
{
    let d = frac_div(p, q);
    let r = frac_div((1, 1), q);
    if q.0 > 0 {
        assert(p.1 * q.0 > 0) by (nonlinear_arith)
            requires
                p.1 > 0,
                q.0 > 0,
        ;
        assert(1 * q.0 > 0);
        assert((p.0 * q.1) * (p.1 * (1 * q.0)) == (p.0 * (1 * q.1)) * (p.1 * q.0)) by (nonlinear_arith);
    } else {
        assert(p.1 * q.0 < 0) by (nonlinear_arith)
            requires
                p.1 > 0,
                q.0 < 0,
        ;
        assert(-(p.0 * q.1) * (p.1 * -(1 * q.0)) == (p.0 * -(1 * q.1)) * -(p.1 * q.0)) by (nonlinear_arith);
    }
}

/// Reciprocals reverse the order within one side of zero.
proof fn lemma_recip_antitone(a: XVal, b: XVal)
    requires
        x_wf(a),
        x_wf(b),
        x_le(a, b),
        x_sign(a) > 0 || x_sign(b) < 0,
        x_sign(a) != 0 && x_sign(b) != 0,
    ensures
        x_wf(x_recip(a)),
        x_wf(x_recip(b)),
        x_le(x_recip(b), x_recip(a)),
{
    lemma_sign_mono(a, b);
    if let XVal::Fin(p) = a {
        lemma_frac_div((1, 1), p);
    }
    if let XVal::Fin(q) = b {
        lemma_frac_div((1, 1), q);
    }
    if let (XVal::Fin(p), XVal::Fin(q)) = (a, b) {
        // `p ≤ q` on one side of zero gives `1/q ≤ 1/p`.
        let (rp, rq) = (frac_div((1, 1), p), frac_div((1, 1), q));
        assert(!value_lt(rp, rq)) by (nonlinear_arith)
            requires
                p.1 > 0,
                q.1 > 0,
                p.0 * q.1 <= q.0 * p.1,
                p.0 > 0 && q.0 > 0 || p.0 < 0 && q.0 < 0,
                rp == (if p.0 > 0 { (1 * p.1, 1 * p.0) } else { (-(1 * p.1), -(1 * p.0)) }),
                rq == (if q.0 > 0 { (1 * q.1, 1 * q.0) } else { (-(1 * q.1), -(1 * q.0)) }),
                value_lt(rp, rq) == (rp.0 * rq.1 < rq.0 * rp.1),
        ;
    }
    if let XVal::Fin(p) = a {
        if b is PosInf {
            assert(frac_div((1, 1), p).0 > 0);
        }
    }
    if let XVal::Fin(q) = b {
        if a is NegInf {
            assert(frac_div((1, 1), q).0 < 0);
        }
    }
}

/// Whether `0` lies in the interval.
fn contains_zero(iv: &Interval) -> (r: bool)
    requires
        iv.wf(),
    ensures
        r == iv.contains((0, 1)),
{
    let zero = Rational::from(0);
    let above_low = match &iv.low {
        Bound::Unbounded => true,
        Bound::Incl(l) => l.le(&zero),
        Bound::Excl(l) => l.lt(&zero),
    };
    let below_high = match &iv.high {
        Bound::Unbounded => true,
        Bound::Incl(h) => zero.le(h),
        Bound::Excl(h) => zero.lt(h),
    };
    above_low && below_high
}

/// `x / y` extended; `None` when the corner is genuinely indeterminate.
fn div_ext(a: &Ext, b: &Ext) -> (r: Option<Ext>)
    requires
        ext_wf(*a),
        ext_wf(*b),
    ensures
        r is Some <==> x_div(ext_view(*a), ext_view(*b)) is Some,
        r matches Some(e) ==> ext_wf(e) && x_eqv(ext_view(e), x_div(ext_view(*a), ext_view(*b))->0),
{
    let sb = sign_of(b);
    if sb == 0 {
        return None;
    }
    match (a, b) {
        (Ext::Fin(x), Ext::Fin(y)) => {
            proof {
                lemma_zero_cmp(y@);
            }
            let d = x.div(y);
            proof {
                let (a0, a1) = (x@.0 * y@.1, x@.1 * y@.0);
                assert(d@.0 * (-a1) == (-a0) * d@.1) by (nonlinear_arith)
                    requires
                        d@.0 * a1 == a0 * d@.1,
                ;
            }
            Some(Ext::Fin(d))
        },
        (Ext::Fin(_), _) => Some(Ext::Fin(Rational::from(0))),
        (Ext::PosInf, Ext::Fin(_)) => Some(
            if sb > 0 {
                Ext::PosInf
            } else {
                Ext::NegInf
            },
        ),
        (Ext::NegInf, Ext::Fin(_)) => Some(
            if sb > 0 {
                Ext::NegInf
            } else {
                Ext::PosInf
            },
        ),
        _ => None,
    }
}

/// A defined extended quotient is the product with the reciprocal.
proof fn lemma_div_as_mul(a: XVal, b: XVal)
    requires
        x_wf(a),
        x_wf(b),
        x_div(a, b) is Some,
    ensures
        x_wf(x_div(a, b)->0),
        x_eqv(x_div(a, b)->0, x_mul(a, x_recip(b))),
{
    if let XVal::Fin(q) = b {
        lemma_frac_div((1, 1), q);
        if let XVal::Fin(p) = a {
            lemma_frac_div(p, q);
            lemma_frac_mul_wf(p, frac_div((1, 1), q));
        }
    } else {
        if let XVal::Fin(p) = a {
            assert(0 * (p.1 * 1) == (p.0 * 0) * 1) by (nonlinear_arith);
        }
    }
}

/// `/` — the numeric part of the image. A divisor that may be zero has no
/// bound (the caller adds the operation's Indeterminate form), nor does a
/// quotient whose corner is indeterminate (`∞/∞`, or a zero divisor
/// endpoint). Every quotient of admitted numbers is admitted.
pub fn abs_div(x: &NumAbs, y: &NumAbs) -> (r: NumAbs)
    requires
        x.wf(),
        y.wf(),
    ensures
        r.wf(),
        r.cong is None,
        y.iv.contains((0, 1)) ==> r.iv.low is Unbounded && r.iv.high is Unbounded,
        forall|p: (int, int), q: (int, int)|
            frac_wf(p) && frac_wf(q) && x.admits(p) && y.admits(q) ==> #[trigger] r.admits(frac_div(p, q)),
{
    if contains_zero(&y.iv) {
        return NumAbs::of(Interval::unbounded());
    }
    let (al, ah) = (low_ext(&x.iv.low), high_ext(&x.iv.high));
    let (bl, bh) = (low_ext(&y.iv.low), high_ext(&y.iv.high));
    let (d0, d1, d2, d3) = (div_ext(&al, &bl), div_ext(&al, &bh), div_ext(&ah, &bl), div_ext(&ah, &bh));
    match (d0, d1, d2, d3) {
        (Some(e0), Some(e1), Some(e2), Some(e3)) => {
            let corners = vec![e0, e1, e2, e3];
            let ghost (xl, xh, yl, yh) = (low_x(x.iv.low), high_x(x.iv.high), low_x(y.iv.low), high_x(y.iv.high));
            let ghost ms = seq![x_mul(xl, x_recip(yl)), x_mul(xl, x_recip(yh)), x_mul(xh, x_recip(yl)), x_mul(xh, x_recip(yh))];
            proof {
                lemma_div_as_mul(xl, yl);
                lemma_div_as_mul(xl, yh);
                lemma_div_as_mul(xh, yl);
                lemma_div_as_mul(xh, yh);
                assert forall|i: int| 0 <= i < 4 implies x_eqv(ext_view(#[trigger] corners@[i]), ms[i]) && x_wf(ms[i])
                    && x_wf(ext_view(corners@[i])) by {
                    let pairs = seq![(xl, yl), (xl, yh), (xh, yl), (xh, yh)];
                    let (u, v) = pairs[i];
                    lemma_div_as_mul(u, v);
                    if let XVal::Fin(t) = v {
                        lemma_frac_div((1, 1), t);
                    }
                    assert(x_wf(x_recip(v)));
                    lemma_x_mul_wf(u, x_recip(v));
                    let w = x_div(u, v)->0;
                    if let (XVal::Fin(a1), XVal::Fin(a2), XVal::Fin(a3)) = (ext_view(corners@[i]), w, ms[i]) {
                        crate::rational::lemma_same_value_transitive(a1, a2, a3);
                    }
                }
            }
            let iv = from_corners(&corners);
            let r = NumAbs::of(iv);
            proof {
                let m = choose|m: int|
                    0 <= m < corners@.len() && bound_at(iv.low, ext_view(corners@[m])) && forall|i: int|
                        0 <= i < corners@.len() ==> x_le(ext_view(corners@[m]), ext_view(#[trigger] corners@[i]));
                let n = choose|n: int|
                    0 <= n < corners@.len() && bound_at(iv.high, ext_view(corners@[n])) && forall|i: int|
                        0 <= i < corners@.len() ==> x_le(ext_view(#[trigger] corners@[i]), ext_view(corners@[n]));
                assert forall|p: (int, int), q: (int, int)|
                    frac_wf(p) && frac_wf(q) && x.admits(p) && y.admits(q) implies #[trigger] r.admits(frac_div(p, q)) by {
                    lemma_contains_x(x.iv, p);
                    lemma_contains_x(y.iv, q);
                    // The divisor's range lies on one side of zero.
                    lemma_zero_cmp(q);
                    if q.0 == 0 {
                        lemma_contains_same(y.iv, q, (0, 1));
                    }
                    let qq = XVal::Fin(q);
                    lemma_sign_mono(yl, qq);
                    lemma_sign_mono(qq, yh);
                    if x_sign(yl) < 0 && x_sign(yh) > 0 {
                        lemma_zero_cmp_bounds(y.iv);
                    }
                    lemma_recip_antitone(yl, qq);
                    lemma_recip_antitone(qq, yh);
                    let rq = frac_div((1, 1), q);
                    lemma_frac_div(p, q);
                    lemma_frac_mul_wf(p, rq);
                    lemma_corners_bracket(xl, xh, x_recip(yh), x_recip(yl), p, rq);
                    let z = XVal::Fin(frac_mul(p, rq));
                    let zd = XVal::Fin(frac_div(p, q));
                    // The bracketing corners, in the order of `ms`.
                    let k = if x_le(ms[1], z) { 1int } else if x_le(ms[0], z) { 0int } else if x_le(ms[3], z) { 3int } else { 2int };
                    lemma_x_eqv_le(ext_view(corners@[k]), ms[k], z);
                    lemma_x_le_trans(ext_view(corners@[m]), ext_view(corners@[k]), z);
                    let j = if x_le(z, ms[1]) { 1int } else if x_le(z, ms[0]) { 0int } else if x_le(z, ms[3]) { 3int } else { 2int };
                    lemma_x_eqv_le(ext_view(corners@[j]), ms[j], z);
                    lemma_x_le_trans(z, ext_view(corners@[j]), ext_view(corners@[n]));
                    lemma_x_eqv_le(z, zd, ext_view(corners@[m]));
                    lemma_x_eqv_le(z, zd, ext_view(corners@[n]));
                }
            }
            r
        },
        _ => NumAbs::of(Interval::unbounded()),
    }
}

/// Membership does not see the difference between equal values.
proof fn lemma_contains_same(iv: Interval, p: (int, int), q: (int, int))
    requires
        iv.wf(),
        frac_wf(p),
        frac_wf(q),
        same_value(p, q),
    ensures
        iv.contains(p) <==> iv.contains(q),
{
    match iv.low {
        Bound::Incl(v) => lemma_same_value_lt(p, q, v@),
        Bound::Excl(v) => lemma_same_value_lt(p, q, v@),
        Bound::Unbounded => {},
    }
    match iv.high {
        Bound::Incl(v) => lemma_same_value_lt(p, q, v@),
        Bound::Excl(v) => lemma_same_value_lt(p, q, v@),
        Bound::Unbounded => {},
    }
}

/// An interval whose ends lie on either side of zero holds zero.
proof fn lemma_zero_cmp_bounds(iv: Interval)
    requires
        iv.wf(),
        x_sign(low_x(iv.low)) < 0,
        x_sign(high_x(iv.high)) > 0,
    ensures
        iv.contains((0, 1)),
{
    if let Bound::Incl(v) = iv.low {
        lemma_zero_cmp(v@);
    }
    if let Bound::Excl(v) = iv.low {
        lemma_zero_cmp(v@);
    }
    if let Bound::Incl(v) = iv.high {
        lemma_zero_cmp(v@);
    }
    if let Bound::Excl(v) = iv.high {
        lemma_zero_cmp(v@);
    }
}

// ── Exact readings and remainders ────────────────────────────────────────────

/// The forms whose extent is exactly an interval: the bounds, and
/// intersections of such.
pub open spec fn interval_form(c: Contract) -> bool
    decreases c,
{
    match c {
        Contract::Range(_, _) => true,
        Contract::Greater(_) => true,
        Contract::GreaterEq(_) => true,
        Contract::Less(_) => true,
        Contract::LessEq(_) => true,
        Contract::Intersection(a, b) => interval_form(*a) && interval_form(*b),
        _ => false,
    }
}

/// The interval **exactly denoting** `c`, or `None` when this form's extent
/// cannot be stated exactly as an interval — sound for subset and
/// disjointness testing, where widening would make `⊑` wrongly true.
pub fn interval_exact(c: &Contract) -> (r: Option<Interval>)
    ensures
        r is Some <==> interval_form(*c),
        r matches Some(iv) ==> iv.wf() && forall|q: (int, int)| frac_wf(q) ==> (#[trigger] iv.contains(q) <==> c.admits_number(q)),
    decreases c,
{
    match c {
        Contract::Range(lo, hi) => Some(Interval { low: Bound::Incl(lo.clone()), high: Bound::Incl(hi.clone()) }),
        Contract::Greater(m) => Some(Interval { low: Bound::Excl(m.clone()), high: Bound::Unbounded }),
        Contract::GreaterEq(m) => Some(Interval { low: Bound::Incl(m.clone()), high: Bound::Unbounded }),
        Contract::Less(m) => Some(Interval { low: Bound::Unbounded, high: Bound::Excl(m.clone()) }),
        Contract::LessEq(m) => Some(Interval { low: Bound::Unbounded, high: Bound::Incl(m.clone()) }),
        // Landing zones: an intersection of intervals is their meet.
        Contract::Intersection(a, b) => {
            let x = match interval_exact(a) {
                Some(x) => x,
                None => {
                    return None;
                },
            };
            let y = match interval_exact(b) {
                Some(y) => y,
                None => {
                    return None;
                },
            };
            Some(meet(x, y))
        },
        _ => None,
    }
}

/// The magnitude of a rational.
fn abs_rat(v: &Rational) -> (r: Rational)
    requires
        v.wf(),
    ensures
        r.wf(),
        r@ == (if v@.0 < 0 { -v@.0 } else { v@.0 }, v@.1),
{
    let zero = Rational::from(0);
    proof {
        lemma_zero_cmp(v@);
    }
    if v.lt(&zero) {
        v.neg()
    } else {
        v.clone()
    }
}

/// The magnitude of a fraction.
pub open spec fn frac_abs(p: (int, int)) -> (int, int) {
    (if p.0 < 0 { -p.0 } else { p.0 }, p.1)
}

/// The largest magnitude over an interval, when both endpoints are finite.
fn max_abs(iv: &Interval) -> (r: Option<Rational>)
    requires
        iv.wf(),
    ensures
        r is Some <==> !(iv.low is Unbounded) && !(iv.high is Unbounded),
        r matches Some(m) ==> m.wf() && forall|q: (int, int)|
            frac_wf(q) && #[trigger] iv.contains(q) ==> !value_lt(m@, frac_abs(q)),
{
    let (l, h) = match (&iv.low, &iv.high) {
        (Bound::Incl(l), Bound::Incl(h)) => (l, h),
        (Bound::Incl(l), Bound::Excl(h)) => (l, h),
        (Bound::Excl(l), Bound::Incl(h)) => (l, h),
        (Bound::Excl(l), Bound::Excl(h)) => (l, h),
        _ => {
            return None;
        },
    };
    let (la, ha) = (abs_rat(l), abs_rat(h));
    let m = if ha.lt(&la) {
        la
    } else {
        ha
    };
    proof {
        assert forall|q: (int, int)| frac_wf(q) && #[trigger] iv.contains(q) implies !value_lt(m@, frac_abs(q)) by {
            lemma_abs_between(l@, h@, q);
            if !value_lt(la@, frac_abs(q)) {
                lemma_le_trans(frac_abs(q), la@, m@);
            } else {
                lemma_le_trans(frac_abs(q), ha@, m@);
            }
        }
    }
    Some(m)
}

/// A number between `l` and `h` is no larger in magnitude than the larger
/// of theirs.
proof fn lemma_abs_between(l: (int, int), h: (int, int), q: (int, int))
    requires
        frac_wf(l),
        frac_wf(h),
        frac_wf(q),
        !value_lt(q, l),
        !value_lt(h, q),
    ensures
        !value_lt(frac_abs(l), frac_abs(q)) || !value_lt(frac_abs(h), frac_abs(q)),
{
    assert(!value_lt(frac_abs(l), frac_abs(q)) || !value_lt(frac_abs(h), frac_abs(q))) by (nonlinear_arith)
        requires
            l.1 > 0,
            h.1 > 0,
            q.1 > 0,
            l.0 * q.1 <= q.0 * l.1,
            q.0 * h.1 <= h.0 * q.1,
            value_lt(frac_abs(l), frac_abs(q)) == (frac_abs(l).0 * q.1 < frac_abs(q).0 * l.1),
            value_lt(frac_abs(h), frac_abs(q)) == (frac_abs(h).0 * q.1 < frac_abs(q).0 * h.1),
            frac_abs(l) == (if l.0 < 0 { -l.0 } else { l.0 }, l.1),
            frac_abs(h) == (if h.0 < 0 { -h.0 } else { h.0 }, h.1),
            frac_abs(q) == (if q.0 < 0 { -q.0 } else { q.0 }, q.1),
    ;
}

/// Which side of zero an interval is confined to.
#[derive(PartialEq, Eq, Clone, Copy, Structural)]
pub enum SignClass {
    NonNeg,
    NonPos,
    Unknown,
}

/// The bound's value is at or above zero (an unbounded bound is not).
pub open spec fn bound_nonneg(b: Bound) -> bool {
    match b {
        Bound::Incl(l) => !value_lt(l@, (0, 1)),
        Bound::Excl(l) => !value_lt(l@, (0, 1)),
        Bound::Unbounded => false,
    }
}

/// The bound's value is at or below zero (an unbounded bound is not).
pub open spec fn bound_nonpos(b: Bound) -> bool {
    match b {
        Bound::Incl(h) => !value_lt((0, 1), h@),
        Bound::Excl(h) => !value_lt((0, 1), h@),
        Bound::Unbounded => false,
    }
}

fn sign_class(iv: &Interval) -> (r: SignClass)
    requires
        iv.wf(),
    ensures
        r == if bound_nonneg(iv.low) {
            SignClass::NonNeg
        } else if bound_nonpos(iv.high) {
            SignClass::NonPos
        } else {
            SignClass::Unknown
        },
        r is NonNeg ==> forall|q: (int, int)| frac_wf(q) && #[trigger] iv.contains(q) ==> q.0 >= 0,
        r is NonPos ==> forall|q: (int, int)| frac_wf(q) && #[trigger] iv.contains(q) ==> q.0 <= 0,
{
    let zero = Rational::from(0);
    let non_neg = match &iv.low {
        Bound::Incl(l) => zero.le(l),
        Bound::Excl(l) => zero.le(l),
        Bound::Unbounded => false,
    };
    if non_neg {
        proof {
            assert forall|q: (int, int)| frac_wf(q) && #[trigger] iv.contains(q) implies q.0 >= 0 by {
                let l = match iv.low {
                    Bound::Incl(l) => l,
                    Bound::Excl(l) => l,
                    Bound::Unbounded => zero,
                };
                lemma_le_trans((0, 1), l@, q);
                lemma_zero_cmp(q);
            }
        }
        return SignClass::NonNeg;
    }
    let non_pos = match &iv.high {
        Bound::Incl(h) => h.le(&zero),
        Bound::Excl(h) => h.le(&zero),
        Bound::Unbounded => false,
    };
    if non_pos {
        proof {
            assert forall|q: (int, int)| frac_wf(q) && #[trigger] iv.contains(q) implies q.0 <= 0 by {
                let h = match iv.high {
                    Bound::Incl(h) => h,
                    Bound::Excl(h) => h,
                    Bound::Unbounded => zero,
                };
                lemma_le_trans(q, h@, (0, 1));
                lemma_zero_cmp(q);
            }
        }
        return SignClass::NonPos;
    }
    SignClass::Unknown
}

/// A remainder of `x` by `y`, by its two defining facts: smaller in
/// magnitude than the divisor, and on the dividend's side of zero.
pub open spec fn remainder_like(x: (int, int), y: (int, int), r: (int, int)) -> bool {
    &&& value_lt(frac_abs(r), frac_abs(y))
    &&& x.0 >= 0 ==> r.0 >= 0
    &&& x.0 <= 0 ==> r.0 <= 0
}

/// `%` — `|r| < |y|` with the **sign following the dividend** (truncation
/// toward zero). Every remainder-like value of admitted operands is admitted.
pub fn abs_rem(x: &NumAbs, y: &NumAbs) -> (r: NumAbs)
    requires
        x.wf(),
        y.wf(),
    ensures
        r.wf(),
        r.cong is None,
        forall|p: (int, int), q: (int, int), t: (int, int)|
            frac_wf(p) && frac_wf(q) && frac_wf(t) && x.admits(p) && y.admits(q) && #[trigger] remainder_like(p, q, t)
                ==> r.admits(t),
{
    let zero = Rational::from(0);
    let bound = max_abs(&y.iv);
    let cls = sign_class(&x.iv);
    let (lo, hi) = match cls {
        SignClass::NonNeg => (
            Bound::Incl(zero),
            match bound {
                Some(m) => Bound::Excl(m),
                None => Bound::Unbounded,
            },
        ),
        SignClass::NonPos => (
            match bound {
                Some(m) => Bound::Excl(m.neg()),
                None => Bound::Unbounded,
            },
            Bound::Incl(zero),
        ),
        SignClass::Unknown => match bound {
            Some(m) => (Bound::Excl(m.neg()), Bound::Excl(m)),
            None => (Bound::Unbounded, Bound::Unbounded),
        },
    };
    let r = NumAbs::of(Interval { low: lo, high: hi });
    proof {
        assert forall|p: (int, int), q: (int, int), t: (int, int)|
            frac_wf(p) && frac_wf(q) && frac_wf(t) && x.admits(p) && y.admits(q) && #[trigger] remainder_like(
                p,
                q,
                t,
            ) implies r.admits(t) by {
            lemma_zero_cmp(t);
            if let Some(m) = bound {
                // |t| < |q| ≤ m
                lemma_lt_le_trans(frac_abs(t), frac_abs(q), m@);
                lemma_abs_bounds(t, m@);
            }
        }
    }
    r
}

/// A number smaller in magnitude than `m` lies strictly between `-m` and `m`.
proof fn lemma_abs_bounds(t: (int, int), m: (int, int))
    requires
        frac_wf(t),
        frac_wf(m),
        value_lt(frac_abs(t), m),
    ensures
        value_lt(t, m),
        value_lt(frac_neg(m), t),
{
    assert(value_lt(t, m) && value_lt(frac_neg(m), t)) by (nonlinear_arith)
        requires
            t.1 > 0,
            m.1 > 0,
            frac_abs(t) == (if t.0 < 0 { -t.0 } else { t.0 }, t.1),
            frac_abs(t).0 * m.1 < m.0 * frac_abs(t).1,
            value_lt(t, m) == (t.0 * m.1 < m.0 * t.1),
            value_lt(frac_neg(m), t) == ((-m.0) * t.1 < t.0 * m.1),
    ;
}

} // verus!
