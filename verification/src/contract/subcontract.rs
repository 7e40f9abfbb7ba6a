//! The three-valued subcontract `A ⊑ B`: `Proven` when every member of `A`
//! is a member of `B`, `Refuted` with a witness in `A` but not in `B`, and
//! `Unproven` otherwise.
//!
//! The proof side uses sound structural rules and decidable atom rules; the
//! refutation side samples candidate members of `A` and checks each against
//! the membership of both contracts.

use super::membership::{denotes, first_entry, mod_has, number_of};
use super::{congruent, is_whole, Contract, IndetForm, Kind};
use crate::bignum::{big_eq, big_from_i64, big_lt, big_mod_floor, big_neg, big_sub, BigNum};
use crate::rational::{frac_wf, same_value, value_lt, Rational};
use crate::text::{str_utf16, units_eq, utf16_of};
use crate::interner::{record_key_of, Interner};
use crate::value::{RecordEntry, ValueData, ValueKey, ValueRef};
use vstd::prelude::*;

verus! {

// ── What the verdicts rest on ────────────────────────────────────────────────

/// Every bound of a numeric form has a positive denominator.
pub open spec fn rats_wf(c: Contract) -> bool
    decreases c,
{
    match c {
        Contract::Range(l, h) => frac_wf(l@) && frac_wf(h@),
        Contract::Greater(m) | Contract::GreaterEq(m) | Contract::Less(m) | Contract::LessEq(m) => frac_wf(m@),
        Contract::Geo { b, r } => frac_wf(b@) && frac_wf(r@),
        Contract::Union(a, b) | Contract::Intersection(a, b) | Contract::Difference(a, b)
        | Contract::LengthRestricted(a, b) => rats_wf(*a) && rats_wf(*b),
        Contract::Record(fs) => forall|j: int| 0 <= j < fs@.len() ==> rats_wf((#[trigger] fs@[j]).1),
        Contract::Tuple(es) => forall|j: int| 0 <= j < es@.len() ==> rats_wf(#[trigger] es@[j]),
        Contract::Concat(es) => forall|j: int| 0 <= j < es@.len() ==> rats_wf(#[trigger] es@[j]),
        _ => true,
    }
}

/// No record form of `c` names a key twice.
pub open spec fn keys_distinct(c: Contract) -> bool
    decreases c,
{
    match c {
        Contract::Record(fs) => (forall|j: int, l: int|
            0 <= j < l < fs@.len() ==> utf16_of((#[trigger] fs@[j]).0@) != utf16_of((#[trigger] fs@[l]).0@))
            && forall|j: int| 0 <= j < fs@.len() ==> keys_distinct((#[trigger] fs@[j]).1),
        Contract::Union(a, b) | Contract::Intersection(a, b) | Contract::Difference(a, b)
        | Contract::LengthRestricted(a, b) => keys_distinct(*a) && keys_distinct(*b),
        Contract::Tuple(es) => forall|j: int| 0 <= j < es@.len() ==> keys_distinct(#[trigger] es@[j]),
        Contract::Concat(es) => forall|j: int| 0 <= j < es@.len() ==> keys_distinct(#[trigger] es@[j]),
        _ => true,
    }
}

/// The singletons of `c` are values of `s`.
pub open spec fn singles_in(s: Set<ValueRef>, c: Contract) -> bool
    decreases c,
{
    match c {
        Contract::Equals(x) => s.contains(x),
        Contract::Union(a, b) | Contract::Intersection(a, b) | Contract::Difference(a, b)
        | Contract::LengthRestricted(a, b) => singles_in(s, *a) && singles_in(s, *b),
        Contract::Record(fs) => forall|j: int| 0 <= j < fs@.len() ==> singles_in(s, (#[trigger] fs@[j]).1),
        Contract::Tuple(es) => forall|j: int| 0 <= j < es@.len() ==> singles_in(s, #[trigger] es@[j]),
        Contract::Concat(es) => forall|j: int| 0 <= j < es@.len() ==> singles_in(s, #[trigger] es@[j]),
        _ => true,
    }
}

/// The elements of an aggregate `w` are values of `s`.
pub open spec fn children_in(s: Set<ValueRef>, w: ValueRef) -> bool {
    match w.data_spec() {
        ValueData::Tuple(items) => forall|i: int| 0 <= i < items@.len() ==> s.contains(#[trigger] items@[i]),
        ValueData::Record(es) => forall|i: int| 0 <= i < es@.len() ==> s.contains((#[trigger] es@[i]).value),
        _ => true,
    }
}

/// A world of values the verdicts speak of: closed under taking elements,
/// its numbers have positive denominators, and a handle names one value.
pub open spec fn world(s: Set<ValueRef>) -> bool {
    &&& forall|w: ValueRef| #[trigger] s.contains(w) ==> (number_of(w) matches Some(q) ==> frac_wf(q)) && children_in(s, w)
    &&& forall|w1: ValueRef, w2: ValueRef|
        #[trigger] s.contains(w1) && #[trigger] s.contains(w2) && w1.handle() == w2.handle() ==> w1 == w2
}

/// In every world holding the singletons of `a` and `b`, every member of `a`
/// is a member of `b`.
pub open spec fn sub_on(a: Contract, b: Contract) -> bool {
    forall|s: Set<ValueRef>, v: ValueRef|
        #![trigger world(s), denotes(a, v), s.contains(v)]
        world(s) && singles_in(s, a) && singles_in(s, b) && s.contains(v) && denotes(a, v) ==> denotes(b, v)
}

/// In every world holding the singletons of `a` and `b`, no value is in
/// both.
pub open spec fn disjoint_on(a: Contract, b: Contract) -> bool {
    forall|s: Set<ValueRef>, v: ValueRef|
        #![trigger world(s), denotes(a, v), s.contains(v)]
        world(s) && singles_in(s, a) && singles_in(s, b) && s.contains(v) ==> !(denotes(a, v) && denotes(b, v))
}

/// In every world holding the singletons of `c`, no value is in `c`.
pub open spec fn empty_on(c: Contract) -> bool {
    forall|s: Set<ValueRef>, v: ValueRef|
        #![trigger world(s), denotes(c, v), s.contains(v)]
        world(s) && singles_in(s, c) && s.contains(v) ==> !denotes(c, v)
}

// ── Order of fractions ───────────────────────────────────────────────────────

/// `<` on fractions with positive denominators is a strict order that
/// respects equal values.
proof fn lemma_order(p: (int, int), q: (int, int), r: (int, int))
    requires
        frac_wf(p),
        frac_wf(q),
        frac_wf(r),
    ensures
        value_lt(p, q) && value_lt(q, r) ==> value_lt(p, r),
        value_lt(p, q) && !value_lt(r, q) ==> value_lt(p, r),
        !value_lt(q, p) && value_lt(q, r) ==> value_lt(p, r),
        !value_lt(q, p) && !value_lt(r, q) ==> !value_lt(r, p),
        value_lt(p, q) ==> !value_lt(q, p),
        !value_lt(p, q) && !value_lt(q, p) <==> same_value(p, q),
{
    let (a, b, c, d, e, f) = (p.0, p.1, q.0, q.1, r.0, r.1);
    // p = a/b, q = c/d, r = e/f with b, d, f > 0.
    assert(a * d < c * b && c * f < e * d ==> a * f < e * b) by (nonlinear_arith)
        requires
            b > 0,
            d > 0,
            f > 0,
    {
        if a * d < c * b && c * f < e * d {
            assert(a * d * f < c * b * f);
            assert(c * f * b < e * d * b);
            assert(a * f * d < e * b * d);
        }
    }
    assert(a * d < c * b && c * f <= e * d ==> a * f < e * b) by (nonlinear_arith)
        requires
            b > 0,
            d > 0,
            f > 0,
    {
        if a * d < c * b && c * f <= e * d {
            assert(a * d * f < c * b * f);
            assert(c * f * b <= e * d * b);
            assert(a * f * d < e * b * d);
        }
    }
    assert(a * d <= c * b && c * f < e * d ==> a * f < e * b) by (nonlinear_arith)
        requires
            b > 0,
            d > 0,
            f > 0,
    {
        if a * d <= c * b && c * f < e * d {
            assert(a * d * f <= c * b * f);
            assert(c * f * b < e * d * b);
            assert(a * f * d < e * b * d);
        }
    }
    assert(a * d <= c * b && c * f <= e * d ==> a * f <= e * b) by (nonlinear_arith)
        requires
            b > 0,
            d > 0,
            f > 0,
    {
        if a * d <= c * b && c * f <= e * d {
            assert(a * d * f <= c * b * f);
            assert(c * f * b <= e * d * b);
            assert(a * f * d <= e * b * d);
        }
    }
}

// ── Intervals ────────────────────────────────────────────────────────────────

/// One end of a numeric interval.
pub enum Bound {
    Unbounded,
    Incl(Rational),
    Excl(Rational),
}

/// A numeric interval.
pub struct Interval {
    pub low: Bound,
    pub high: Bound,
}

pub open spec fn bound_wf(b: Bound) -> bool {
    match b {
        Bound::Incl(x) | Bound::Excl(x) => frac_wf(x@),
        Bound::Unbounded => true,
    }
}

/// `q` is at or above the lower bound.
pub open spec fn low_ok(q: (int, int), b: Bound) -> bool {
    match b {
        Bound::Unbounded => true,
        Bound::Incl(l) => !value_lt(q, l@),
        Bound::Excl(l) => value_lt(l@, q),
    }
}

/// `q` is at or below the upper bound.
pub open spec fn high_ok(q: (int, int), b: Bound) -> bool {
    match b {
        Bound::Unbounded => true,
        Bound::Incl(h) => !value_lt(h@, q),
        Bound::Excl(h) => value_lt(q, h@),
    }
}

pub open spec fn interval_wf(iv: Interval) -> bool {
    bound_wf(iv.low) && bound_wf(iv.high)
}

pub open spec fn in_interval(q: (int, int), iv: Interval) -> bool {
    low_ok(q, iv.low) && high_ok(q, iv.high)
}

/// `iv` is exactly the numbers of `c`.
pub open spec fn interval_is(c: Contract, iv: Interval) -> bool {
    &&& interval_wf(iv)
    &&& forall|v: ValueRef|
        (number_of(v) matches Some(q) ==> frac_wf(q)) ==> (#[trigger] denotes(c, v) <==> (number_of(v) matches Some(
            q,
        ) && in_interval(q, iv)))
}

/// The interval a numeric-interval contract denotes, through intersections.
fn interval_of(c: &Contract) -> (r: Option<Interval>)
    requires
        rats_wf(*c),
    ensures
        r matches Some(iv) ==> interval_rule(*c) == Some(sinterval(iv)),
        r is Some <==> interval_rule(*c) is Some,
        r matches Some(iv) ==> interval_is(*c, iv),
    decreases c,
{
    match c {
        Contract::Range(lo, hi) => Some(Interval { low: Bound::Incl(lo.clone()), high: Bound::Incl(hi.clone()) }),
        Contract::Greater(m) => Some(Interval { low: Bound::Excl(m.clone()), high: Bound::Unbounded }),
        Contract::GreaterEq(m) => Some(Interval { low: Bound::Incl(m.clone()), high: Bound::Unbounded }),
        Contract::Less(m) => Some(Interval { low: Bound::Unbounded, high: Bound::Excl(m.clone()) }),
        Contract::LessEq(m) => Some(Interval { low: Bound::Unbounded, high: Bound::Incl(m.clone()) }),
        Contract::Intersection(a, b) => {
            let ia = match interval_of(a) {
                Some(x) => x,
                None => {
                    return None;
                },
            };
            let ib = match interval_of(b) {
                Some(x) => x,
                None => {
                    return None;
                },
            };
            let m = meet(ia, ib);
            proof {
                assert forall|v: ValueRef|
                    (number_of(v) matches Some(q) ==> frac_wf(q)) implies (#[trigger] denotes(*c, v) <==> (number_of(
                    v,
                ) matches Some(q) && in_interval(q, m))) by {
                    assert(denotes(*c, v) == (denotes(**a, v) && denotes(**b, v)));
                    if let Some(q) = number_of(v) {
                        assert(in_interval(q, m) == (in_interval(q, ia) && in_interval(q, ib)));
                    }
                }
            }
            Some(m)
        },
        _ => None,
    }
}

/// The lower bound `a` starts at or above `b`.
fn low_ge(a: &Bound, b: &Bound) -> (r: bool)
    requires
        bound_wf(*a),
        bound_wf(*b),
    ensures
        r == low_ge_rule(sbound(*a), sbound(*b)),
        r ==> forall|q: (int, int)| frac_wf(q) && #[trigger] low_ok(q, *a) ==> low_ok(q, *b),
        !r ==> forall|q: (int, int)| frac_wf(q) && #[trigger] low_ok(q, *b) ==> low_ok(q, *a),
{
    match (a, b) {
        (_, Bound::Unbounded) => true,
        (Bound::Unbounded, _) => false,
        (Bound::Incl(va), Bound::Incl(vb)) | (Bound::Excl(va), Bound::Excl(vb)) => {
            let r = vb.lt(va) || va.eq_value(vb);
            proof {
                assert forall|q: (int, int)| frac_wf(q) implies (r ==> (low_ok(q, *a) ==> low_ok(q, *b))) && (!r ==> (
                low_ok(q, *b) ==> low_ok(q, *a))) by {
                    lemma_order(q, va@, vb@);
                    lemma_order(vb@, va@, q);
                    lemma_order(va@, vb@, q);
                    lemma_order(q, vb@, va@);
                }
            }
            r
        },
        (Bound::Incl(va), Bound::Excl(vb)) => {
            let r = vb.lt(va);
            proof {
                assert forall|q: (int, int)| frac_wf(q) implies (r ==> (low_ok(q, *a) ==> low_ok(q, *b))) && (!r ==> (
                low_ok(q, *b) ==> low_ok(q, *a))) by {
                    lemma_order(vb@, va@, q);
                    lemma_order(va@, vb@, q);
                }
            }
            r
        },
        (Bound::Excl(va), Bound::Incl(vb)) => {
            let r = vb.lt(va) || va.eq_value(vb);
            proof {
                assert forall|q: (int, int)| frac_wf(q) implies (r ==> (low_ok(q, *a) ==> low_ok(q, *b))) && (!r ==> (
                low_ok(q, *b) ==> low_ok(q, *a))) by {
                    lemma_order(vb@, va@, q);
                    lemma_order(va@, vb@, q);
                    lemma_order(q, vb@, va@);
                }
            }
            r
        },
    }
}

/// The upper bound `a` ends at or below `b`.
fn high_le(a: &Bound, b: &Bound) -> (r: bool)
    requires
        bound_wf(*a),
        bound_wf(*b),
    ensures
        r == high_le_rule(sbound(*a), sbound(*b)),
        r ==> forall|q: (int, int)| frac_wf(q) && #[trigger] high_ok(q, *a) ==> high_ok(q, *b),
        !r ==> forall|q: (int, int)| frac_wf(q) && #[trigger] high_ok(q, *b) ==> high_ok(q, *a),
{
    match (a, b) {
        (_, Bound::Unbounded) => true,
        (Bound::Unbounded, _) => false,
        (Bound::Incl(va), Bound::Incl(vb)) | (Bound::Excl(va), Bound::Excl(vb)) => {
            let r = va.lt(vb) || va.eq_value(vb);
            proof {
                assert forall|q: (int, int)| frac_wf(q) implies (r ==> (high_ok(q, *a) ==> high_ok(q, *b))) && (!r ==> (
                high_ok(q, *b) ==> high_ok(q, *a))) by {
                    lemma_order(q, va@, vb@);
                    lemma_order(q, vb@, va@);
                    lemma_order(va@, vb@, q);
                    lemma_order(vb@, va@, q);
                }
            }
            r
        },
        (Bound::Incl(va), Bound::Excl(vb)) => {
            let r = va.lt(vb);
            proof {
                assert forall|q: (int, int)| frac_wf(q) implies (r ==> (high_ok(q, *a) ==> high_ok(q, *b))) && (!r ==> (
                high_ok(q, *b) ==> high_ok(q, *a))) by {
                    lemma_order(q, va@, vb@);
                    lemma_order(q, vb@, va@);
                }
            }
            r
        },
        (Bound::Excl(va), Bound::Incl(vb)) => {
            let r = va.lt(vb) || va.eq_value(vb);
            proof {
                assert forall|q: (int, int)| frac_wf(q) implies (r ==> (high_ok(q, *a) ==> high_ok(q, *b))) && (!r ==> (
                high_ok(q, *b) ==> high_ok(q, *a))) by {
                    lemma_order(q, va@, vb@);
                    lemma_order(q, vb@, va@);
                    lemma_order(vb@, va@, q);
                }
            }
            r
        },
    }
}

/// The intersection of two intervals: the higher low, the lower high.
fn meet(a: Interval, b: Interval) -> (r: Interval)
    requires
        interval_wf(a),
        interval_wf(b),
    ensures
        sinterval(r) == meet_rule(sinterval(a), sinterval(b)),
        interval_wf(r),
        forall|q: (int, int)| frac_wf(q) ==> (#[trigger] in_interval(q, r) <==> in_interval(q, a) && in_interval(q, b)),
{
    let lge = low_ge(&a.low, &b.low);
    let hle = high_le(&a.high, &b.high);
    let Interval { low: al, high: ah } = a;
    let Interval { low: bl, high: bh } = b;
    let low = if lge {
        al
    } else {
        bl
    };
    let high = if hle {
        ah
    } else {
        bh
    };
    Interval { low, high }
}

/// Every number of `a` is in `b`.
fn interval_subset(a: &Interval, b: &Interval) -> (r: bool)
    requires
        interval_wf(*a),
        interval_wf(*b),
    ensures
        r == (low_ge_rule(sbound(a.low), sbound(b.low)) && high_le_rule(sbound(a.high), sbound(b.high))),
        r ==> forall|q: (int, int)| frac_wf(q) && #[trigger] in_interval(q, *a) ==> in_interval(q, *b),
{
    low_ge(&a.low, &b.low) && high_le(&a.high, &b.high)
}

/// The upper bound `h` lies strictly below the lower bound `l`: no number
/// meets both.
fn below(h: &Bound, l: &Bound) -> (r: bool)
    requires
        bound_wf(*h),
        bound_wf(*l),
    ensures
        r == below_rule(sbound(*h), sbound(*l)),
        r ==> forall|q: (int, int)| frac_wf(q) ==> !(#[trigger] high_ok(q, *h) && low_ok(q, *l)),
{
    match (h, l) {
        (Bound::Unbounded, _) | (_, Bound::Unbounded) => false,
        (Bound::Incl(vh), Bound::Incl(vl)) => {
            let r = vh.lt(vl);
            proof {
                assert forall|q: (int, int)| frac_wf(q) implies r ==> !(high_ok(q, *h) && low_ok(q, *l)) by {
                    lemma_order(q, vh@, vl@);
                    lemma_order(vh@, q, vl@);
                    lemma_order(vh@, vl@, q);
                }
            }
            r
        },
        (Bound::Incl(vh), Bound::Excl(vl)) | (Bound::Excl(vh), Bound::Incl(vl)) | (Bound::Excl(vh), Bound::Excl(vl)) => {
            let r = vh.lt(vl) || vh.eq_value(vl);
            proof {
                assert forall|q: (int, int)| frac_wf(q) implies r ==> !(high_ok(q, *h) && low_ok(q, *l)) by {
                    lemma_order(q, vh@, vl@);
                    lemma_order(vh@, q, vl@);
                    lemma_order(vh@, vl@, q);
                    lemma_order(vl@, vh@, q);
                    lemma_order(q, vl@, vh@);
                    lemma_order(vl@, q, vh@);
                }
            }
            r
        },
    }
}

fn intervals_disjoint(a: &Interval, b: &Interval) -> (r: bool)
    requires
        interval_wf(*a),
        interval_wf(*b),
    ensures
        r == (below_rule(sbound(a.high), sbound(b.low)) || below_rule(sbound(b.high), sbound(a.low))),
        r ==> forall|q: (int, int)| frac_wf(q) ==> !(#[trigger] in_interval(q, *a) && in_interval(q, *b)),
{
    below(&a.high, &b.low) || below(&b.high, &a.low)
}


// ── Keys of records ──────────────────────────────────────────────────────────

/// The first entry with key `k` from `s` on has that key.
proof fn lemma_first_entry(es: Seq<RecordEntry>, k: Seq<u16>, s: int)
    ensures
        first_entry(es, k, s) matches Some(i) ==> s <= i < es.len() && es[i].key@ == k,
    decreases es.len() - s,
{
    if 0 <= s < es.len() && es[s].key@ != k {
        lemma_first_entry(es, k, s + 1);
    }
}

/// `n` distinct positions below `n` take every position below `n`.
proof fn lemma_cover(idx: Seq<int>, n: int, t: int)
    requires
        idx.len() == n,
        forall|j: int| 0 <= j < n ==> 0 <= #[trigger] idx[j] < n,
        forall|j: int, l: int| 0 <= j < l < n ==> #[trigger] idx[j] != #[trigger] idx[l],
        0 <= t < n,
    ensures
        exists|j: int| 0 <= j < n && idx[j] == t,
{
    if !(exists|j: int| 0 <= j < n && idx[j] == t) {
        assert(idx.no_duplicates()) by {
            assert forall|j: int, l: int| 0 <= j < idx.len() && 0 <= l < idx.len() && j != l implies idx[j] != idx[l] by {
                if j < l {
                } else {
                }
            }
        }
        idx.unique_seq_to_set();
        vstd::set_lib::lemma_int_range(0, n);
        let r = vstd::set_lib::set_int_range(0, n).remove(t);
        assert(idx.to_set().subset_of(r)) by {
            assert forall|x: int| idx.to_set().contains(x) implies r.contains(x) by {
                let j = choose|j: int| 0 <= j < idx.len() && idx[j] == x;
                assert(idx[j] == x);
            }
        }
        vstd::set_lib::lemma_len_subset(idx.to_set(), r);
    }
}

/// In a record with as many entries as distinct field keys, each field key
/// present, every present key is a field key.
proof fn lemma_record_keys(fs: Seq<(String, Contract)>, es: Seq<RecordEntry>, k: Seq<u16>)
    requires
        es.len() == fs.len(),
        forall|j: int, l: int| 0 <= j < l < fs.len() ==> utf16_of((#[trigger] fs[j]).0@) != utf16_of((#[trigger] fs[l]).0@),
        forall|j: int| 0 <= j < fs.len() ==> first_entry(es, utf16_of((#[trigger] fs[j]).0@), 0) is Some,
        first_entry(es, k, 0) is Some,
    ensures
        exists|j: int| 0 <= j < fs.len() && utf16_of((#[trigger] fs[j]).0@) == k,
{
    let n = fs.len() as int;
    let idx = Seq::new(n as nat, |j: int| first_entry(es, utf16_of(fs[j].0@), 0)->Some_0);
    assert forall|j: int| 0 <= j < n implies 0 <= #[trigger] idx[j] < n && es[idx[j]].key@ == utf16_of(fs[j].0@) by {
        lemma_first_entry(es, utf16_of(fs[j].0@), 0);
    }
    assert forall|j: int, l: int| 0 <= j < l < n implies #[trigger] idx[j] != #[trigger] idx[l] by {
        assert(es[idx[j]].key@ == utf16_of(fs[j].0@));
        assert(es[idx[l]].key@ == utf16_of(fs[l].0@));
    }
    let t = first_entry(es, k, 0)->Some_0;
    lemma_first_entry(es, k, 0);
    lemma_cover(idx, n, t);
    let j = choose|j: int| 0 <= j < n && idx[j] == t;
    assert(utf16_of(fs[j].0@) == k);
}

/// The first field whose key encodes to `k`.
fn find_key(fs: &Vec<(String, Contract)>, k: &Vec<u16>) -> (r: Option<usize>)
    ensures
        r is None ==> first_key(fs@, k@, 0) is None,
        r matches Some(l) ==> first_key(fs@, k@, 0) == Some(l as int),
        r matches Some(l) ==> l < fs@.len() && utf16_of(fs@[l as int].0@) == k@,
        r is None ==> forall|l: int| 0 <= l < fs@.len() ==> utf16_of((#[trigger] fs@[l]).0@) != k@,
{
    let mut i: usize = 0;
    while i < fs.len()
        invariant
            i <= fs@.len(),
            forall|l: int| 0 <= l < i ==> utf16_of((#[trigger] fs@[l]).0@) != k@,
            first_key(fs@, k@, 0) == first_key(fs@, k@, i as int),
        decreases fs@.len() - i,
    {
        if units_eq(&str_utf16(fs[i].0.as_str()), k) {
            return Some(i);
        }
        i = i + 1;
    }
    None
}

// ── Integer lattices ─────────────────────────────────────────────────────────

/// A lattice `x ≡ r₁ (mod n₁)` lies in `x ≡ r₂ (mod n₂)` when `n₂` divides
/// `n₁` and `r₁ ≡ r₂ (mod n₂)`.
proof fn lemma_mod_subset(x: int, n1: int, r1: int, n2: int, r2: int)
    requires
        n1 != 0,
        n2 != 0,
        congruent(x, n1, r1),
        congruent(n1, n2, 0),
        congruent(r1, n2, r2),
    ensures
        congruent(x, n2, r2),
{
    let m1 = if n1 < 0 { -n1 } else { n1 };
    let m2 = if n2 < 0 { -n2 } else { n2 };
    vstd::arithmetic::div_mod::lemma_fundamental_div_mod(x - r1, m1);
    vstd::arithmetic::div_mod::lemma_fundamental_div_mod(n1 - 0, m2);
    vstd::arithmetic::div_mod::lemma_fundamental_div_mod(r1 - r2, m2);
    let k1 = (x - r1) / m1;
    let k2 = (n1 - 0) / m2;
    let k3 = (r1 - r2) / m2;
    let k = if n1 < 0 { -k2 * k1 + k3 } else { k2 * k1 + k3 };
    assert(x - r2 == k * m2) by (nonlinear_arith)
        requires
            x - r1 == m1 * k1,
            n1 == m2 * k2,
            r1 - r2 == m2 * k3,
            m1 == if n1 < 0 { -n1 } else { n1 },
            k == if n1 < 0 { -k2 * k1 + k3 } else { k2 * k1 + k3 },
    ;
    vstd::arithmetic::div_mod::lemma_mod_multiples_basic(k, m2);
}

/// `x ≡ r (mod n)` decided for integers, with a nonzero `n`.
fn lattice_subset(n1: &BigNum, r1: &BigNum, n2: &BigNum, r2: &BigNum) -> (r: bool)
    ensures
        r == (n2@ != 0 && congruent(n1@, n2@, 0) && congruent(r1@, n2@, r2@)),
        r ==> forall|q: (int, int)| mod_has(q, n1@, r1@) ==> #[trigger] mod_has(q, n2@, r2@),
{
    let zero = big_from_i64(0);
    let r = super::membership::int_on_lattice(n1, n2, &zero) && super::membership::int_on_lattice(r1, n2, r2);
    proof {
        if r {
            assert forall|q: (int, int)| mod_has(q, n1@, r1@) implies #[trigger] mod_has(q, n2@, r2@) by {
                lemma_mod_subset(q.0 / q.1, n1@, r1@, n2@, r2@);
            }
        }
    }
    r
}

// ── Disjointness and emptiness ───────────────────────────────────────────────

/// The nesting of unions and intersections.
pub open spec fn spine_size(c: Contract) -> nat
    decreases c,
{
    match c {
        Contract::Union(a, b) | Contract::Intersection(a, b) => 1 + spine_size(*a) + spine_size(*b),
        _ => 1,
    }
}

// ── The rules, as a table ───────────────────────────────────────────────────

/// One end of an interval, by value.
pub ghost enum SBound {
    Unbounded,
    Incl((int, int)),
    Excl((int, int)),
}

pub open spec fn sbound(b: Bound) -> SBound {
    match b {
        Bound::Unbounded => SBound::Unbounded,
        Bound::Incl(x) => SBound::Incl(x@),
        Bound::Excl(x) => SBound::Excl(x@),
    }
}

pub open spec fn sinterval(iv: Interval) -> (SBound, SBound) {
    (sbound(iv.low), sbound(iv.high))
}

/// The lower bound `a` starts at or above `b`.
pub open spec fn low_ge_rule(a: SBound, b: SBound) -> bool {
    match (a, b) {
        (_, SBound::Unbounded) => true,
        (SBound::Unbounded, _) => false,
        (SBound::Incl(va), SBound::Excl(vb)) => value_lt(vb, va),
        (SBound::Incl(va), SBound::Incl(vb)) | (SBound::Excl(va), SBound::Excl(vb)) | (
            SBound::Excl(va),
            SBound::Incl(vb),
        ) => value_lt(vb, va) || same_value(va, vb),
    }
}

/// The upper bound `a` ends at or below `b`.
pub open spec fn high_le_rule(a: SBound, b: SBound) -> bool {
    match (a, b) {
        (_, SBound::Unbounded) => true,
        (SBound::Unbounded, _) => false,
        (SBound::Incl(va), SBound::Excl(vb)) => value_lt(va, vb),
        (SBound::Incl(va), SBound::Incl(vb)) | (SBound::Excl(va), SBound::Excl(vb)) | (
            SBound::Excl(va),
            SBound::Incl(vb),
        ) => value_lt(va, vb) || same_value(va, vb),
    }
}

/// The upper bound `h` lies strictly below the lower bound `l`.
pub open spec fn below_rule(h: SBound, l: SBound) -> bool {
    match (h, l) {
        (SBound::Unbounded, _) | (_, SBound::Unbounded) => false,
        (SBound::Incl(vh), SBound::Incl(vl)) => value_lt(vh, vl),
        (SBound::Incl(vh), SBound::Excl(vl)) | (SBound::Excl(vh), SBound::Incl(vl)) | (
            SBound::Excl(vh),
            SBound::Excl(vl),
        ) => value_lt(vh, vl) || same_value(vh, vl),
    }
}

/// The higher low and the lower high of two intervals.
pub open spec fn meet_rule(a: (SBound, SBound), b: (SBound, SBound)) -> (SBound, SBound) {
    (if low_ge_rule(a.0, b.0) { a.0 } else { b.0 }, if high_le_rule(a.1, b.1) { a.1 } else { b.1 })
}

/// The interval a numeric-interval contract stands for, through
/// intersections.
pub open spec fn interval_rule(c: Contract) -> Option<(SBound, SBound)>
    decreases c,
{
    match c {
        Contract::Range(lo, hi) => Some((SBound::Incl(lo@), SBound::Incl(hi@))),
        Contract::Greater(m) => Some((SBound::Excl(m@), SBound::Unbounded)),
        Contract::GreaterEq(m) => Some((SBound::Incl(m@), SBound::Unbounded)),
        Contract::Less(m) => Some((SBound::Unbounded, SBound::Excl(m@))),
        Contract::LessEq(m) => Some((SBound::Unbounded, SBound::Incl(m@))),
        Contract::Intersection(a, b) => match (interval_rule(*a), interval_rule(*b)) {
            (Some(x), Some(y)) => Some(meet_rule(x, y)),
            _ => None,
        },
        _ => None,
    }
}

/// A numeric-interval or lattice form.
pub open spec fn numeric_form(c: Contract) -> bool {
    c is Range || c is Greater || c is GreaterEq || c is Less || c is LessEq || c is Mod || c is Geo
}

/// Some field of `fs` has a key that encodes to `u`.
pub open spec fn has_key(fs: Seq<(String, Contract)>, u: Seq<u16>) -> bool {
    exists|l: int| 0 <= l < fs.len() && utf16_of((#[trigger] fs[l]).0@) == u
}

/// The first field of `fs` from `i` on whose key encodes to `u`.
pub open spec fn first_key(fs: Seq<(String, Contract)>, u: Seq<u16>, i: int) -> Option<int>
    decreases fs.len() - i,
{
    if i < 0 || i >= fs.len() {
        None
    } else if utf16_of(fs[i].0@) == u {
        Some(i)
    } else {
        first_key(fs, u, i + 1)
    }
}

/// The disjointness rules, in the order they are tried.
pub open spec fn disjoint_rule(a: Contract, b: Contract) -> bool
    decreases spine_size(a) + spine_size(b),
{
    if a is Bottom || b is Bottom {
        true
    } else if a is Equals {
        !denotes(b, a->Equals_0)
    } else if b is Equals {
        !denotes(a, b->Equals_0)
    } else if a is Kind && b is Kind {
        a->Kind_0 != b->Kind_0
    } else if a is Kind && a->Kind_0 != Kind::Number && numeric_form(b) {
        true
    } else if b is Kind && b->Kind_0 != Kind::Number && numeric_form(a) {
        true
    } else if a is Kind && (b is Record || b is HasField) && a->Kind_0 != Kind::Record {
        true
    } else if b is Kind && (a is Record || a is HasField) && b->Kind_0 != Kind::Record {
        true
    } else if a is Kind && b is Tuple && a->Kind_0 != Kind::Tuple {
        true
    } else if b is Kind && a is Tuple && b->Kind_0 != Kind::Tuple {
        true
    } else if a is Record && b is HasField {
        !has_key(a->Record_0@, utf16_of(b->HasField_0@))
    } else if a is HasField && b is Record {
        !has_key(b->Record_0@, utf16_of(a->HasField_0@))
    } else if a is Union {
        disjoint_rule(*a->Union_0, b) && disjoint_rule(*a->Union_1, b)
    } else if b is Union {
        disjoint_rule(*b->Union_0, a) && disjoint_rule(*b->Union_1, a)
    } else if a is Intersection {
        disjoint_rule(*a->Intersection_0, b) || disjoint_rule(*a->Intersection_1, b)
    } else if b is Intersection {
        disjoint_rule(*b->Intersection_0, a) || disjoint_rule(*b->Intersection_1, a)
    } else {
        match (interval_rule(a), interval_rule(b)) {
            (Some(x), Some(y)) => below_rule(x.1, y.0) || below_rule(y.1, x.0),
            _ => false,
        }
    }
}

/// The emptiness rules.
pub open spec fn empty_rule(c: Contract) -> bool
    decreases c,
{
    match c {
        Contract::Bottom => true,
        Contract::Range(lo, hi) => value_lt(hi@, lo@),
        Contract::Intersection(a, b) => empty_rule(*a) || empty_rule(*b) || disjoint_rule(*a, *b),
        Contract::Union(a, b) => empty_rule(*a) && empty_rule(*b),
        Contract::Difference(a, _) => empty_rule(*a),
        _ => false,
    }
}

/// The proof rules, in the order they are tried: an empty source, the
/// and-like rules on `b`, the rules on the shape of `a`, the or-like rules,
/// sameness, then the atom rules.
pub open spec fn provable_rule(a: Contract, b: Contract) -> bool
    decreases a, b, 2nat,
{
    if empty_rule(a) {
        true
    } else if b is Top {
        true
    } else if b is Intersection {
        provable_rule(a, *b->Intersection_0) && provable_rule(a, *b->Intersection_1)
    } else if b is Difference {
        provable_rule(a, *b->Difference_0) && disjoint_rule(a, *b->Difference_1)
    } else if a is Bottom {
        true
    } else if a is Union {
        provable_rule(*a->Union_0, b) && provable_rule(*a->Union_1, b)
    } else if a is Difference && provable_rule(*a->Difference_0, b) {
        true
    } else if a is Equals {
        denotes(b, a->Equals_0)
    } else if b is Union && (provable_rule(a, *b->Union_0) || provable_rule(a, *b->Union_1)) {
        true
    } else if !(b is Union) && a is Intersection && (provable_rule(*a->Intersection_0, b) || provable_rule(
        *a->Intersection_1,
        b,
    )) {
        true
    } else if crate::contract::copy::same_contract(a, b) {
        true
    } else {
        atom_rule(a, b)
    }
}

/// The decidable rules between atoms.
pub open spec fn atom_rule(a: Contract, b: Contract) -> bool
    decreases a, b, 1nat,
{
    if a is Kind && b is Kind {
        a->Kind_0 == b->Kind_0
    } else if b == Contract::Kind(Kind::Number) && numeric_form(a) {
        true
    } else {
        match (a, b) {
            (Contract::Tuple(_), Contract::Kind(Kind::Tuple)) => true,
            (Contract::Record(_), Contract::Kind(Kind::Record)) => true,
            (Contract::HasField(_), Contract::Kind(Kind::Record)) => true,
            (Contract::Mod { n: n1, r: r1 }, Contract::Mod { n: n2, r: r2 }) => n2@ != 0 && congruent(n1@, n2@, 0)
                && congruent(r1@, n2@, r2@),
            (Contract::HasField(k1), Contract::HasField(k2)) => k1@ == k2@,
            (Contract::Record(fields), Contract::HasField(k)) => has_key(fields@, utf16_of(k@)),
            (Contract::Record(fa), Contract::Record(fb)) => fa@.len() == fb@.len() && forall|j: int|
                0 <= j < fa@.len() ==> (first_key(fb@, utf16_of((#[trigger] fa@[j]).0@), 0) matches Some(l)
                    && provable_rule(fa@[j].1, fb@[l].1)),
            (Contract::Tuple(ea), Contract::Tuple(eb)) => ea@.len() == eb@.len() && forall|j: int|
                0 <= j < ea@.len() ==> provable_rule(#[trigger] ea@[j], eb@[j]),
            (Contract::Indeterminate(f1), Contract::Indeterminate(f2)) => f1 == f2,
            _ => match (interval_rule(a), interval_rule(b)) {
                (Some(x), Some(y)) => low_ge_rule(x.0, y.0) && high_le_rule(x.1, y.1),
                _ => false,
            },
        }
    }
}

/// A numeric-interval or lattice form.
fn is_numeric(c: &Contract) -> (r: bool)
    ensures
        r == numeric_form(*c),
        r ==> forall|v: ValueRef| #[trigger] denotes(*c, v) ==> number_of(v) is Some,
{
    match c {
        Contract::Range(..) | Contract::Greater(_) | Contract::GreaterEq(_) | Contract::Less(_)
        | Contract::LessEq(_) | Contract::Mod { .. } | Contract::Geo { .. } => true,
        _ => false,
    }
}

/// Every bound of the contract has a positive denominator.
fn bounds_wf(c: &Contract)
    ensures
        rats_wf(*c),
    decreases c,
{
    broadcast use vstd::std_specs::vec::axiom_vec_index_decreases;
    match c {
        Contract::Range(l, h) => {
            l.well_formed();
            h.well_formed();
        },
        Contract::Greater(m) | Contract::GreaterEq(m) | Contract::Less(m) | Contract::LessEq(m) => {
            m.well_formed();
        },
        Contract::Geo { b, r } => {
            b.well_formed();
            r.well_formed();
        },
        Contract::Union(a, b) | Contract::Intersection(a, b) | Contract::Difference(a, b)
        | Contract::LengthRestricted(a, b) => {
            bounds_wf(a);
            bounds_wf(b);
        },
        Contract::Record(fs) => {
            let mut i: usize = 0;
            while i < fs.len()
                invariant
                    i <= fs@.len(),
                    *c == Contract::Record(*fs),
                    forall|j: int| 0 <= j < i ==> rats_wf((#[trigger] fs@[j]).1),
                decreases fs@.len() - i,
            {
                proof {
                    assert(decreases_to!(*fs => fs[i as int]));
                    assert(decreases_to!(*c => c->Record_0));
                    assert(decreases_to!(*c => fs[i as int].1));
                }
                bounds_wf(&fs[i].1);
                i = i + 1;
            }
        },
        Contract::Tuple(es) | Contract::Concat(es) => {
            let mut i: usize = 0;
            while i < es.len()
                invariant
                    i <= es@.len(),
                    *c == Contract::Tuple(*es) || *c == Contract::Concat(*es),
                    forall|j: int| 0 <= j < i ==> rats_wf(#[trigger] es@[j]),
                decreases es@.len() - i,
            {
                proof {
                    assert(decreases_to!(*es => es[i as int]));
                    if *c == Contract::Tuple(*es) {
                        assert(decreases_to!(*c => c->Tuple_0));
                    } else {
                        assert(decreases_to!(*c => c->Concat_0));
                    }
                    assert(decreases_to!(*c => es[i as int]));
                }
                bounds_wf(&es[i]);
                i = i + 1;
            }
        },
        _ => {},
    }
}

/// Whether `a` and `b` provably share no value.
pub fn disjoint(a: &Contract, b: &Contract) -> (r: bool)
    requires
        rats_wf(*a),
        rats_wf(*b),
    ensures
        r == disjoint_rule(*a, *b),
        r ==> (keys_distinct(*a) && keys_distinct(*b) ==> disjoint_on(*a, *b)),
    decreases spine_size(*a) + spine_size(*b),
{
    if let Contract::Bottom = a {
        return true;
    }
    if let Contract::Bottom = b {
        return true;
    }
    if let Contract::Equals(v) = a {
        let r = !b.contains(v);
        proof {
            if r {
                assert forall|s: Set<ValueRef>, w: ValueRef|
                    #![trigger world(s), denotes(*a, w), s.contains(w)]
                    keys_distinct(*a) && keys_distinct(*b) && world(s) && singles_in(s, *a) && singles_in(s, *b) && s.contains(w) implies !(denotes(*a, w)
                    && denotes(*b, w)) by {
                    if denotes(*a, w) {
                        assert(s.contains(*v));
                        assert(*v == w);
                    }
                }
            }
        }
        return r;
    }
    if let Contract::Equals(v) = b {
        let r = !a.contains(v);
        proof {
            if r {
                assert forall|s: Set<ValueRef>, w: ValueRef|
                    #![trigger world(s), denotes(*a, w), s.contains(w)]
                    keys_distinct(*a) && keys_distinct(*b) && world(s) && singles_in(s, *a) && singles_in(s, *b) && s.contains(w) implies !(denotes(*a, w)
                    && denotes(*b, w)) by {
                    if denotes(*b, w) {
                        assert(s.contains(*v));
                        assert(*v == w);
                    }
                }
            }
        }
        return r;
    }
    match (a, b) {
        (Contract::Kind(k1), Contract::Kind(k2)) => {
            return *k1 != *k2;
        },
        _ => {},
    }
    if let Contract::Kind(k) = a {
        if *k != Kind::Number && is_numeric(b) {
            return true;
        }
    }
    if let Contract::Kind(k) = b {
        if *k != Kind::Number && is_numeric(a) {
            return true;
        }
    }
    match (a, b) {
        (Contract::Kind(k), Contract::Record(_)) | (Contract::Kind(k), Contract::HasField(_)) | (
            Contract::Record(_),
            Contract::Kind(k),
        ) | (Contract::HasField(_), Contract::Kind(k)) => {
            if *k != Kind::Record {
                return true;
            }
        },
        _ => {},
    }
    match (a, b) {
        (Contract::Kind(k), Contract::Tuple(_)) | (Contract::Tuple(_), Contract::Kind(k)) => {
            if *k != Kind::Tuple {
                return true;
            }
        },
        _ => {},
    }
    match (a, b) {
        (Contract::Record(fields), Contract::HasField(k)) | (Contract::HasField(k), Contract::Record(fields)) => {
            let u = str_utf16(k.as_str());
            let found = find_key(fields, &u);
            let r = found.is_none();
            proof {
                if r {
                    assert forall|s: Set<ValueRef>, w: ValueRef|
                        #![trigger world(s), denotes(*a, w), s.contains(w)]
                        keys_distinct(*a) && keys_distinct(*b) && world(s) && singles_in(s, *a) && singles_in(s, *b) && s.contains(w) implies !(denotes(*a, w)
                        && denotes(*b, w)) by {
                        if denotes(*a, w) && denotes(*b, w) {
                            let es = w.data_spec()->Record_0;
                            assert forall|j: int| 0 <= j < fields@.len() implies first_entry(
                                es@,
                                utf16_of((#[trigger] fields@[j]).0@),
                                0,
                            ) is Some by {
                            }
                            lemma_record_keys(fields@, es@, u@);
                        }
                    }
                }
            }
            return r;
        },
        _ => {},
    }
    match a {
        Contract::Union(a1, a2) => {
            let r = disjoint(a1, b) && disjoint(a2, b);
            proof {
                if r {
                    assert forall|s: Set<ValueRef>, w: ValueRef|
                        #![trigger world(s), denotes(*a, w), s.contains(w)]
                        keys_distinct(*a) && keys_distinct(*b) && world(s) && singles_in(s, *a) && singles_in(s, *b) && s.contains(w) implies !(denotes(*a, w)
                        && denotes(*b, w)) by {
                        assert(denotes(**a1, w) ==> !denotes(*b, w));
                        assert(denotes(**a2, w) ==> !denotes(*b, w));
                    }
                }
            }
            return r;
        },
        _ => {},
    }
    match b {
        Contract::Union(b1, b2) => {
            let r = disjoint(b1, a) && disjoint(b2, a);
            proof {
                if r {
                    assert forall|s: Set<ValueRef>, w: ValueRef|
                        #![trigger world(s), denotes(*a, w), s.contains(w)]
                        keys_distinct(*a) && keys_distinct(*b) && world(s) && singles_in(s, *a) && singles_in(s, *b) && s.contains(w) implies !(denotes(*a, w)
                        && denotes(*b, w)) by {
                        assert(denotes(**b1, w) ==> !denotes(*a, w));
                        assert(denotes(**b2, w) ==> !denotes(*a, w));
                    }
                }
            }
            return r;
        },
        _ => {},
    }
    match a {
        Contract::Intersection(a1, a2) => {
            let r = disjoint(a1, b) || disjoint(a2, b);
            proof {
                if r {
                    assert forall|s: Set<ValueRef>, w: ValueRef|
                        #![trigger world(s), denotes(*a, w), s.contains(w)]
                        keys_distinct(*a) && keys_distinct(*b) && world(s) && singles_in(s, *a) && singles_in(s, *b) && s.contains(w) implies !(denotes(*a, w)
                        && denotes(*b, w)) by {
                        assert(denotes(**a1, w) ==> !denotes(*b, w) || !disjoint_on(**a1, *b));
                        assert(denotes(**a2, w) ==> !denotes(*b, w) || !disjoint_on(**a2, *b));
                    }
                }
            }
            return r;
        },
        _ => {},
    }
    match b {
        Contract::Intersection(b1, b2) => {
            let r = disjoint(b1, a) || disjoint(b2, a);
            proof {
                if r {
                    assert forall|s: Set<ValueRef>, w: ValueRef|
                        #![trigger world(s), denotes(*a, w), s.contains(w)]
                        keys_distinct(*a) && keys_distinct(*b) && world(s) && singles_in(s, *a) && singles_in(s, *b) && s.contains(w) implies !(denotes(*a, w)
                        && denotes(*b, w)) by {
                        assert(denotes(**b1, w) ==> !denotes(*a, w) || !disjoint_on(**b1, *a));
                        assert(denotes(**b2, w) ==> !denotes(*a, w) || !disjoint_on(**b2, *a));
                    }
                }
            }
            return r;
        },
        _ => {},
    }
    match (interval_of(a), interval_of(b)) {
        (Some(ia), Some(ib)) => {
            let r = intervals_disjoint(&ia, &ib);
            proof {
                if r {
                    assert forall|s: Set<ValueRef>, w: ValueRef|
                        #![trigger world(s), denotes(*a, w), s.contains(w)]
                        keys_distinct(*a) && keys_distinct(*b) && world(s) && singles_in(s, *a) && singles_in(s, *b) && s.contains(w) implies !(denotes(*a, w)
                        && denotes(*b, w)) by {
                        assert(number_of(w) matches Some(q) ==> frac_wf(q));
                        if denotes(*a, w) && denotes(*b, w) {
                            let q = number_of(w)->Some_0;
                            assert(in_interval(q, ia) && in_interval(q, ib));
                        }
                    }
                }
            }
            r
        },
        _ => false,
    }
}

/// Whether the contract is provably empty.
fn is_empty(c: &Contract) -> (r: bool)
    requires
        rats_wf(*c),
    ensures
        r == empty_rule(*c),
        r ==> (keys_distinct(*c) ==> empty_on(*c)),
    decreases c,
{
    match c {
        Contract::Bottom => true,
        Contract::Range(lo, hi) => {
            let r = hi.lt(lo);
            proof {
                if r {
                    assert forall|s: Set<ValueRef>, v: ValueRef|
                        #![trigger world(s), denotes(*c, v), s.contains(v)]
                        keys_distinct(*c) && world(s) && singles_in(s, *c) && s.contains(v) implies !denotes(*c, v) by {
                        if let Some(q) = number_of(v) {
                            lemma_order(hi@, q, lo@);
                            lemma_order(q, hi@, lo@);
                        }
                    }
                }
            }
            r
        },
        Contract::Intersection(a, b) => {
            let r = is_empty(a) || is_empty(b) || disjoint(a, b);
            proof {
                if r {
                    assert forall|s: Set<ValueRef>, v: ValueRef|
                        #![trigger world(s), denotes(*c, v), s.contains(v)]
                        keys_distinct(*c) && world(s) && singles_in(s, *c) && s.contains(v) implies !denotes(*c, v) by {
                        assert(empty_on(**a) ==> !denotes(**a, v));
                        assert(empty_on(**b) ==> !denotes(**b, v));
                        assert(disjoint_on(**a, **b) ==> !(denotes(**a, v) && denotes(**b, v)));
                    }
                }
            }
            r
        },
        Contract::Union(a, b) => {
            let r = is_empty(a) && is_empty(b);
            proof {
                if r {
                    assert forall|s: Set<ValueRef>, v: ValueRef|
                        #![trigger world(s), denotes(*c, v), s.contains(v)]
                        keys_distinct(*c) && world(s) && singles_in(s, *c) && s.contains(v) implies !denotes(*c, v) by {
                        assert(!denotes(**a, v));
                        assert(!denotes(**b, v));
                    }
                }
            }
            r
        },
        Contract::Difference(a, _) => {
            let r = is_empty(a);
            proof {
                if r {
                    assert forall|s: Set<ValueRef>, v: ValueRef|
                        #![trigger world(s), denotes(*c, v), s.contains(v)]
                        keys_distinct(*c) && world(s) && singles_in(s, *c) && s.contains(v) implies !denotes(*c, v) by {
                        assert(!denotes(**a, v));
                    }
                }
            }
            r
        },
        _ => false,
    }
}


// ── The proof side ───────────────────────────────────────────────────────────

/// Whether `a ⊑ b` follows from the structural and atom rules.
fn provable(a: &Contract, b: &Contract) -> (r: bool)
    requires
        rats_wf(*a),
        rats_wf(*b),
    ensures
        r == provable_rule(*a, *b),
        r ==> (keys_distinct(*a) && keys_distinct(*b) ==> sub_on(*a, *b)),
    decreases *a, *b, 2nat,
{
    // An empty source is a subcontract of everything.
    if is_empty(a) {
        proof {
            assert forall|s: Set<ValueRef>, v: ValueRef|
                #![trigger world(s), denotes(*a, v), s.contains(v)]
                keys_distinct(*a) && keys_distinct(*b) && world(s) && singles_in(s, *a) && singles_in(s, *b) && s.contains(v) && denotes(*a, v) implies denotes(*b, v) by {
                assert(!denotes(*a, v));
            }
        }
        return true;
    }
    // The structure of `b` first: the and-like rules.
    match b {
        Contract::Top => {
            return true;
        },
        Contract::Intersection(b1, b2) => {
            let r = provable(a, b1) && provable(a, b2);
            proof {
                if r {
                    assert forall|s: Set<ValueRef>, v: ValueRef|
                #![trigger world(s), denotes(*a, v), s.contains(v)]
                keys_distinct(*a) && keys_distinct(*b) && world(s) && singles_in(s, *a) && singles_in(s, *b) && s.contains(v) && denotes(*a, v) implies denotes(*b, v) by {
                        assert(denotes(**b1, v));
                        assert(denotes(**b2, v));
                    }
                }
            }
            return r;
        },
        Contract::Difference(bb, e) => {
            let r = provable(a, bb) && disjoint(a, e);
            proof {
                if r {
                    assert forall|s: Set<ValueRef>, v: ValueRef|
                #![trigger world(s), denotes(*a, v), s.contains(v)]
                keys_distinct(*a) && keys_distinct(*b) && world(s) && singles_in(s, *a) && singles_in(s, *b) && s.contains(v) && denotes(*a, v) implies denotes(*b, v) by {
                        assert(denotes(**bb, v));
                        assert(!denotes(**e, v));
                    }
                }
            }
            return r;
        },
        _ => {},
    }
    // The shape of `a`.
    match a {
        Contract::Bottom => {
            return true;
        },
        Contract::Union(a1, a2) => {
            let r = provable(a1, b) && provable(a2, b);
            proof {
                if r {
                    assert forall|s: Set<ValueRef>, v: ValueRef|
                #![trigger world(s), denotes(*a, v), s.contains(v)]
                keys_distinct(*a) && keys_distinct(*b) && world(s) && singles_in(s, *a) && singles_in(s, *b) && s.contains(v) && denotes(*a, v) implies denotes(*b, v) by {
                        if denotes(**a1, v) {
                            assert(denotes(*b, v));
                        } else {
                            assert(denotes(**a2, v));
                        }
                    }
                }
            }
            return r;
        },
        Contract::Difference(aa, _) => {
            if provable(aa, b) {
                proof {
                    assert forall|s: Set<ValueRef>, v: ValueRef|
                #![trigger world(s), denotes(*a, v), s.contains(v)]
                keys_distinct(*a) && keys_distinct(*b) && world(s) && singles_in(s, *a) && singles_in(s, *b) && s.contains(v) && denotes(*a, v) implies denotes(*b, v) by {
                        assert(denotes(**aa, v));
                    }
                }
                return true;
            }
        },
        Contract::Equals(x) => {
            let r = b.contains(x);
            proof {
                if r {
                    assert forall|s: Set<ValueRef>, v: ValueRef|
                #![trigger world(s), denotes(*a, v), s.contains(v)]
                keys_distinct(*a) && keys_distinct(*b) && world(s) && singles_in(s, *a) && singles_in(s, *b) && s.contains(v) && denotes(*a, v) implies denotes(*b, v) by {
                        assert(s.contains(*x));
                        assert(*x == v);
                    }
                }
            }
            return r;
        },
        _ => {},
    }
    // The or-like rules, sound but not complete.
    let or_rule = match (a, b) {
        (_, Contract::Union(b1, b2)) => {
            let r = provable(a, b1) || provable(a, b2);
            proof {
                if r {
                    assert forall|s: Set<ValueRef>, v: ValueRef|
                #![trigger world(s), denotes(*a, v), s.contains(v)]
                keys_distinct(*a) && keys_distinct(*b) && world(s) && singles_in(s, *a) && singles_in(s, *b) && s.contains(v) && denotes(*a, v) implies denotes(*b, v) by {
                        if sub_on(*a, **b1) {
                            assert(denotes(**b1, v));
                        } else {
                            assert(denotes(**b2, v));
                        }
                    }
                }
            }
            r
        },
        (Contract::Intersection(a1, a2), _) => {
            let r = provable(a1, b) || provable(a2, b);
            proof {
                if r {
                    assert forall|s: Set<ValueRef>, v: ValueRef|
                #![trigger world(s), denotes(*a, v), s.contains(v)]
                keys_distinct(*a) && keys_distinct(*b) && world(s) && singles_in(s, *a) && singles_in(s, *b) && s.contains(v) && denotes(*a, v) implies denotes(*b, v) by {
                        assert(denotes(**a1, v));
                        assert(denotes(**a2, v));
                    }
                }
            }
            r
        },
        _ => false,
    };
    if or_rule {
        return true;
    }
    // Reflexivity.
    if crate::contract::copy::contract_equal(a, b) {
        proof {
            crate::contract::copy::lemma_same_members(*a, *b);
        }
        return true;
    }
    atom_provable(a, b)
}

/// The decidable rules between atoms.
fn atom_provable(a: &Contract, b: &Contract) -> (r: bool)
    requires
        rats_wf(*a),
        rats_wf(*b),
    ensures
        r == atom_rule(*a, *b),
        r ==> (keys_distinct(*a) && keys_distinct(*b) ==> sub_on(*a, *b)),
    decreases *a, *b, 1nat,
{
    broadcast use vstd::std_specs::vec::axiom_vec_index_decreases;
    match (a, b) {
        (Contract::Kind(k1), Contract::Kind(k2)) => {
            return *k1 == *k2;
        },
        _ => {},
    }
    // Every numeric atom is a number.
    if let Contract::Kind(Kind::Number) = b {
        if is_numeric(a) {
            proof {
                assert forall|s: Set<ValueRef>, v: ValueRef|
                #![trigger world(s), denotes(*a, v), s.contains(v)]
                keys_distinct(*a) && keys_distinct(*b) && world(s) && singles_in(s, *a) && singles_in(s, *b) && s.contains(v) && denotes(*a, v) implies denotes(*b, v) by {
                    assert(number_of(v) is Some);
                }
            }
            return true;
        }
    }
    match (a, b) {
        // A structured contract inhabits its kind.
        (Contract::Tuple(_), Contract::Kind(Kind::Tuple)) => {
            return true;
        },
        (Contract::Record(_), Contract::Kind(Kind::Record)) | (Contract::HasField(_), Contract::Kind(Kind::Record)) => {
            return true;
        },
        (Contract::Mod { n: n1, r: r1 }, Contract::Mod { n: n2, r: r2 }) => {
            let r = lattice_subset(n1, r1, n2, r2);
            proof {
                if r {
                    assert forall|s: Set<ValueRef>, v: ValueRef|
                #![trigger world(s), denotes(*a, v), s.contains(v)]
                keys_distinct(*a) && keys_distinct(*b) && world(s) && singles_in(s, *a) && singles_in(s, *b) && s.contains(v) && denotes(*a, v) implies denotes(*b, v) by {
                        let q = number_of(v)->Some_0;
                        assert(mod_has(q, n1@, r1@));
                    }
                }
            }
            return r;
        },
        (Contract::HasField(k1), Contract::HasField(k2)) => {
            return *k1 == *k2;
        },
        // An exact record having field `k` has that field.
        (Contract::Record(fields), Contract::HasField(k)) => {
            let u = str_utf16(k.as_str());
            let found = find_key(fields, &u);
            let r = found.is_some();
            proof {
                if r {
                    let l = found->Some_0 as int;
                    assert forall|s: Set<ValueRef>, v: ValueRef|
                #![trigger world(s), denotes(*a, v), s.contains(v)]
                keys_distinct(*a) && keys_distinct(*b) && world(s) && singles_in(s, *a) && singles_in(s, *b) && s.contains(v) && denotes(*a, v) implies denotes(*b, v) by {
                        let es = v.data_spec()->Record_0;
                        assert(first_entry(es@, utf16_of(fields@[l].0@), 0) is Some);
                    }
                }
            }
            return r;
        },
        (Contract::Record(fa), Contract::Record(fb)) => {
            if fa.len() != fb.len() {
                return false;
            }
            let mut i: usize = 0;
            let ghost mut m: Seq<int> = Seq::empty();
            while i < fa.len()
                invariant
                    i <= fa@.len(),
                    fa@.len() == fb@.len(),
                    *a == Contract::Record(*fa),
                    *b == Contract::Record(*fb),
                    rats_wf(*a),
                    rats_wf(*b),
                    m.len() == i,
                    forall|j: int| 0 <= j < i ==> first_key(fb@, utf16_of((#[trigger] fa@[j]).0@), 0) == Some(m[j])
                        && provable_rule(fa@[j].1, fb@[m[j]].1),
                    forall|j: int| 0 <= j < i ==> 0 <= #[trigger] m[j] < fb@.len() && utf16_of(fb@[m[j]].0@)
                        == utf16_of(fa@[j].0@) && (keys_distinct(fa@[j].1) && keys_distinct(fb@[m[j]].1) ==> sub_on(fa@[j].1, fb@[m[j]].1)),
                decreases fa@.len() - i,
            {
                let u = str_utf16(fa[i].0.as_str());
                match find_key(fb, &u) {
                    Some(l) => {
                        proof {
                            assert(decreases_to!(*fa => fa[i as int]));
                            assert(decreases_to!(*a => a->Record_0));
                            assert(decreases_to!(*a => fa[i as int].1));
                            assert(rats_wf(fa@[i as int].1));
                            assert(rats_wf(Contract::Record(*fb)));
                            assert(decreases_to!(*fb => fb[l as int]));
                            assert(decreases_to!(*b => b->Record_0));
                            assert(decreases_to!(*b => fb[l as int].1));
                            assert(rats_wf(fb@[l as int].1));
                        }
                        if !provable(&fa[i].1, &fb[l].1) {
                            return false;
                        }
                        proof {
                            m = m.push(l as int);
                        }
                    },
                    None => {
                        return false;
                    },
                }
                i = i + 1;
            }
            proof {
                let n = fa@.len() as int;
                assert forall|s: Set<ValueRef>, v: ValueRef|
                #![trigger world(s), denotes(*a, v), s.contains(v)]
                keys_distinct(*a) && keys_distinct(*b) && world(s) && singles_in(s, *a) && singles_in(s, *b) && s.contains(v) && denotes(*a, v) implies denotes(*b, v) by {
                    let es = v.data_spec()->Record_0;
                    assert forall|l: int| 0 <= l < n implies (first_entry(es@, utf16_of((#[trigger] fb@[l]).0@), 0) matches Some(t)
                        && denotes(fb@[l].1, es@[t].value)) by {
                        assert forall|j: int, k: int| 0 <= j < k < n implies #[trigger] m[j] != #[trigger] m[k] by {
                            assert(utf16_of(fa@[j].0@) != utf16_of(fa@[k].0@));
                        }
                        lemma_cover(m, n, l);
                        let j = choose|j: int| 0 <= j < n && m[j] == l;
                        assert(utf16_of(fa@[j].0@) == utf16_of(fb@[l].0@));
                        let t = first_entry(es@, utf16_of(fa@[j].0@), 0)->Some_0;
                        assert(denotes(fa@[j].1, es@[t].value));
                        lemma_first_entry(es@, utf16_of(fa@[j].0@), 0);
                        assert(s.contains(es@[t].value));
                        assert(singles_in(s, fa@[j].1));
                        assert(singles_in(s, fb@[l].1));
                        assert(sub_on(fa@[j].1, fb@[l].1));
                        assert(denotes(fb@[l].1, es@[t].value));
                    }
                }
            }
            return true;
        },
        (Contract::Tuple(ea), Contract::Tuple(eb)) => {
            if ea.len() != eb.len() {
                return false;
            }
            let mut i: usize = 0;
            while i < ea.len()
                invariant
                    i <= ea@.len(),
                    ea@.len() == eb@.len(),
                    *a == Contract::Tuple(*ea),
                    *b == Contract::Tuple(*eb),
                    rats_wf(*a),
                    rats_wf(*b),
                    forall|j: int| 0 <= j < i ==> (keys_distinct(#[trigger] ea@[j]) && keys_distinct(eb@[j]) ==> sub_on(ea@[j], eb@[j])),
                    forall|j: int| 0 <= j < i ==> provable_rule(#[trigger] ea@[j], eb@[j]),
                decreases ea@.len() - i,
            {
                proof {
                    assert(decreases_to!(*ea => ea[i as int]));
                    assert(decreases_to!(*a => a->Tuple_0));
                    assert(rats_wf(ea@[i as int]));
                    assert(decreases_to!(*eb => eb[i as int]));
                    assert(decreases_to!(*b => b->Tuple_0));
                    assert(rats_wf(Contract::Tuple(*eb)));
                    assert(rats_wf(eb@[i as int]));
                }
                if !provable(&ea[i], &eb[i]) {
                    return false;
                }
                i = i + 1;
            }
            proof {
                assert forall|s: Set<ValueRef>, v: ValueRef|
                #![trigger world(s), denotes(*a, v), s.contains(v)]
                keys_distinct(*a) && keys_distinct(*b) && world(s) && singles_in(s, *a) && singles_in(s, *b) && s.contains(v) && denotes(*a, v) implies denotes(*b, v) by {
                    let items = v.data_spec()->Tuple_0;
                    assert forall|j: int| 0 <= j < eb@.len() implies denotes(#[trigger] eb@[j], items@[j]) by {
                        assert(s.contains(items@[j]));
                        assert(singles_in(s, ea@[j]));
                        assert(singles_in(s, eb@[j]));
                        assert(denotes(ea@[j], items@[j]));
                        assert(sub_on(ea@[j], eb@[j]));
                    }
                }
            }
            return true;
        },
        (Contract::Indeterminate(f1), Contract::Indeterminate(f2)) => {
            return *f1 == *f2;
        },
        _ => {},
    }
    // Interval containment.
    match (interval_of(a), interval_of(b)) {
        (Some(ia), Some(ib)) => {
            let r = interval_subset(&ia, &ib);
            proof {
                if r {
                    assert forall|s: Set<ValueRef>, v: ValueRef|
                #![trigger world(s), denotes(*a, v), s.contains(v)]
                keys_distinct(*a) && keys_distinct(*b) && world(s) && singles_in(s, *a) && singles_in(s, *b) && s.contains(v) && denotes(*a, v) implies denotes(*b, v) by {
                        assert(number_of(v) matches Some(q) ==> frac_wf(q));
                        let q = number_of(v)->Some_0;
                        assert(in_interval(q, ia));
                    }
                }
            }
            r
        },
        _ => false,
    }
}


// ── What the probe gives ─────────────────────────────────────────────────────

/// `v` is a number of the same value as `q`.
pub open spec fn num_is(v: ValueRef, q: (int, int)) -> bool {
    v.key() matches ValueKey::Number(p) && same_value(p, q)
}

/// `s` holds numbers of the values `qs`, in order.
pub open spec fn nums_are(s: Seq<ValueRef>, qs: Seq<(int, int)>) -> bool {
    s.len() == qs.len() && forall|j: int| 0 <= j < s.len() ==> num_is(#[trigger] s[j], qs[j])
}

/// The values of `s` whose membership in `c` is `want`, in order.
pub open spec fn kept(s: Seq<ValueRef>, c: Contract, want: bool) -> Seq<ValueRef>
    decreases s.len(),
{
    if s.len() == 0 {
        s
    } else {
        let t = kept(s.drop_last(), c, want);
        if denotes(c, s.last()) == want {
            t.push(s.last())
        } else {
            t
        }
    }
}

/// The probes of the elements of a tuple form `c`, element by element,
/// stopping at the first that gives nothing; `s` is the tuple of the first
/// value of each, or nothing where an element gave nothing.
pub open spec fn tuple_probe(c: Contract, firsts: Seq<Seq<ValueRef>>, s: Seq<ValueRef>) -> bool
    decreases c, 0int,
{
    match c {
        Contract::Tuple(elems) => {
            &&& firsts.len() <= elems@.len()
            &&& forall|j: int| 0 <= j < firsts.len() && j < elems@.len() ==> sampled(#[trigger] elems@[j], firsts[j])
            &&& forall|j: int| 0 <= j < firsts.len() - 1 ==> (#[trigger] firsts[j]).len() > 0
            &&& if firsts.len() == elems@.len() && forall|j: int| 0 <= j < firsts.len() ==> (#[trigger] firsts[j]).len() > 0 {
                s.len() == 1 && s[0].key() == ValueKey::Tuple(Seq::new(firsts.len(), |j: int| firsts[j][0].handle()))
            } else {
                firsts.len() > 0 && firsts.last().len() == 0 && s.len() == 0
            }
        },
        _ => false,
    }
}

/// As `tuple_probe`, for the fields of a record form: the record pairs each
/// field's key with the first value of its probe.
pub open spec fn record_probe(
    c: Contract,
    firsts: Seq<Seq<ValueRef>>,
    pairs: Seq<(Vec<u16>, ValueRef)>,
    s: Seq<ValueRef>,
) -> bool
    decreases c, 0int,
{
    match c {
        Contract::Record(fields) => {
            &&& firsts.len() <= fields@.len()
            &&& forall|j: int| 0 <= j < firsts.len() && j < fields@.len() ==> sampled(#[trigger] fields@[j].1, firsts[j])
            &&& forall|j: int| 0 <= j < firsts.len() - 1 ==> (#[trigger] firsts[j]).len() > 0
            &&& if firsts.len() == fields@.len() && forall|j: int| 0 <= j < firsts.len() ==> (#[trigger] firsts[j]).len() > 0 {
                &&& pairs.len() == fields@.len()
                &&& forall|j: int| 0 <= j < pairs.len() ==> (#[trigger] pairs[j]).0@ == utf16_of(fields@[j].0@)
                    && pairs[j].1 == firsts[j][0]
                &&& s.len() == 1
                &&& s[0].key() matches ValueKey::Record(ks) && record_key_of(pairs, ks)
            } else {
                firsts.len() > 0 && firsts.last().len() == 0 && s.len() == 0
            }
        },
        _ => false,
    }
}

/// `s` is what the probe of `c` gives: a fixed list of candidates per form,
/// each named by its value (handles aside).
pub open spec fn sampled(c: Contract, s: Seq<ValueRef>) -> bool
    decreases c, 1int,
{
    match c {
        Contract::Top => nums_are(s, seq![(0int, 1int), (1int, 1int), (-1int, 1int)]),
        Contract::Bottom => s.len() == 0,
        Contract::Kind(k) => match k {
            Kind::Number => nums_are(s, seq![(0int, 1int), (1int, 1int), (-1int, 1int), (2int, 1int), (100int, 1int)]),
            Kind::String => s.len() == 2 && s[0].key() == ValueKey::Str(seq![]) && s[1].key() == ValueKey::Str(seq![0x61u16]),
            Kind::Boolean => s.len() == 2 && s[0].key() == ValueKey::Boolean(true) && s[1].key() == ValueKey::Boolean(false),
            Kind::Null => s.len() == 1 && s[0].key() == ValueKey::Null,
            Kind::Tuple => s.len() == 1 && s[0].key() == ValueKey::Tuple(seq![]),
            Kind::Record => s.len() == 1 && s[0].key() == ValueKey::Record(seq![]),
            Kind::Function => s.len() == 0,
        },
        Contract::Equals(v) => s == seq![v],
        Contract::Range(lo, hi) => nums_are(s, seq![lo@, hi@, (lo@.0 * hi@.1 + hi@.0 * lo@.1, 2 * (lo@.1 * hi@.1))]),
        Contract::Greater(m) => nums_are(s, seq![(m@.0 + m@.1, m@.1), (2 * m@.0 + m@.1, 2 * m@.1)]),
        Contract::GreaterEq(m) => nums_are(s, seq![m@, (2 * m@.0 + m@.1, 2 * m@.1)]),
        Contract::Less(m) => nums_are(s, seq![(m@.0 - m@.1, m@.1), (2 * m@.0 - m@.1, 2 * m@.1)]),
        Contract::LessEq(m) => nums_are(s, seq![m@, (2 * m@.0 - m@.1, 2 * m@.1)]),
        Contract::Mod { n, r } => nums_are(s, seq![(r@, 1int), (r@ + n@, 1int), (r@ - n@, 1int)]),
        Contract::Geo { b, r } => nums_are(s, seq![b@, (b@.0 * r@.0, b@.1 * r@.1)]),
        Contract::Indeterminate(f) => s.len() == 1 && match f {
            IndetForm::DivZero => s[0].key() is DivZero,
            IndetForm::ModZero => s[0].key() is ModZero,
        },
        Contract::Ref(_) => s.len() == 0,
        Contract::Concat(_) => s.len() == 0,
        Contract::LengthRestricted(..) => s.len() == 0,
        Contract::Union(a, b) => exists|s1: Seq<ValueRef>, s2: Seq<ValueRef>|
            #![trigger s1 + s2]
            sampled(*a, s1) && sampled(*b, s2) && s == s1 + s2,
        Contract::Intersection(a, b) => exists|s1: Seq<ValueRef>, s2: Seq<ValueRef>|
            #![trigger kept(s1 + s2, c, true)]
            sampled(*a, s1) && sampled(*b, s2) && s == kept(s1 + s2, c, true),
        Contract::Difference(a, b) => exists|s1: Seq<ValueRef>| #![trigger kept(s1, *b, false)] sampled(*a, s1) && s == kept(s1, *b, false),
        Contract::HasField(key) => {
            &&& s.len() == 1
            &&& s[0].key() matches ValueKey::Record(ks)
            &&& exists|enc: Seq<(Vec<u16>, ValueRef)>|
                enc.len() == 1 && enc[0].0@ == utf16_of(key@) && num_is(enc[0].1, (0int, 1int))
                    && #[trigger] record_key_of(enc, ks)
        },
        Contract::Tuple(_) => exists|firsts: Seq<Seq<ValueRef>>| #![trigger firsts.len()] tuple_probe(c, firsts, s),
        Contract::Record(_) => exists|firsts: Seq<Seq<ValueRef>>, pairs: Seq<(Vec<u16>, ValueRef)>|
            #![trigger firsts.len(), pairs.len()]
            record_probe(c, firsts, pairs, s),
    }
}

/// The first probe value from `i` on that is in `a` and not in `b`.
pub open spec fn first_outside(s: Seq<ValueRef>, a: Contract, b: Contract, i: int) -> Option<int>
    decreases s.len() - i,
{
    if i < 0 || i >= s.len() {
        None
    } else if denotes(a, s[i]) && !denotes(b, s[i]) {
        Some(i)
    } else {
        first_outside(s, a, b, i + 1)
    }
}

/// The verdict the probe `s` of `a` gives when no rule proves `a ⊑ b`.
pub open spec fn probe_verdict(s: Seq<ValueRef>, a: Contract, b: Contract) -> Verdict {
    match first_outside(s, a, b, 0) {
        Some(j) => Verdict::Refuted(s[j]),
        None => Verdict::Unproven,
    }
}

/// `(m + h)` with `h` one half is `(2m.0 + m.1) / 2m.1`; `(m - h)` likewise.
proof fn lemma_half_step(m: (int, int), h: (int, int))
    requires
        frac_wf(m),
        frac_wf(h),
        same_value(h, (1, 2)),
    ensures
        m.1 * h.1 > 0,
        same_value((m.0 * h.1 + h.0 * m.1, m.1 * h.1), (2 * m.0 + m.1, 2 * m.1)),
        same_value((m.0 * h.1 - h.0 * m.1, m.1 * h.1), (2 * m.0 - m.1, 2 * m.1)),
{
    assert(h.1 == 2 * h.0);
    assert(m.1 * h.1 > 0) by (nonlinear_arith)
        requires
            m.1 > 0,
            h.1 > 0,
    ;
    assert((m.0 * h.1 + h.0 * m.1) * (2 * m.1) == (2 * m.0 + m.1) * (m.1 * h.1)) by (nonlinear_arith)
        requires
            h.1 == 2 * h.0,
    ;
    assert((m.0 * h.1 - h.0 * m.1) * (2 * m.1) == (2 * m.0 - m.1) * (m.1 * h.1)) by (nonlinear_arith)
        requires
            h.1 == 2 * h.0,
    ;
}

/// Halving two fractions of the same value gives fractions of the same value.
proof fn lemma_halve(p: (int, int), q: (int, int))
    requires
        same_value(p, q),
    ensures
        same_value((p.0, p.1 * 2), (q.0, 2 * q.1)),
{
    assert(p.0 * (2 * q.1) == q.0 * (p.1 * 2)) by (nonlinear_arith)
        requires
            p.0 * q.1 == q.0 * p.1,
    ;
}

// ── The refutation side ──────────────────────────────────────────────────────

/// The number `x`, interned, with the value `q` it was computed to have.
fn number_of_value(interner: &mut Interner, x: Rational, Ghost(q): Ghost<(int, int)>) -> (r: ValueRef)
    requires
        old(interner).wf(),
        x.wf(),
        same_value(x@, q),
    ensures
        final(interner).wf(),
        final(interner).extends(old(interner)),
        final(interner).holds(r),
        num_is(r, q),
{
    let ghost xv = x@;
    let r = interner.number(x);
    proof {
        let p = r.key()->Number_0;
        crate::rational::lemma_same_value_transitive(p, xv, q);
    }
    r
}

/// The integer `n`, interned.
fn int_value(interner: &mut Interner, n: i64) -> (r: ValueRef)
    requires
        old(interner).wf(),
    ensures
        final(interner).wf(),
        final(interner).extends(old(interner)),
        final(interner).holds(r),
        num_is(r, (n as int, 1int)),
{
    interner.integer(n)
}

fn half() -> (r: Rational)
    ensures
        r.wf(),
        same_value(r@, (1, 2)),
{
    Rational::from(1).div(&Rational::from(2))
}

/// The values of `vs` whose membership in `c` is `want`, in order.
fn keep_where(vs: Vec<ValueRef>, c: &Contract, want: bool) -> (r: Vec<ValueRef>)
    ensures
        r@ == kept(vs@, *c, want),
{
    let mut out: Vec<ValueRef> = Vec::new();
    let mut i: usize = 0;
    while i < vs.len()
        invariant
            i <= vs@.len(),
            out@ == kept(vs@.subrange(0, i as int), *c, want),
        decreases vs@.len() - i,
    {
        proof {
            assert(vs@.subrange(0, i as int + 1).drop_last() =~= vs@.subrange(0, i as int));
        }
        if c.contains(&vs[i]) == want {
            out.push(vs[i].clone());
        }
        i = i + 1;
    }
    proof {
        assert(vs@.subrange(0, vs@.len() as int) =~= vs@);
    }
    out
}

/// Candidate members of `c`: a fixed, finite probe per form (the caller
/// checks membership).
pub fn sample(c: &Contract, interner: &mut Interner) -> (r: Vec<ValueRef>)
    requires
        old(interner).wf(),
    ensures
        final(interner).wf(),
        final(interner).extends(old(interner)),
        sampled(*c, r@),
        *c is Indeterminate ==> exists|n: ValueRef|
            #![trigger final(interner).holds(n)]
            final(interner).holds(n) && num_is(n, (0int, 1int)) && match r@[0].key() {
                ValueKey::DivZero(h) => n.handle() == h,
                ValueKey::ModZero(h) => n.handle() == h,
                _ => false,
            },
    decreases c,
{
    broadcast use vstd::std_specs::vec::axiom_vec_index_decreases;
    match c {
        Contract::Top => {
            let a = int_value(interner, 0);
            let b = int_value(interner, 1);
            let d = int_value(interner, -1);
            let r = vec![a, b, d];
            assert(r@ == seq![a, b, d]);
            r
        },
        Contract::Bottom => Vec::new(),
        Contract::Kind(k) => match k {
            Kind::Number => {
                let a = int_value(interner, 0);
                let b = int_value(interner, 1);
                let d = int_value(interner, -1);
                let e = int_value(interner, 2);
                let f = int_value(interner, 100);
                let r = vec![a, b, d, e, f];
                assert(r@ == seq![a, b, d, e, f]);
                r
            },
            Kind::String => {
                // The strings "" and "a".
                let e = interner.string_units(Vec::new());
                let units = vec![0x61u16];
                assert(units@ == seq![0x61u16]);
                let a = interner.string_units(units);
                let r = vec![e, a];
                assert(r@ == seq![e, a]);
                r
            },
            Kind::Boolean => {
                let t = interner.boolean(true);
                let f = interner.boolean(false);
                let r = vec![t, f];
                assert(r@ == seq![t, f]);
                r
            },
            Kind::Null => vec![interner.null()],
            Kind::Tuple => {
                let t = interner.tuple(Vec::new());
                assert(crate::value::handles(Seq::<ValueRef>::empty()) =~= seq![]);
                vec![t]
            },
            Kind::Record => {
                let fields: Vec<(Vec<u16>, ValueRef)> = Vec::new();
                let t = interner.record(fields);
                proof {
                    let ks = t.key()->Record_0;
                    if ks.len() > 0 {
                        assert(crate::interner::last_value(fields@, ks[0].0) is Some);
                    }
                    assert(ks =~= seq![]);
                }
                vec![t]
            },
            Kind::Function => Vec::new(),
        },
        Contract::Equals(v) => {
            let r = vec![v.clone()];
            assert(r@ == seq![*v]);
            r
        },
        Contract::Range(lo, hi) => {
            lo.well_formed();
            hi.well_formed();
            let t = lo.add(hi);
            let mid = t.div(&Rational::from(2));
            let ghost tgt = (lo@.0 * hi@.1 + hi@.0 * lo@.1, 2 * (lo@.1 * hi@.1));
            proof {
                lemma_halve(t@, (lo@.0 * hi@.1 + hi@.0 * lo@.1, lo@.1 * hi@.1));
                crate::rational::lemma_same_value_transitive(mid@, (t@.0, t@.1 * 2), tgt);
            }
            let a = number_of_value(interner, lo.clone(), Ghost(lo@));
            let b = number_of_value(interner, hi.clone(), Ghost(hi@));
            let m = number_of_value(interner, mid, Ghost(tgt));
            let r = vec![a, b, m];
            assert(r@ == seq![a, b, m]);
            r
        },
        // A fractional near-bound point too: the rationals are dense, so a
        // half-step finds gaps that integer steps miss.
        Contract::Greater(m) => {
            m.well_formed();
            let h = half();
            let x = m.add(&Rational::from(1));
            let y = m.add(&h);
            proof {
                lemma_half_step(m@, h@);
                crate::rational::lemma_same_value_transitive(
                    y@,
                    (m@.0 * h@.1 + h@.0 * m@.1, m@.1 * h@.1),
                    (2 * m@.0 + m@.1, 2 * m@.1),
                );
            }
            assert((m@.0 * 1 + 1 * m@.1, m@.1 * 1) == (m@.0 + m@.1, m@.1));
            let a = number_of_value(interner, x, Ghost((m@.0 + m@.1, m@.1)));
            let b = number_of_value(interner, y, Ghost((2 * m@.0 + m@.1, 2 * m@.1)));
            let r = vec![a, b];
            assert(r@ == seq![a, b]);
            r
        },
        Contract::GreaterEq(m) => {
            m.well_formed();
            let h = half();
            let y = m.add(&h);
            proof {
                lemma_half_step(m@, h@);
                crate::rational::lemma_same_value_transitive(
                    y@,
                    (m@.0 * h@.1 + h@.0 * m@.1, m@.1 * h@.1),
                    (2 * m@.0 + m@.1, 2 * m@.1),
                );
            }
            let a = number_of_value(interner, m.clone(), Ghost(m@));
            let b = number_of_value(interner, y, Ghost((2 * m@.0 + m@.1, 2 * m@.1)));
            let r = vec![a, b];
            assert(r@ == seq![a, b]);
            r
        },
        Contract::Less(m) => {
            m.well_formed();
            let h = half();
            let x = m.sub(&Rational::from(1));
            let y = m.sub(&h);
            proof {
                lemma_half_step(m@, h@);
                crate::rational::lemma_same_value_transitive(
                    y@,
                    (m@.0 * h@.1 - h@.0 * m@.1, m@.1 * h@.1),
                    (2 * m@.0 - m@.1, 2 * m@.1),
                );
            }
            assert((m@.0 * 1 - 1 * m@.1, m@.1 * 1) == (m@.0 - m@.1, m@.1));
            let a = number_of_value(interner, x, Ghost((m@.0 - m@.1, m@.1)));
            let b = number_of_value(interner, y, Ghost((2 * m@.0 - m@.1, 2 * m@.1)));
            let r = vec![a, b];
            assert(r@ == seq![a, b]);
            r
        },
        Contract::LessEq(m) => {
            m.well_formed();
            let h = half();
            let y = m.sub(&h);
            proof {
                lemma_half_step(m@, h@);
                crate::rational::lemma_same_value_transitive(
                    y@,
                    (m@.0 * h@.1 - h@.0 * m@.1, m@.1 * h@.1),
                    (2 * m@.0 - m@.1, 2 * m@.1),
                );
            }
            let a = number_of_value(interner, m.clone(), Ghost(m@));
            let b = number_of_value(interner, y, Ghost((2 * m@.0 - m@.1, 2 * m@.1)));
            let r = vec![a, b];
            assert(r@ == seq![a, b]);
            r
        },
        Contract::Mod { n, r } => {
            let base = Rational::from_integer(r.clone());
            let step = Rational::from_integer(n.clone());
            let up = base.add(&step);
            let down = base.sub(&step);
            assert((r@ * 1 + n@ * 1, 1int * 1) == (r@ + n@, 1int));
            assert((r@ * 1 - n@ * 1, 1int * 1) == (r@ - n@, 1int));
            let a = number_of_value(interner, base, Ghost((r@, 1int)));
            let b = number_of_value(interner, up, Ghost((r@ + n@, 1int)));
            let d = number_of_value(interner, down, Ghost((r@ - n@, 1int)));
            let out = vec![a, b, d];
            assert(out@ == seq![a, b, d]);
            out
        },
        Contract::Geo { b, r } => {
            b.well_formed();
            r.well_formed();
            let y = b.mul(r);
            let x = number_of_value(interner, b.clone(), Ghost(b@));
            let z = number_of_value(interner, y, Ghost((b@.0 * r@.0, b@.1 * r@.1)));
            let out = vec![x, z];
            assert(out@ == seq![x, z]);
            out
        },
        Contract::Indeterminate(f) => {
            let w = match f {
                IndetForm::DivZero => interner.div_zero(Rational::from(0)),
                IndetForm::ModZero => interner.mod_zero(Rational::from(0)),
            };
            let r = vec![w];
            assert(r@ == seq![w]);
            r
        },
        // A bare reference is unsampleable without its group, and so are the
        // tuple-family forms.
        Contract::Ref(_) => Vec::new(),
        Contract::Concat(_) => Vec::new(),
        Contract::LengthRestricted(..) => Vec::new(),
        Contract::Union(a1, a2) => {
            let mut v = sample(a1, interner);
            let mut w = sample(a2, interner);
            let ghost s1 = v@;
            let ghost s2 = w@;
            v.append(&mut w);
            assert(sampled(**a1, s1) && sampled(**a2, s2) && v@ == s1 + s2);
            v
        },
        Contract::Intersection(a1, a2) => {
            let mut v = sample(a1, interner);
            let mut w = sample(a2, interner);
            let ghost s1 = v@;
            let ghost s2 = w@;
            v.append(&mut w);
            let r = keep_where(v, c, true);
            assert(sampled(**a1, s1) && sampled(**a2, s2) && r@ == kept(s1 + s2, *c, true));
            r
        },
        Contract::Difference(base, ex) => {
            let v = sample(base, interner);
            let ghost s1 = v@;
            let r = keep_where(v, ex, false);
            assert(sampled(**base, s1) && r@ == kept(s1, **ex, false));
            r
        },
        Contract::HasField(key) => {
            let val = int_value(interner, 0);
            let enc = vec![(str_utf16(key.as_str()), val)];
            let ghost e = enc@;
            let t = interner.record(enc);
            proof {
                let ks = t.key()->Record_0;
                assert(e.len() == 1 && e[0].0@ == utf16_of(key@) && num_is(e[0].1, (0int, 1int)) && record_key_of(e, ks));
            }
            vec![t]
        },
        // One record from the first sample of each field; a field with no
        // sample gives no record.
        Contract::Record(fields) => {
            let mut pairs: Vec<(Vec<u16>, ValueRef)> = Vec::new();
            let ghost mut firsts: Seq<Seq<ValueRef>> = Seq::empty();
            let mut i: usize = 0;
            while i < fields.len()
                invariant
                    i <= fields@.len(),
                    *c == Contract::Record(*fields),
                    interner.wf(),
                    interner.extends(old(interner)),
                    firsts.len() == i,
                    pairs@.len() == i,
                    forall|j: int| 0 <= j < i ==> sampled(#[trigger] fields@[j].1, firsts[j]),
                    forall|j: int| 0 <= j < i ==> (#[trigger] firsts[j]).len() > 0,
                    forall|j: int| 0 <= j < i ==> (#[trigger] pairs@[j]).0@ == utf16_of(fields@[j].0@)
                        && pairs@[j].1 == firsts[j][0],
                decreases fields@.len() - i,
            {
                proof {
                    assert(decreases_to!(*fields => fields[i as int]));
                    assert(decreases_to!(*c => c->Record_0));
                    assert(decreases_to!(*c => fields[i as int].1));
                }
                let got = sample(&fields[i].1, interner);
                if got.len() == 0 {
                    proof {
                        assert(firsts.push(got@).last().len() == 0);
                    }
                    let r: Vec<ValueRef> = Vec::new();
                    proof {
                        let fs = firsts.push(got@);
                        assert(record_probe(*c, fs, pairs@, r@));
                        assert(fs.len() == i + 1 && pairs@.len() == i);
                    }
                    return r;
                }
                proof {
                    firsts = firsts.push(got@);
                }
                pairs.push((str_utf16(fields[i].0.as_str()), got[0].clone()));
                i = i + 1;
            }
            let ghost ps = pairs@;
            let t = interner.record(pairs);
            let r = vec![t];
            proof {
                assert(r@ == seq![t]);
                assert(record_probe(*c, firsts, ps, r@));
            }
            r
        },
        Contract::Tuple(elems) => {
            let mut items: Vec<ValueRef> = Vec::new();
            let ghost mut firsts: Seq<Seq<ValueRef>> = Seq::empty();
            let mut i: usize = 0;
            while i < elems.len()
                invariant
                    i <= elems@.len(),
                    *c == Contract::Tuple(*elems),
                    interner.wf(),
                    interner.extends(old(interner)),
                    firsts.len() == i,
                    items@.len() == i,
                    forall|j: int| 0 <= j < i ==> sampled(#[trigger] elems@[j], firsts[j]),
                    forall|j: int| 0 <= j < i ==> (#[trigger] firsts[j]).len() > 0,
                    forall|j: int| 0 <= j < i ==> #[trigger] items@[j] == firsts[j][0],
                decreases elems@.len() - i,
            {
                proof {
                    assert(decreases_to!(*elems => elems[i as int]));
                    assert(decreases_to!(*c => c->Tuple_0));
                }
                let got = sample(&elems[i], interner);
                if got.len() == 0 {
                    proof {
                        assert(firsts.push(got@).last().len() == 0);
                    }
                    let r: Vec<ValueRef> = Vec::new();
                    proof {
                        let fs = firsts.push(got@);
                        assert(tuple_probe(*c, fs, r@));
                        assert(fs.len() == i + 1);
                    }
                    return r;
                }
                proof {
                    firsts = firsts.push(got@);
                }
                items.push(got[0].clone());
                i = i + 1;
            }
            let ghost its = items@;
            let t = interner.tuple(items);
            let r = vec![t];
            proof {
                assert(crate::value::handles(its) =~= Seq::new(firsts.len(), |j: int| firsts[j][0].handle()));
                assert(r@ == seq![t]);
                assert(tuple_probe(*c, firsts, r@));
            }
            r
        },
    }
}

/// The first sampled member of `a` outside `b`, if the probe finds one.
fn refute(a: &Contract, b: &Contract, interner: &mut Interner) -> (r: Option<ValueRef>)
    requires
        old(interner).wf(),
    ensures
        final(interner).wf(),
        final(interner).extends(old(interner)),
        r matches Some(w) ==> denotes(*a, w) && !denotes(*b, w),
        exists|s: Seq<ValueRef>| #[trigger] sampled(*a, s) && r == (match first_outside(s, *a, *b, 0) {
            Some(j) => Some(s[j]),
            None => None,
        }),
{
    let samples = sample(a, interner);
    let ghost s = samples@;
    let mut i: usize = 0;
    while i < samples.len()
        invariant
            i <= samples@.len(),
            s == samples@,
            sampled(*a, s),
            interner.wf(),
            interner.extends(old(interner)),
            first_outside(s, *a, *b, 0) == first_outside(s, *a, *b, i as int),
        decreases samples@.len() - i,
    {
        if a.contains(&samples[i]) && !b.contains(&samples[i]) {
            assert(first_outside(s, *a, *b, i as int) == Some(i as int));
            let w = samples[i].clone();
            assert(w == s[i as int]);
            assert(sampled(*a, s) && Some(w) == (match first_outside(s, *a, *b, 0) {
                Some(j) => Some(s[j]),
                None => None,
            }));
            return Some(w);
        }
        assert(first_outside(s, *a, *b, i as int) == first_outside(s, *a, *b, i as int + 1));
        i = i + 1;
    }
    assert(first_outside(s, *a, *b, i as int) is None);
    None
}

/// The three-valued subcontract verdict.
#[derive(Debug)]
pub enum Verdict {
    Proven,
    Refuted(ValueRef),
    Unproven,
}

/// Decides `a ⊑ b`: `Proven` exactly when the structural and atom rules
/// prove it, else the first probe value of `a` outside `b`, else
/// `Unproven`. `Proven` (when no record form names a key twice) means that
/// in every world holding the singletons of both, every member of `a` is a
/// member of `b`; `Refuted(w)` gives a member of `a` outside `b`.
pub fn subcontract(a: &Contract, b: &Contract, interner: &mut Interner) -> (r: Verdict)
    requires
        old(interner).wf(),
    ensures
        final(interner).wf(),
        final(interner).extends(old(interner)),
        (r is Proven) == provable_rule(*a, *b),
        !provable_rule(*a, *b) ==> exists|s: Seq<ValueRef>| #[trigger] sampled(*a, s) && r == probe_verdict(s, *a, *b),
        r is Proven ==> (keys_distinct(*a) && keys_distinct(*b) ==> sub_on(*a, *b)),
        r matches Verdict::Refuted(w) ==> denotes(*a, w) && !denotes(*b, w),
{
    bounds_wf(a);
    bounds_wf(b);
    if provable(a, b) {
        return Verdict::Proven;
    }
    let found = refute(a, b, interner);
    let ghost s = choose|s: Seq<ValueRef>| #[trigger] sampled(*a, s) && found == (match first_outside(s, *a, *b, 0) {
        Some(j) => Some(s[j]),
        None => None,
    });
    let r = match found {
        Some(w) => Verdict::Refuted(w),
        None => Verdict::Unproven,
    };
    assert(sampled(*a, s) && r == probe_verdict(s, *a, *b));
    r
}

impl Contract {
    /// The probe values that belong to the contract, in probe order:
    /// witnesses of its inhabitance (the probe is finite, so a member it
    /// misses is not returned).
    pub fn proven_members(&self, interner: &mut Interner) -> (r: Vec<ValueRef>)
        requires
            old(interner).wf(),
        ensures
            final(interner).wf(),
            final(interner).extends(old(interner)),
            exists|s: Seq<ValueRef>| #[trigger] sampled(*self, s) && r@ == kept(s, *self, true),
            forall|j: int| 0 <= j < r@.len() ==> denotes(*self, #[trigger] r@[j]),
    {
        let v = sample(self, interner);
        let ghost s = v@;
        let r = keep_where(v, self, true);
        proof {
            lemma_kept_members(s, *self);
        }
        assert(sampled(*self, s) && r@ == kept(s, *self, true));
        r
    }

    /// Whether some probe value belongs to the contract: `true` means
    /// inhabited, with a witness; `false` proves nothing.
    pub fn has_proven_inhabitant(&self, interner: &mut Interner) -> (r: bool)
        requires
            old(interner).wf(),
        ensures
            final(interner).wf(),
            final(interner).extends(old(interner)),
            exists|s: Seq<ValueRef>| #[trigger] sampled(*self, s) && (r <==> kept(s, *self, true).len() > 0),
            r ==> exists|w: ValueRef| #[trigger] denotes(*self, w),
    {
        let m = self.proven_members(interner);
        let ghost s = choose|s: Seq<ValueRef>| #[trigger] sampled(*self, s) && m@ == kept(s, *self, true);
        if m.len() > 0 {
            assert(denotes(*self, m@[0]));
            assert(sampled(*self, s) && (true <==> kept(s, *self, true).len() > 0));
            true
        } else {
            assert(sampled(*self, s) && (false <==> kept(s, *self, true).len() > 0));
            false
        }
    }
}

/// What `kept` keeps for `true` belongs to the contract.
proof fn lemma_kept_members(s: Seq<ValueRef>, c: Contract)
    ensures
        forall|j: int| 0 <= j < kept(s, c, true).len() ==> denotes(c, #[trigger] kept(s, c, true)[j]),
    decreases s.len(),
{
    if s.len() > 0 {
        lemma_kept_members(s.drop_last(), c);
        let t = kept(s.drop_last(), c, true);
        assert forall|j: int| 0 <= j < kept(s, c, true).len() implies denotes(c, #[trigger] kept(s, c, true)[j]) by {
            if denotes(c, s.last()) {
                assert(kept(s, c, true) == t.push(s.last()));
                if j < t.len() {
                    assert(kept(s, c, true)[j] == t[j]);
                }
            } else {
                assert(kept(s, c, true) == t);
            }
        }
    }
}

// ── Laws of the proof rules ──────────────────────────────────────────────────

/// A disjointness found for a union holds for each of its alternatives.
proof fn lemma_disjoint_union_parts(a1: Contract, a2: Contract, d: Contract)
    requires
        disjoint_rule(Contract::Union(Box::new(a1), Box::new(a2)), d),
    ensures
        disjoint_rule(a1, d),
        disjoint_rule(a2, d),
{
    let a = Contract::Union(Box::new(a1), Box::new(a2));
    if d is Bottom {
    } else if d is Equals {
        let w = d->Equals_0;
        assert(!denotes(a, w));
        assert(!denotes(a1, w) && !denotes(a2, w));
    } else {
        assert(disjoint_rule(a1, d) && disjoint_rule(a2, d));
    }
}

/// A disjointness found for a singleton means the other side lacks its value.
proof fn lemma_disjoint_singleton(v: ValueRef, d: Contract)
    requires
        disjoint_rule(Contract::Equals(v), d),
    ensures
        !denotes(d, v),
{
}

/// What the rules prove of a union source they prove of each alternative.
pub proof fn lemma_union_source(a1: Contract, a2: Contract, b: Contract)
    requires
        provable_rule(Contract::Union(Box::new(a1), Box::new(a2)), b),
    ensures
        provable_rule(a1, b),
        provable_rule(a2, b),
    decreases b,
{
    let a = Contract::Union(Box::new(a1), Box::new(a2));
    if empty_rule(a) {
    } else if b is Top {
    } else if b is Intersection {
        lemma_union_source(a1, a2, *b->Intersection_0);
        lemma_union_source(a1, a2, *b->Intersection_1);
    } else if b is Difference {
        lemma_union_source(a1, a2, *b->Difference_0);
        lemma_disjoint_union_parts(a1, a2, *b->Difference_1);
    }
}

/// What the rules prove of a singleton source holds of its value.
pub proof fn lemma_singleton_source(v: ValueRef, b: Contract)
    requires
        provable_rule(Contract::Equals(v), b),
    ensures
        denotes(b, v),
    decreases b,
{
    let a = Contract::Equals(v);
    if b is Top {
    } else if b is Intersection {
        lemma_singleton_source(v, *b->Intersection_0);
        lemma_singleton_source(v, *b->Intersection_1);
    } else if b is Difference {
        lemma_singleton_source(v, *b->Difference_0);
        lemma_disjoint_singleton(v, *b->Difference_1);
    }
}

/// The rules decide a singleton source exactly: `{v} ⊑ b` is proved just
/// when `v` is a member of `b`.
pub proof fn lemma_singleton_source_exact(v: ValueRef, b: Contract)
    ensures
        provable_rule(Contract::Equals(v), b) <==> denotes(b, v),
    decreases b,
{
    let a = Contract::Equals(v);
    assert(!empty_rule(a));
    if b is Top {
    } else if b is Intersection {
        lemma_singleton_source_exact(v, *b->Intersection_0);
        lemma_singleton_source_exact(v, *b->Intersection_1);
    } else if b is Difference {
        lemma_singleton_source_exact(v, *b->Difference_0);
        let d = *b->Difference_1;
        if d is Bottom {
            assert(disjoint_rule(a, d));
            assert(!denotes(d, v));
        } else {
            assert(disjoint_rule(a, d) == !denotes(d, v));
        }
    } else {
        assert(provable_rule(a, b) == denotes(b, v));
    }
}

/// Every numeric-interval or lattice form is proved a subcontract of the
/// numbers.
pub proof fn lemma_numeric_forms_are_numbers(a: Contract)
    requires
        numeric_form(a),
    ensures
        provable_rule(a, Contract::Kind(Kind::Number)),
{
    assert(atom_rule(a, Contract::Kind(Kind::Number)));
}

/// A difference is proved below whatever its base is proved below, for an
/// atom-like target (not an intersection, difference or union).
pub proof fn lemma_difference_source(a0: Contract, e: Contract, b: Contract)
    requires
        !(b is Intersection || b is Difference),
        provable_rule(a0, b),
    ensures
        provable_rule(Contract::Difference(Box::new(a0), Box::new(e)), b),
{
}

/// An intersection is proved below whatever either side is proved below,
/// for a target that is not an intersection, difference or union.
pub proof fn lemma_intersection_source(a1: Contract, a2: Contract, b: Contract)
    requires
        !(b is Intersection || b is Difference || b is Union),
        provable_rule(a1, b) || provable_rule(a2, b),
    ensures
        provable_rule(Contract::Intersection(Box::new(a1), Box::new(a2)), b),
{
}

/// A proof against both sides of an intersection is a proof against the
/// intersection: `a ⊑ b1` and `a ⊑ b2` give `a ⊑ b1 ∩ b2`, and back.
pub proof fn lemma_intersection_target(a: Contract, b1: Contract, b2: Contract)
    ensures
        provable_rule(a, b1) && provable_rule(a, b2) ==> provable_rule(
            a,
            Contract::Intersection(Box::new(b1), Box::new(b2)),
        ),
        !empty_rule(a) ==> (provable_rule(a, Contract::Intersection(Box::new(b1), Box::new(b2))) ==> provable_rule(a, b1)
            && provable_rule(a, b2)),
{
}

/// Widening the target by a union keeps a proof: when the rules prove
/// `a ⊑ b1` or `a ⊑ b2`, they prove `a ⊑ b1 ∪ b2` (so `subcontract` answers
/// `Proven` for the union whenever it does for either alternative).
pub proof fn lemma_union_target(a: Contract, b1: Contract, b2: Contract)
    requires
        provable_rule(a, b1) || provable_rule(a, b2),
    ensures
        provable_rule(a, Contract::Union(Box::new(b1), Box::new(b2))),
    decreases a,
{
    let b = Contract::Union(Box::new(b1), Box::new(b2));
    if empty_rule(a) {
    } else if a is Bottom {
    } else if a is Union {
        let a1 = *a->Union_0;
        let a2 = *a->Union_1;
        assert(a == Contract::Union(Box::new(a1), Box::new(a2)));
        if provable_rule(a, b1) {
            lemma_union_source(a1, a2, b1);
        } else {
            lemma_union_source(a1, a2, b2);
        }
        lemma_union_target(a1, b1, b2);
        lemma_union_target(a2, b1, b2);
    } else if a is Difference && provable_rule(*a->Difference_0, b) {
    } else if a is Equals {
        if provable_rule(a, b1) {
            lemma_singleton_source(a->Equals_0, b1);
        } else {
            lemma_singleton_source(a->Equals_0, b2);
        }
    }
}

} // verus!
