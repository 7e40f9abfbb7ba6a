//! Denotational membership: whether a value is in the set a contract denotes.
//!
//! Values are interned, so two values are equal exactly when their handles
//! are; a singleton contract compares handles.

use super::{congruent, frac_mul, frac_pow, is_whole, Contract, IndetForm, Kind};
use crate::bignum::{big_div_floor, big_eq, big_from_i64, big_lt, big_mod_floor, big_mul, big_neg, big_sub, BigNum};
use crate::rational::{frac_wf, same_value, value_lt, Rational};
use crate::text::{str_utf16, units_eq, utf16_of};
use crate::value::{IndeterminateForm, RecordEntry, ValueData, ValueRef};
use vstd::arithmetic::power::pow;
use vstd::prelude::*;

verus! {

/// The kind of a value, or `None` for an Indeterminate value.
pub open spec fn kind_of(d: ValueData) -> Option<Kind> {
    match d {
        ValueData::Number(_) => Some(Kind::Number),
        ValueData::Str(_) => Some(Kind::String),
        ValueData::Boolean(_) => Some(Kind::Boolean),
        ValueData::Null => Some(Kind::Null),
        ValueData::Tuple(_) => Some(Kind::Tuple),
        ValueData::Record(_) => Some(Kind::Record),
        ValueData::Indeterminate(_) => None,
    }
}

/// The number a value is, when it is one.
pub open spec fn number_of(v: ValueRef) -> Option<(int, int)> {
    match v.data_spec() {
        ValueData::Number(n) => Some(n@),
        _ => None,
    }
}

/// The form of an Indeterminate payload.
pub open spec fn form_of(f: IndeterminateForm) -> IndetForm {
    match f {
        IndeterminateForm::DivZero(_) => IndetForm::DivZero,
        IndeterminateForm::ModZero(_) => IndetForm::ModZero,
    }
}

/// The integer `x` on the lattice `x ≡ r (mod n)`, for a nonzero modulus.
pub open spec fn mod_has(x: (int, int), n: int, r: int) -> bool {
    n != 0 && is_whole(x) && congruent(x.0 / x.1, n, r)
}

/// `x` is a term `b·rᵏ` of the geometric sequence, which is formed only for a
/// ratio above one and a nonzero start.
pub open spec fn geo_has(x: (int, int), b: (int, int), r: (int, int)) -> bool {
    value_lt((1, 1), r) && b.0 != 0 && exists|k: nat| same_value(x, #[trigger] frac_mul(b, frac_pow(r, k)))
}

/// The length of an aggregate: a tuple's arity or a record's field count.
pub open spec fn length_of(v: ValueRef) -> Option<nat> {
    match v.data_spec() {
        ValueData::Tuple(items) => Some(items@.len()),
        ValueData::Record(es) => Some(es@.len()),
        _ => None,
    }
}

/// The first entry with key `k`, searching from `i`.
pub open spec fn first_entry(es: Seq<RecordEntry>, k: Seq<u16>, i: int) -> Option<int>
    decreases es.len() - i,
{
    if i < 0 || i >= es.len() {
        None
    } else if es[i].key@ == k {
        Some(i)
    } else {
        first_entry(es, k, i + 1)
    }
}

/// Whether the natural number `n` is in a number contract read as a length
/// domain.
pub open spec fn nat_in(d: Contract, n: nat) -> bool
    decreases d,
{
    let q = (n as int, 1int);
    match d {
        Contract::Top => true,
        Contract::Kind(k) => k == Kind::Number,
        Contract::Bottom => false,
        Contract::Range(l, h) => !value_lt(q, l@) && !value_lt(h@, q),
        Contract::Greater(m) => value_lt(m@, q),
        Contract::GreaterEq(m) => !value_lt(q, m@),
        Contract::Less(m) => value_lt(q, m@),
        Contract::LessEq(m) => !value_lt(m@, q),
        Contract::Mod { n: m, r } => m@ != 0 && congruent(n as int, m@, r@),
        Contract::Union(a, b) => nat_in(*a, n) || nat_in(*b, n),
        Contract::Intersection(a, b) => nat_in(*a, n) && nat_in(*b, n),
        Contract::Difference(a, b) => nat_in(*a, n) && !nat_in(*b, n),
        _ => false,
    }
}

/// The value `v` is in the set the contract `c` denotes.
pub open spec fn denotes(c: Contract, v: ValueRef) -> bool
    decreases c, 2int, 0int, 0int,
{
    match c {
        Contract::Top => true,
        Contract::Bottom => false,
        Contract::Kind(k) => kind_of(v.data_spec()) == Some(k),
        Contract::Equals(x) => x.handle() == v.handle(),
        Contract::Range(l, h) => number_of(v) matches Some(q) && !value_lt(q, l@) && !value_lt(h@, q),
        Contract::Greater(m) => number_of(v) matches Some(q) && value_lt(m@, q),
        Contract::GreaterEq(m) => number_of(v) matches Some(q) && !value_lt(q, m@),
        Contract::Less(m) => number_of(v) matches Some(q) && value_lt(q, m@),
        Contract::LessEq(m) => number_of(v) matches Some(q) && !value_lt(m@, q),
        Contract::Mod { n, r } => number_of(v) matches Some(q) && mod_has(q, n@, r@),
        Contract::Geo { b, r } => number_of(v) matches Some(q) && geo_has(q, b@, r@),
        Contract::Union(a, b) => denotes(*a, v) || denotes(*b, v),
        Contract::Intersection(a, b) => denotes(*a, v) && denotes(*b, v),
        Contract::Difference(a, b) => denotes(*a, v) && !denotes(*b, v),
        Contract::Record(fields) => v.data_spec() matches ValueData::Record(es) && es@.len() == fields@.len()
            && forall|j: int|
            0 <= j < fields@.len() ==> (first_entry(es@, utf16_of((#[trigger] fields@[j]).0@), 0) matches Some(i)
                && denotes(fields@[j].1, es@[i].value)),
        Contract::HasField(key) => v.data_spec() matches ValueData::Record(es) && first_entry(
            es@,
            utf16_of(key@),
            0,
        ) is Some,
        Contract::Tuple(elems) => v.data_spec() matches ValueData::Tuple(items) && items@.len() == elems@.len()
            && forall|i: int| 0 <= i < elems@.len() ==> denotes(#[trigger] elems@[i], items@[i]),
        Contract::Concat(segs) => v.data_spec() matches ValueData::Tuple(items) && split_from(c, 0, items@),
        Contract::Indeterminate(f) => v.data_spec() matches ValueData::Indeterminate(g) && form_of(g) == f,
        Contract::Ref(_) => false,
        Contract::LengthRestricted(t, d) => denotes(*t, v) && (length_of(v) matches Some(n) && nat_in(*d, n)),
    }
}

/// The tuple formed from the values `w` is in the set a segment contract
/// denotes.
pub open spec fn window_ok(c: Contract, w: Seq<ValueRef>) -> bool
    decreases c, 1int, 0int, 0int,
{
    match c {
        Contract::Tuple(elems) => elems@.len() == w.len() && forall|i: int|
            0 <= i < elems@.len() ==> denotes(#[trigger] elems@[i], w[i]),
        Contract::Concat(_) => split_from(c, 0, w),
        Contract::Union(a, b) => window_ok(*a, w) || window_ok(*b, w),
        Contract::Intersection(a, b) => window_ok(*a, w) && window_ok(*b, w),
        Contract::Difference(a, b) => window_ok(*a, w) && !window_ok(*b, w),
        Contract::Top => true,
        Contract::Bottom => false,
        Contract::Kind(k) => k == Kind::Tuple,
        Contract::Equals(t) => t.data_spec() matches ValueData::Tuple(items) && items@.len() == w.len() && forall|i: int|
            0 <= i < w.len() ==> (#[trigger] items@[i]).handle() == w[i].handle(),
        _ => false,
    }
}

/// The values `w` split into consecutive windows satisfying the segments of
/// the concatenation `c` from the `j`-th on, in order.
pub open spec fn split_from(c: Contract, j: int, w: Seq<ValueRef>) -> bool
    decreases c, 0int, (if c is Concat { c->Concat_0@.len() } else { 0 }) - j, w.len() + 2,
{
    match c {
        Contract::Concat(segs) => if j < 0 || j > segs@.len() {
            false
        } else if j == segs@.len() {
            w.len() == 0
        } else {
            split_try(c, j, w, 0)
        },
        _ => false,
    }
}

/// Some first window of `w`, of length `k` or longer, satisfies the `j`-th
/// segment of `c` with the rest splitting over the segments after it.
pub open spec fn split_try(c: Contract, j: int, w: Seq<ValueRef>, k: int) -> bool
    decreases c, 0int, (if c is Concat { c->Concat_0@.len() } else { 0 }) - j, w.len() + 1 - k,
{
    match c {
        Contract::Concat(segs) => if j < 0 || j >= segs@.len() || k < 0 || k > w.len() {
            false
        } else {
            (window_ok(segs@[j], w.take(k)) && split_from(c, j + 1, w.skip(k))) || split_try(c, j, w, k + 1)
        },
        _ => false,
    }
}

/// The integer `n`, arbitrary-precision.
fn big_from_usize(n: usize) -> (r: BigNum)
    ensures
        r@ == n as int,
{
    let q = n / 4;
    let m = n % 4;
    crate::bignum::big_add(&big_mul(&big_from_i64(q as i64), &big_from_i64(4)), &big_from_i64(m as i64))
}

/// The magnitude of `n`.
fn magnitude(n: &BigNum) -> (r: BigNum)
    ensures
        r@ == abs_int(n@),
{
    if big_lt(n, &big_from_i64(0)) {
        big_neg(n)
    } else {
        n.clone()
    }
}

/// The integer `x` lies on `x ≡ r (mod n)` for a nonzero `n`.
pub(crate) fn int_on_lattice(x: &BigNum, n: &BigNum, r: &BigNum) -> (b: bool)
    ensures
        b == (n@ != 0 && congruent(x@, n@, r@)),
{
    let m = magnitude(n);
    if big_eq(&m, &big_from_i64(0)) {
        return false;
    }
    big_eq(&big_mod_floor(&big_sub(x, r), &m), &big_from_i64(0))
}

/// The number `x` on the lattice `x ≡ r (mod n)`.
fn in_mod(x: &Rational, n: &BigNum, r: &BigNum) -> (b: bool)
    ensures
        b == mod_has(x@, n@, r@),
{
    let q = x.clone();
    if !q.is_integer() {
        return false;
    }
    let xi = big_div_floor(q.numer(), q.denom());
    int_on_lattice(&xi, n, r)
}

/// The position of the first entry with key `k`.
pub(crate) fn find_entry(es: &Vec<RecordEntry>, k: &Vec<u16>) -> (r: Option<usize>)
    ensures
        r matches Some(i) ==> i < es@.len() && first_entry(es@, k@, 0) == Some(i as int),
        r is None ==> first_entry(es@, k@, 0) is None,
{
    let mut i: usize = 0;
    while i < es.len()
        invariant
            i <= es@.len(),
            first_entry(es@, k@, 0) == first_entry(es@, k@, i as int),
        decreases es@.len() - i,
    {
        if units_eq(&es[i].key, k) {
            return Some(i);
        }
        i = i + 1;
    }
    None
}

/// Whether the natural number `n` is in the length domain `d`.
pub fn nat_in_exec(d: &Contract, n: usize) -> (r: bool)
    ensures
        r == nat_in(*d, n as nat),
    decreases d,
{
    let q = Rational::from_integer(big_from_usize(n));
    match d {
        Contract::Top => true,
        Contract::Kind(k) => *k == Kind::Number,
        Contract::Bottom => false,
        Contract::Range(l, h) => !q.lt(l) && !h.lt(&q),
        Contract::Greater(m) => m.lt(&q),
        Contract::GreaterEq(m) => !q.lt(m),
        Contract::Less(m) => q.lt(m),
        Contract::LessEq(m) => !m.lt(&q),
        Contract::Mod { n: m, r } => int_on_lattice(&big_from_usize(n), m, r),
        Contract::Union(a, b) => nat_in_exec(a, n) || nat_in_exec(b, n),
        Contract::Intersection(a, b) => nat_in_exec(a, n) && nat_in_exec(b, n),
        Contract::Difference(a, b) => nat_in_exec(a, n) && !nat_in_exec(b, n),
        _ => false,
    }
}

impl Contract {
    /// Denotational membership: whether `v` is in the set the contract
    /// denotes. A bare reference to a named contract denotes nothing.
    pub fn contains(&self, v: &ValueRef) -> (r: bool)
        ensures
            r == denotes(*self, *v),
        decreases *self, 2int, 0int, 0int,
    {
        match self {
            Contract::Top => true,
            Contract::Bottom => false,
            Contract::Kind(k) => {
                let kind = match v.data() {
                    ValueData::Number(_) => Some(Kind::Number),
                    ValueData::Str(_) => Some(Kind::String),
                    ValueData::Boolean(_) => Some(Kind::Boolean),
                    ValueData::Null => Some(Kind::Null),
                    ValueData::Tuple(_) => Some(Kind::Tuple),
                    ValueData::Record(_) => Some(Kind::Record),
                    ValueData::Indeterminate(_) => None,
                };
                assert(kind == kind_of(v.data_spec()));
                match kind {
                    Some(kk) => kk == *k,
                    None => false,
                }
            },
            Contract::Equals(x) => x.ptr_eq(v),
            Contract::Range(l, h) => match v.as_number() {
                Some(q) => !q.lt(l) && !h.lt(q),
                None => false,
            },
            Contract::Greater(m) => match v.as_number() {
                Some(q) => m.lt(q),
                None => false,
            },
            Contract::GreaterEq(m) => match v.as_number() {
                Some(q) => !q.lt(m),
                None => false,
            },
            Contract::Less(m) => match v.as_number() {
                Some(q) => q.lt(m),
                None => false,
            },
            Contract::LessEq(m) => match v.as_number() {
                Some(q) => !m.lt(q),
                None => false,
            },
            Contract::Mod { n, r } => match v.as_number() {
                Some(q) => in_mod(q, n, r),
                None => false,
            },
            Contract::Geo { b, r } => match v.as_number() {
                Some(q) => in_geo(q, b, r),
                None => false,
            },
            Contract::Union(a, b) => a.contains(v) || b.contains(v),
            Contract::Intersection(a, b) => a.contains(v) && b.contains(v),
            Contract::Difference(a, b) => a.contains(v) && !b.contains(v),
            Contract::Record(fields) => match v.as_record() {
                Some(es) => {
                    if es.len() != fields.len() {
                        return false;
                    }
                    let mut j: usize = 0;
                    while j < fields.len()
                        invariant
                            j <= fields@.len(),
                            *self == Contract::Record(*fields),
                            v.data_spec() == ValueData::Record(*es),
                            es@.len() == fields@.len(),
                            forall|t: int|
                                0 <= t < j ==> (first_entry(es@, utf16_of((#[trigger] fields@[t]).0@), 0) matches Some(i)
                                    && denotes(fields@[t].1, es@[i].value)),
                        decreases fields@.len() - j,
                    {
                        let ku = str_utf16(fields[j].0.as_str());
                        assert(ku@ == utf16_of(fields@[j as int].0@));
                        match find_entry(es, &ku) {
                            Some(i) => {
                                proof {
                                    assert(decreases_to!(*self => self->Record_0));
                                    assert(decreases_to!(self->Record_0 => self->Record_0@));
                                    assert(decreases_to!(self->Record_0@ => self->Record_0@[j as int]));
                                    assert(decreases_to!(self->Record_0@[j as int] => self->Record_0@[j as int].1));
                                }
                                if !fields[j].1.contains(&es[i].value) {
                                    proof {
                                        assert(!denotes(fields@[j as int].1, es@[i as int].value));
                                    }
                                    return false;
                                }
                                proof {
                                    assert(denotes(fields@[j as int].1, es@[i as int].value));
                                }
                            },
                            None => {
                                proof {
                                    assert(first_entry(es@, utf16_of(fields@[j as int].0@), 0) is None);
                                }
                                return false;
                            },
                        }
                        j = j + 1;
                    }
                    true
                },
                None => false,
            },
            Contract::HasField(key) => match v.as_record() {
                Some(es) => {
                    let ku = str_utf16(key.as_str());
                    find_entry(es, &ku).is_some()
                },
                None => false,
            },
            Contract::Tuple(elems) => match v.as_tuple() {
                Some(items) => {
                    if items.len() != elems.len() {
                        return false;
                    }
                    let mut i: usize = 0;
                    while i < elems.len()
                        invariant
                            i <= elems@.len(),
                            items@.len() == elems@.len(),
                            *self == Contract::Tuple(*elems),
                            v.data_spec() == ValueData::Tuple(*items),
                            forall|t: int| 0 <= t < i ==> denotes(#[trigger] elems@[t], items@[t]),
                        decreases elems@.len() - i,
                    {
                        proof {
                            assert(decreases_to!(*self => self->Tuple_0));
                            assert(decreases_to!(self->Tuple_0 => self->Tuple_0@));
                            assert(decreases_to!(self->Tuple_0@ => self->Tuple_0@[i as int]));
                        }
                        if !elems[i].contains(&items[i]) {
                            assert(!denotes(elems@[i as int], items@[i as int]));
                            return false;
                        }
                        i = i + 1;
                    }
                    true
                },
                None => false,
            },
            Contract::Concat(segs) => match v.as_tuple() {
                Some(items) => {
                    assert(items@.subrange(0, items@.len() as int) == items@);
                    split_window(self, segs, 0, items, 0, items.len())
                },
                None => false,
            },
            Contract::Indeterminate(f) => match v.data() {
                ValueData::Indeterminate(g) => match g {
                    IndeterminateForm::DivZero(_) => *f == IndetForm::DivZero,
                    IndeterminateForm::ModZero(_) => *f == IndetForm::ModZero,
                },
                _ => false,
            },
            Contract::Ref(_) => false,
            Contract::LengthRestricted(t, d) => {
                if !t.contains(v) {
                    return false;
                }
                match v.data() {
                    ValueData::Tuple(items) => nat_in_exec(d, items.len()),
                    ValueData::Record(es) => nat_in_exec(d, es.len()),
                    _ => false,
                }
            },
        }
    }
}

/// Whether the tuple of `items[lo..hi]` is in the set the segment contract
/// `c` denotes.
fn window_contains(c: &Contract, items: &Vec<ValueRef>, lo: usize, hi: usize) -> (r: bool)
    requires
        lo <= hi <= items@.len(),
    ensures
        r == window_ok(*c, items@.subrange(lo as int, hi as int)),
    decreases *c, 1int, 0int, 0int,
{
    let ghost w = items@.subrange(lo as int, hi as int);
    match c {
        Contract::Tuple(elems) => {
            if hi - lo != elems.len() {
                return false;
            }
            let mut i: usize = 0;
            while i < elems.len()
                invariant
                    i <= elems@.len(),
                    lo + elems@.len() == hi,
                    hi <= items@.len(),
                    w == items@.subrange(lo as int, hi as int),
                    *c == Contract::Tuple(*elems),
                    forall|t: int| 0 <= t < i ==> denotes(#[trigger] elems@[t], w[t]),
                decreases elems@.len() - i,
            {
                assert(w[i as int] == items@[lo + i]);
                proof {
                    assert(decreases_to!(*c => c->Tuple_0));
                    assert(decreases_to!(c->Tuple_0 => c->Tuple_0@));
                    assert(decreases_to!(c->Tuple_0@ => c->Tuple_0@[i as int]));
                }
                if !elems[i].contains(&items[lo + i]) {
                    return false;
                }
                i = i + 1;
            }
            true
        },
        Contract::Concat(segs) => split_window(c, segs, 0, items, lo, hi),
        Contract::Union(a, b) => window_contains(a, items, lo, hi) || window_contains(b, items, lo, hi),
        Contract::Intersection(a, b) => window_contains(a, items, lo, hi) && window_contains(b, items, lo, hi),
        Contract::Difference(a, b) => window_contains(a, items, lo, hi) && !window_contains(b, items, lo, hi),
        Contract::Top => true,
        Contract::Bottom => false,
        Contract::Kind(k) => *k == Kind::Tuple,
        Contract::Equals(t) => match t.as_tuple() {
            Some(ts) => {
                if ts.len() != hi - lo {
                    return false;
                }
                let mut i: usize = 0;
                while i < ts.len()
                    invariant
                        i <= ts@.len(),
                        lo + ts@.len() == hi,
                        hi <= items@.len(),
                        w == items@.subrange(lo as int, hi as int),
                        *c == Contract::Equals(*t),
                        t.data_spec() == ValueData::Tuple(*ts),
                        forall|k: int| 0 <= k < i ==> (#[trigger] ts@[k]).handle() == w[k].handle(),
                    decreases ts@.len() - i,
                {
                    assert(w[i as int] == items@[lo + i]);
                    if !ts[i].ptr_eq(&items[lo + i]) {
                        return false;
                    }
                    i = i + 1;
                }
                true
            },
            None => false,
        },
        _ => false,
    }
}

/// Whether `items[lo..hi]` splits into consecutive windows satisfying the
/// segments `segs[j..]` of the concatenation `c`, in order: each first window
/// length is tried in turn.
fn split_window(c: &Contract, segs: &Vec<Contract>, j: usize, items: &Vec<ValueRef>, lo: usize, hi: usize) -> (r: bool)
    requires
        *c == Contract::Concat(*segs),
        j <= segs@.len(),
        lo <= hi <= items@.len(),
    ensures
        r == split_from(*c, j as int, items@.subrange(lo as int, hi as int)),
    decreases *c, 0int, segs@.len() - j, hi - lo + 2,
{
    let ghost w = items@.subrange(lo as int, hi as int);
    if j == segs.len() {
        return lo == hi;
    }
    let n = segs.len();
    let mut k: usize = lo;
    loop
        invariant
            lo <= k <= hi,
            hi <= items@.len(),
            j < n,
            n == segs@.len(),
            *c == Contract::Concat(*segs),
            w == items@.subrange(lo as int, hi as int),
            split_from(*c, j as int, w) == split_try(*c, j as int, w, k - lo),
        decreases hi - k,
    {
        proof {
            assert(w.take(k - lo) == items@.subrange(lo as int, k as int));
            assert(w.skip(k - lo) == items@.subrange(k as int, hi as int));
            assert(decreases_to!(*c => c->Concat_0));
            assert(decreases_to!(c->Concat_0 => c->Concat_0@));
            assert(decreases_to!(c->Concat_0@ => c->Concat_0@[j as int]));
        }
        if window_contains(&segs[j], items, lo, k) && split_window(c, segs, j + 1, items, k, hi) {
            return true;
        }
        if k == hi {
            proof {
                assert(!split_try(*c, j as int, w, k - lo + 1));
            }
            return false;
        }
        k = k + 1;
    }
}

/// The absolute value.
pub open spec fn abs_int(x: int) -> int {
    if x < 0 { -x } else { x }
}

/// `rnᵏ ≥ rdᵏ⁻¹·(rd + k)` for `rn > rd ≥ 1` (Bernoulli's inequality, scaled).
proof fn lemma_bernoulli(rn: int, rd: int, k: nat)
    requires
        rd >= 1,
        rn >= rd + 1,
        k >= 1,
    ensures
        pow(rn, k) >= pow(rd, (k - 1) as nat) * (rd + k),
    decreases k,
{
    reveal(pow);
    if k == 1 {
        assert(pow(rd, 0) == 1);
        assert(pow(rn, 1) == rn * pow(rn, 0));
    } else {
        let k1 = (k - 1) as nat;
        lemma_bernoulli(rn, rd, k1);
        vstd::arithmetic::power::lemma_pow_positive(rd, (k1 - 1) as nat);
        let p = pow(rd, (k1 - 1) as nat);
        let t = pow(rn, k1);
        assert(pow(rn, k) == rn * t);
        assert(pow(rd, k1) == rd * p);
        assert(rn * t >= (rd * p) * (rd + k)) by (nonlinear_arith)
            requires
                t >= p * (rd + k1),
                rn >= rd + 1,
                rd >= 1,
                p > 0,
                k == k1 + 1,
        {
            assert(rn * t >= (rd + 1) * (p * (rd + k1)));
            assert((rd + 1) * (p * (rd + k1)) == p * ((rd + 1) * (rd + k1)));
            assert((rd + 1) * (rd + k1) >= rd * (rd + k));
        }
    }
}

/// The magnitude of a product with a positive factor.
proof fn lemma_abs_scale(c: int, x: int)
    requires
        c > 0,
    ensures
        abs_int(c * x) == c * abs_int(x),
{
    if x < 0 {
        assert(c * x < 0) by (nonlinear_arith)
            requires
                c > 0,
                x < 0,
        ;
        assert(c * (-x) == -(c * x)) by (nonlinear_arith);
    } else {
        assert(c * x >= 0) by (nonlinear_arith)
            requires
                c > 0,
                x >= 0,
        ;
    }
}

/// Once the scaled sequence term exceeds the target in magnitude, it does so
/// for every later term.
proof fn lemma_outgrows(a: int, b: int, rn: int, rd: int, k: nat, j: nat)
    requires
        rn > rd > 0,
        abs_int(a * pow(rn, k)) > abs_int(b * pow(rd, k)),
        j >= k,
    ensures
        abs_int(a * pow(rn, j)) > abs_int(b * pow(rd, j)),
    decreases j - k,
{
    if j > k {
        let j1 = (j - 1) as nat;
        lemma_outgrows(a, b, rn, rd, k, j1);
        reveal(pow);
        let x = a * pow(rn, j1);
        let y = b * pow(rd, j1);
        assert(a * pow(rn, j) == rn * x) by (nonlinear_arith)
            requires
                pow(rn, j) == rn * pow(rn, j1),
                x == a * pow(rn, j1),
        ;
        assert(b * pow(rd, j) == rd * y) by (nonlinear_arith)
            requires
                pow(rd, j) == rd * pow(rd, j1),
                y == b * pow(rd, j1),
        ;
        lemma_abs_scale(rn, x);
        lemma_abs_scale(rd, y);
        assert(abs_int(rn * x) > abs_int(rd * y)) by (nonlinear_arith)
            requires
                abs_int(x) > abs_int(y),
                rn > rd > 0,
                abs_int(rn * x) == rn * abs_int(x),
                abs_int(rd * y) == rd * abs_int(y),
        ;
    }
}

/// The `k`-th term of the sequence equals `x` exactly when the cross
/// products agree.
proof fn lemma_geo_term(x: (int, int), b: (int, int), r: (int, int), k: nat)
    ensures
        same_value(x, frac_mul(b, frac_pow(r, k))) <==> b.0 * x.1 * pow(r.0, k) == x.0 * b.1 * pow(r.1, k),
{
    assert(x.0 * (b.1 * pow(r.1, k)) == x.0 * b.1 * pow(r.1, k)) by (nonlinear_arith);
    assert((b.0 * pow(r.0, k)) * x.1 == b.0 * x.1 * pow(r.0, k)) by (nonlinear_arith);
}

/// Whether `x` is a term `b·rᵏ` of the geometric sequence: the terms are
/// compared in turn until one outgrows `x`, which happens since `r > 1`.
fn in_geo(x: &Rational, b: &Rational, r: &Rational) -> (res: bool)
    ensures
        res == geo_has(x@, b@, r@),
{
    let xc = x.clone();
    let bc = b.clone();
    let rc = r.clone();
    let one = Rational::from(1);
    if !one.lt(r) || bc.is_zero() {
        return false;
    }
    let ghost (xn, xd, bn, bd, rn, rd) = (x@.0, x@.1, b@.0, b@.1, r@.0, r@.1);
    assert(rn > rd && rd > 0);
    let mut p = big_mul(bc.numer(), xc.denom());
    let mut q = big_mul(xc.numer(), bc.denom());
    let ghost bound: int = abs_int(xn) * bd * rd + 1;
    let ghost mut k: nat = 0;
    proof {
        reveal(pow);
        assert(pow(rn, 0) == 1 && pow(rd, 0) == 1);
    }
    loop
        invariant
            rn > rd > 0,
            bn != 0,
            xd > 0,
            bd > 0,
            xn == x@.0 && xd == x@.1 && bn == b@.0 && bd == b@.1 && rn == r@.0 && rd == r@.1,
            rc@ == r@ && bc@ == b@ && xc@ == x@,
            bound == abs_int(xn) * bd * rd + 1,
            p@ == bn * xd * pow(rn, k),
            q@ == xn * bd * pow(rd, k),
            forall|t: nat| t < k ==> !same_value(x@, #[trigger] frac_mul(b@, frac_pow(r@, t))),
        decreases bound - k,
    {
        let mp = magnitude(&p);
        let mq = magnitude(&q);
        if big_lt(&mq, &mp) {
            proof {
                assert forall|t: nat| !same_value(x@, #[trigger] frac_mul(b@, frac_pow(r@, t))) by {
                    lemma_geo_term(x@, b@, r@, t);
                    if t >= k {
                        lemma_outgrows(bn * xd, xn * bd, rn, rd, k, t);
                    }
                }
            }
            return false;
        }
        proof {
            lemma_geo_term(x@, b@, r@, k);
            if k >= 1 {
                lemma_bernoulli(rn, rd, k);
                vstd::arithmetic::power::lemma_pow_positive(rd, (k - 1) as nat);
                vstd::arithmetic::power::lemma_pow_positive(rn, k);
                let e = pow(rd, (k - 1) as nat);
                reveal(pow);
                assert(pow(rd, k) == rd * e);
                vstd::arithmetic::power::lemma_pow_positive(rd, k);
                lemma_abs_scale(pow(rn, k), bn * xd);
                lemma_abs_scale(pow(rd, k), xn * bd);
                lemma_abs_scale(xd, bn);
                lemma_abs_scale(bd, xn);
                assert(xd * bn == bn * xd && bd * xn == xn * bd && bd * abs_int(xn) == abs_int(xn) * bd) by (nonlinear_arith);
                assert(xd * abs_int(bn) >= 1) by (nonlinear_arith)
                    requires
                        xd > 0,
                        abs_int(bn) >= 1,
                ;
                assert(k < bound) by (nonlinear_arith)
                    requires
                        abs_int(pow(rn, k) * (bn * xd)) <= abs_int(pow(rd, k) * (xn * bd)),
                        abs_int(pow(rn, k) * (bn * xd)) == pow(rn, k) * abs_int(bn * xd),
                        abs_int(pow(rd, k) * (xn * bd)) == pow(rd, k) * abs_int(xn * bd),
                        abs_int(bn * xd) >= 1,
                        abs_int(xn * bd) == abs_int(xn) * bd,
                        pow(rn, k) >= e * (rd + k),
                        pow(rd, k) == rd * e,
                        e > 0,
                        pow(rn, k) > 0,
                        bd > 0,
                        rd > 0,
                        bound == abs_int(xn) * bd * rd + 1,
                ;
            }
        }
        if big_eq(&p, &q) {
            proof {
                assert(same_value(x@, frac_mul(b@, frac_pow(r@, k))));
            }
            return true;
        }
        p = big_mul(&p, rc.numer());
        q = big_mul(&q, rc.denom());
        proof {
            reveal(pow);
            let k1 = k + 1;
            assert(p@ == bn * xd * pow(rn, k1)) by (nonlinear_arith)
                requires
                    p@ == (bn * xd * pow(rn, k)) * rn,
                    pow(rn, k1) == rn * pow(rn, k),
            ;
            assert(q@ == xn * bd * pow(rd, k1)) by (nonlinear_arith)
                requires
                    q@ == (xn * bd * pow(rd, k)) * rd,
                    pow(rd, k1) == rd * pow(rd, k),
            ;
            k = k1;
        }
    }
}

/// Whether `d` admits every natural length: `Top`, `Kind(Number)`, or
/// `GreaterEq(m)` with `m ≤ 0`.
pub open spec fn top_length(d: Contract) -> bool {
    match d {
        Contract::Top => true,
        Contract::Kind(k) => k == Kind::Number,
        Contract::GreaterEq(m) => !value_lt((0, 1), m@),
        _ => false,
    }
}

/// Whether `d` admits every natural length.
fn is_top_length(d: &Contract) -> (r: bool)
    ensures
        r == top_length(*d),
{
    match d {
        Contract::Top => true,
        Contract::Kind(k) => *k == Kind::Number,
        Contract::GreaterEq(m) => !Rational::from(0).lt(m),
        _ => false,
    }
}

impl Contract {
    /// The length restriction of `t` to the lengths `d` admits, in canonical
    /// form: empty when either side is `Bottom`, `t` itself when `d` admits
    /// every length, and one restriction with the domains intersected when
    /// `t` is already restricted.
    pub fn length_restricted(t: Contract, d: Contract) -> (r: Contract)
        ensures
            r == if t is Bottom || d is Bottom {
                Contract::Bottom
            } else if top_length(d) {
                t
            } else if t is LengthRestricted {
                Contract::LengthRestricted(t->LengthRestricted_0, Box::new(Contract::Intersection(t->LengthRestricted_1, Box::new(d))))
            } else {
                Contract::LengthRestricted(Box::new(t), Box::new(d))
            },
    {
        if matches!(t, Contract::Bottom) || matches!(d, Contract::Bottom) {
            return Contract::Bottom;
        }
        if is_top_length(&d) {
            return t;
        }
        match t {
            Contract::LengthRestricted(inner_t, inner_d) => {
                let merged = Contract::Intersection(inner_d, Box::new(d));
                Contract::LengthRestricted(inner_t, Box::new(merged))
            },
            other => Contract::LengthRestricted(Box::new(other), Box::new(d)),
        }
    }
}

/// Restricting twice restricts to both domains: the merged restriction
/// denotes the same values as the nested one.
pub proof fn lemma_restriction_merges(t: Contract, d1: Contract, d2: Contract, v: ValueRef)
    ensures
        denotes(
            Contract::LengthRestricted(Box::new(t), Box::new(Contract::Intersection(Box::new(d1), Box::new(d2)))),
            v,
        ) == denotes(
            Contract::LengthRestricted(Box::new(Contract::LengthRestricted(Box::new(t), Box::new(d1))), Box::new(d2)),
            v,
        ),
{
    reveal_with_fuel(denotes, 3);
}

} // verus!
