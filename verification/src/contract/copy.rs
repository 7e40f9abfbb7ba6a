//! Copying a contract: the copy has the same form, with numbers, names and
//! singletons of the same value.

use super::membership::{denotes, first_entry, nat_in, split_from, split_try, window_ok};
use crate::text::utf16_of;
use super::Contract;
use crate::bignum::big_eq;
use crate::value::{data_equiv, handles, key_equiv, ValueData, ValueRef};
use vstd::prelude::*;

verus! {

/// `a` and `b` are the same contract: the same forms, numbers and keys of the
/// same value, singletons of the same handle.
pub open spec fn same_contract(a: Contract, b: Contract) -> bool
    decreases a,
{
    match (a, b) {
        (Contract::Top, Contract::Top) => true,
        (Contract::Bottom, Contract::Bottom) => true,
        (Contract::Kind(x), Contract::Kind(y)) => x == y,
        (Contract::Equals(x), Contract::Equals(y)) => x.handle() == y.handle() && key_equiv(x.key(), y.key()),
        (Contract::Range(l1, h1), Contract::Range(l2, h2)) => l1@ == l2@ && h1@ == h2@,
        (Contract::Greater(x), Contract::Greater(y)) => x@ == y@,
        (Contract::GreaterEq(x), Contract::GreaterEq(y)) => x@ == y@,
        (Contract::Less(x), Contract::Less(y)) => x@ == y@,
        (Contract::LessEq(x), Contract::LessEq(y)) => x@ == y@,
        (Contract::Mod { n: n1, r: r1 }, Contract::Mod { n: n2, r: r2 }) => n1@ == n2@ && r1@ == r2@,
        (Contract::Geo { b: b1, r: r1 }, Contract::Geo { b: b2, r: r2 }) => b1@ == b2@ && r1@ == r2@,
        (Contract::Union(a1, b1), Contract::Union(a2, b2)) => same_contract(*a1, *a2) && same_contract(*b1, *b2),
        (Contract::Intersection(a1, b1), Contract::Intersection(a2, b2)) => same_contract(*a1, *a2)
            && same_contract(*b1, *b2),
        (Contract::Difference(a1, b1), Contract::Difference(a2, b2)) => same_contract(*a1, *a2)
            && same_contract(*b1, *b2),
        (Contract::Record(f1), Contract::Record(f2)) => f1@.len() == f2@.len() && forall|j: int|
            0 <= j < f1@.len() ==> (#[trigger] f1@[j]).0@ == f2@[j].0@ && same_contract(f1@[j].1, f2@[j].1),
        (Contract::HasField(k1), Contract::HasField(k2)) => k1@ == k2@,
        (Contract::Tuple(e1), Contract::Tuple(e2)) => e1@.len() == e2@.len() && forall|j: int|
            0 <= j < e1@.len() ==> same_contract(#[trigger] e1@[j], e2@[j]),
        (Contract::Concat(e1), Contract::Concat(e2)) => e1@.len() == e2@.len() && forall|j: int|
            0 <= j < e1@.len() ==> same_contract(#[trigger] e1@[j], e2@[j]),
        (Contract::Indeterminate(f), Contract::Indeterminate(g)) => f == g,
        (Contract::Ref(x), Contract::Ref(y)) => x@ == y@,
        (Contract::LengthRestricted(t1, d1), Contract::LengthRestricted(t2, d2)) => same_contract(*t1, *t2)
            && same_contract(*d1, *d2),
        _ => false,
    }
}

/// The same contract has the same members, as a value, as a window of a
/// concatenation, and as a length domain.
pub proof fn lemma_same_members(a: Contract, b: Contract)
    requires
        same_contract(a, b),
    ensures
        forall|v: ValueRef| #[trigger] denotes(a, v) == denotes(b, v),
        forall|w: Seq<ValueRef>| #[trigger] window_ok(a, w) == window_ok(b, w),
        forall|n: nat| #[trigger] nat_in(a, n) == nat_in(b, n),
    decreases a, 2nat, 0int, 0int,
{
    broadcast use vstd::std_specs::vec::axiom_vec_index_decreases;
    match (a, b) {
        (Contract::Union(a1, b1), _) => {
            let (p, q) = (*b->Union_0, *b->Union_1);
            lemma_same_members(*a1, p);
            lemma_same_members(*b1, q);
            assert forall|v: ValueRef| #[trigger] denotes(a, v) == denotes(b, v) by {
                assert(denotes(*a1, v) == denotes(p, v));
                assert(denotes(*b1, v) == denotes(q, v));
            }
            assert forall|w: Seq<ValueRef>| #[trigger] window_ok(a, w) == window_ok(b, w) by {
                assert(window_ok(*a1, w) == window_ok(p, w));
                assert(window_ok(*b1, w) == window_ok(q, w));
            }
            assert forall|n: nat| #[trigger] nat_in(a, n) == nat_in(b, n) by {
                assert(nat_in(*a1, n) == nat_in(p, n));
                assert(nat_in(*b1, n) == nat_in(q, n));
            }
        },
        (Contract::Intersection(a1, b1), _) => {
            let (p, q) = (*b->Intersection_0, *b->Intersection_1);
            lemma_same_members(*a1, p);
            lemma_same_members(*b1, q);
            assert forall|v: ValueRef| #[trigger] denotes(a, v) == denotes(b, v) by {
                assert(denotes(*a1, v) == denotes(p, v));
                assert(denotes(*b1, v) == denotes(q, v));
            }
            assert forall|w: Seq<ValueRef>| #[trigger] window_ok(a, w) == window_ok(b, w) by {
                assert(window_ok(*a1, w) == window_ok(p, w));
                assert(window_ok(*b1, w) == window_ok(q, w));
            }
            assert forall|n: nat| #[trigger] nat_in(a, n) == nat_in(b, n) by {
                assert(nat_in(*a1, n) == nat_in(p, n));
                assert(nat_in(*b1, n) == nat_in(q, n));
            }
        },
        (Contract::Difference(a1, b1), _) => {
            let (p, q) = (*b->Difference_0, *b->Difference_1);
            lemma_same_members(*a1, p);
            lemma_same_members(*b1, q);
            assert forall|v: ValueRef| #[trigger] denotes(a, v) == denotes(b, v) by {
                assert(denotes(*a1, v) == denotes(p, v));
                assert(denotes(*b1, v) == denotes(q, v));
            }
            assert forall|w: Seq<ValueRef>| #[trigger] window_ok(a, w) == window_ok(b, w) by {
                assert(window_ok(*a1, w) == window_ok(p, w));
                assert(window_ok(*b1, w) == window_ok(q, w));
            }
            assert forall|n: nat| #[trigger] nat_in(a, n) == nat_in(b, n) by {
                assert(nat_in(*a1, n) == nat_in(p, n));
                assert(nat_in(*b1, n) == nat_in(q, n));
            }
        },
        (Contract::LengthRestricted(t1, d1), _) => {
            let (p, q) = (*b->LengthRestricted_0, *b->LengthRestricted_1);
            lemma_same_members(*t1, p);
            lemma_same_members(*d1, q);
            assert forall|v: ValueRef| #[trigger] denotes(a, v) == denotes(b, v) by {
                assert(denotes(*t1, v) == denotes(p, v));
                assert(denotes(*d1, v) == denotes(q, v));
            }
            assert forall|w: Seq<ValueRef>| #[trigger] window_ok(a, w) == window_ok(b, w) by {
                assert(window_ok(*t1, w) == window_ok(p, w));
                assert(window_ok(*d1, w) == window_ok(q, w));
            }
            assert forall|n: nat| #[trigger] nat_in(a, n) == nat_in(b, n) by {
                assert(nat_in(*t1, n) == nat_in(p, n));
                assert(nat_in(*d1, n) == nat_in(q, n));
            }
        },
        (Contract::Record(f1), Contract::Record(f2)) => {
            assert forall|j: int, v: ValueRef| 0 <= j < f1@.len() implies #[trigger] denotes(f1@[j].1, v)
                == denotes(f2@[j].1, v) by {
                assert(same_contract(f1@[j].1, f2@[j].1));
                assert(decreases_to!(f1 => f1@[j]));
                lemma_same_members(f1@[j].1, f2@[j].1);
            }
            assert forall|v: ValueRef| #[trigger] denotes(a, v) == denotes(b, v) by {
                if let ValueData::Record(es) = v.data_spec() {
                    if es@.len() == f1@.len() {
                        assert forall|j: int| 0 <= j < f1@.len() implies ((first_entry(es@, utf16_of((#[trigger] f1@[j]).0@), 0) matches Some(i)
                            && denotes(f1@[j].1, es@[i].value)) <==> (first_entry(es@, utf16_of(f2@[j].0@), 0) matches Some(i)
                            && denotes(f2@[j].1, es@[i].value))) by {
                            assert(f1@[j].0@ == f2@[j].0@);
                        }
                        if denotes(a, v) {
                            assert forall|j: int| 0 <= j < f2@.len() implies (first_entry(es@, utf16_of((#[trigger] f2@[j]).0@), 0) matches Some(i)
                                && denotes(f2@[j].1, es@[i].value)) by {
                                assert(f1@[j].0@ == f2@[j].0@);
                            }
                        }
                        if denotes(b, v) {
                            assert forall|j: int| 0 <= j < f1@.len() implies (first_entry(es@, utf16_of((#[trigger] f1@[j]).0@), 0) matches Some(i)
                                && denotes(f1@[j].1, es@[i].value)) by {
                                assert(f1@[j].0@ == f2@[j].0@);
                            }
                        }
                    }
                }
            }
        },
        (Contract::Tuple(e1), Contract::Tuple(e2)) => {
            assert forall|j: int, v: ValueRef| 0 <= j < e1@.len() implies #[trigger] denotes(e1@[j], v)
                == denotes(e2@[j], v) by {
                assert(same_contract(e1@[j], e2@[j]));
                assert(decreases_to!(e1 => e1@[j]));
                lemma_same_members(e1@[j], e2@[j]);
            }
            assert forall|v: ValueRef| #[trigger] denotes(a, v) == denotes(b, v) by {
                if let ValueData::Tuple(items) = v.data_spec() {
                    if items@.len() == e1@.len() {
                        if denotes(a, v) {
                            assert forall|i: int| 0 <= i < e2@.len() implies denotes(#[trigger] e2@[i], items@[i]) by {
                                assert(denotes(e1@[i], items@[i]));
                            }
                        }
                        if denotes(b, v) {
                            assert forall|i: int| 0 <= i < e1@.len() implies denotes(#[trigger] e1@[i], items@[i]) by {
                                assert(denotes(e2@[i], items@[i]));
                            }
                        }
                    }
                }
            }
            assert forall|w: Seq<ValueRef>| #[trigger] window_ok(a, w) == window_ok(b, w) by {
                if w.len() == e1@.len() {
                    if window_ok(a, w) {
                        assert forall|i: int| 0 <= i < e2@.len() implies denotes(#[trigger] e2@[i], w[i]) by {
                            assert(denotes(e1@[i], w[i]));
                        }
                    }
                    if window_ok(b, w) {
                        assert forall|i: int| 0 <= i < e1@.len() implies denotes(#[trigger] e1@[i], w[i]) by {
                            assert(denotes(e2@[i], w[i]));
                        }
                    }
                }
            }
        },
        (Contract::Concat(e1), Contract::Concat(e2)) => {
            assert forall|w: Seq<ValueRef>| #[trigger] split_from(a, 0, w) == split_from(b, 0, w) by {
                lemma_same_split(a, b, 0, w);
            }
            assert forall|v: ValueRef| #[trigger] denotes(a, v) == denotes(b, v) by {
                if let ValueData::Tuple(items) = v.data_spec() {
                    assert(split_from(a, 0, items@) == split_from(b, 0, items@));
                }
            }
            assert forall|w: Seq<ValueRef>| #[trigger] window_ok(a, w) == window_ok(b, w) by {
                assert(split_from(a, 0, w) == split_from(b, 0, w));
            }
        },
        (Contract::Equals(x), _) => {
            let y = b->Equals_0;
            if let ValueData::Tuple(i1) = x.data_spec() {
                if let ValueData::Tuple(i2) = y.data_spec() {
                    assert(handles(i1@) == handles(i2@));
                    assert(i1@.len() == handles(i1@).len());
                    assert(i2@.len() == handles(i2@).len());
                    assert forall|w: Seq<ValueRef>| #[trigger] window_ok(a, w) == window_ok(b, w) by {
                        if i1@.len() == w.len() {
                            assert forall|i: int| 0 <= i < w.len() implies (#[trigger] i1@[i]).handle() == i2@[i].handle() by {
                                assert(handles(i1@)[i] == handles(i2@)[i]);
                            }
                            if window_ok(a, w) {
                                assert forall|i: int| 0 <= i < w.len() implies (#[trigger] i2@[i]).handle() == w[i].handle() by {
                                    assert(i1@[i].handle() == w[i].handle());
                                }
                            }
                            if window_ok(b, w) {
                                assert forall|i: int| 0 <= i < w.len() implies (#[trigger] i1@[i]).handle() == w[i].handle() by {
                                    assert(i2@[i].handle() == w[i].handle());
                                }
                            }
                        }
                    }
                }
            }
        },
        _ => {},
    }
}

/// Two copies of a concatenation split the same windows.
proof fn lemma_same_split(a: Contract, b: Contract, j: int, w: Seq<ValueRef>)
    requires
        same_contract(a, b),
        a is Concat,
    ensures
        split_from(a, j, w) == split_from(b, j, w),
    decreases a, 1nat, a->Concat_0@.len() - j, w.len() + 2,
{
    let (e1, e2) = (a->Concat_0, b->Concat_0);
    if 0 <= j < e1@.len() {
        lemma_same_try(a, b, j, w, 0);
    }
}

/// Two copies of a concatenation try the same first windows.
proof fn lemma_same_try(a: Contract, b: Contract, j: int, w: Seq<ValueRef>, k: int)
    requires
        same_contract(a, b),
        a is Concat,
        0 <= j < a->Concat_0@.len(),
    ensures
        split_try(a, j, w, k) == split_try(b, j, w, k),
    decreases a, 1nat, a->Concat_0@.len() - j, w.len() + 1 - k,
{
    broadcast use vstd::std_specs::vec::axiom_vec_index_decreases;
    let (e1, e2) = (a->Concat_0, b->Concat_0);
    if 0 <= k <= w.len() {
        assert(same_contract(e1@[j], e2@[j]));
        assert(decreases_to!(e1 => e1@[j]));
        lemma_same_members(e1@[j], e2@[j]);
        assert(window_ok(e1@[j], w.take(k)) == window_ok(e2@[j], w.take(k)));
        lemma_same_split(a, b, j + 1, w.skip(k));
        lemma_same_try(a, b, j, w, k + 1);
    }
}

/// A copy of a sequence of contracts.
fn copy_all(cs: &Vec<Contract>, Ghost(whole): Ghost<Contract>) -> (r: Vec<Contract>)
    requires
        forall|j: int| 0 <= j < cs@.len() ==> decreases_to!(whole => #[trigger] cs@[j]),
    ensures
        r@.len() == cs@.len(),
        forall|j: int| 0 <= j < cs@.len() ==> same_contract(#[trigger] cs@[j], r@[j]),
    decreases whole, 0nat,
{
    let mut out: Vec<Contract> = Vec::new();
    let mut i: usize = 0;
    while i < cs.len()
        invariant
            i <= cs@.len(),
            out@.len() == i,
            forall|j: int| 0 <= j < cs@.len() ==> decreases_to!(whole => #[trigger] cs@[j]),
            forall|j: int| 0 <= j < i ==> same_contract(#[trigger] cs@[j], out@[j]),
        decreases cs@.len() - i,
    {
        assert(decreases_to!(whole => cs@[i as int]));
        out.push(copy_contract(&cs[i]));
        i = i + 1;
    }
    out
}

/// A copy of a contract.
pub fn copy_contract(c: &Contract) -> (r: Contract)
    ensures
        same_contract(*c, r),
    decreases *c, 1nat,
{
    match c {
        Contract::Top => Contract::Top,
        Contract::Bottom => Contract::Bottom,
        Contract::Kind(k) => Contract::Kind(*k),
        Contract::Equals(v) => Contract::Equals(v.clone()),
        Contract::Range(l, h) => Contract::Range(l.clone(), h.clone()),
        Contract::Greater(m) => Contract::Greater(m.clone()),
        Contract::GreaterEq(m) => Contract::GreaterEq(m.clone()),
        Contract::Less(m) => Contract::Less(m.clone()),
        Contract::LessEq(m) => Contract::LessEq(m.clone()),
        Contract::Mod { n, r } => Contract::Mod { n: n.clone(), r: r.clone() },
        Contract::Geo { b, r } => Contract::Geo { b: b.clone(), r: r.clone() },
        Contract::Union(a, b) => Contract::Union(Box::new(copy_contract(a)), Box::new(copy_contract(b))),
        Contract::Intersection(a, b) => Contract::Intersection(
            Box::new(copy_contract(a)),
            Box::new(copy_contract(b)),
        ),
        Contract::Difference(a, b) => Contract::Difference(Box::new(copy_contract(a)), Box::new(copy_contract(b))),
        Contract::Record(fields) => {
            let mut out: Vec<(String, Contract)> = Vec::new();
            let mut i: usize = 0;
            while i < fields.len()
                invariant
                    i <= fields@.len(),
                    *c == Contract::Record(*fields),
                    out@.len() == i,
                    forall|j: int| 0 <= j < i ==> (#[trigger] fields@[j]).0@ == out@[j].0@ && same_contract(
                        fields@[j].1,
                        out@[j].1,
                    ),
                decreases fields@.len() - i,
            {
                proof {
                    broadcast use vstd::std_specs::vec::axiom_vec_index_decreases;
                    assert(decreases_to!(*fields => fields[i as int]));
                    assert(decreases_to!(*c => c->Record_0));
                    assert(decreases_to!(*c => fields[i as int].1));
                }
                let key = fields[i].0.clone();
                let inner = copy_contract(&fields[i].1);
                out.push((key, inner));
                i = i + 1;
            }
            Contract::Record(out)
        },
        Contract::HasField(k) => Contract::HasField(k.clone()),
        Contract::Tuple(elems) => {
            proof {
                broadcast use vstd::std_specs::vec::axiom_vec_index_decreases;
                assert forall|j: int| 0 <= j < elems@.len() implies decreases_to!(*c => #[trigger] elems@[j]) by {
                    assert(decreases_to!(*elems => elems[j]));
                    assert(decreases_to!(*c => c->Tuple_0));
                }
            }
            Contract::Tuple(copy_all(elems, Ghost(*c)))
        },
        Contract::Concat(segs) => {
            proof {
                broadcast use vstd::std_specs::vec::axiom_vec_index_decreases;
                assert forall|j: int| 0 <= j < segs@.len() implies decreases_to!(*c => #[trigger] segs@[j]) by {
                    assert(decreases_to!(*segs => segs[j]));
                    assert(decreases_to!(*c => c->Concat_0));
                }
            }
            Contract::Concat(copy_all(segs, Ghost(*c)))
        },
        Contract::Indeterminate(f) => Contract::Indeterminate(*f),
        Contract::Ref(name) => Contract::Ref(name.clone()),
        Contract::LengthRestricted(t, d) => Contract::LengthRestricted(
            Box::new(copy_contract(t)),
            Box::new(copy_contract(d)),
        ),
    }
}

/// Whether two sequences of contracts are pairwise the same.
fn all_equal(xs: &Vec<Contract>, ys: &Vec<Contract>, Ghost(whole): Ghost<Contract>) -> (r: bool)
    requires
        forall|j: int| 0 <= j < xs@.len() ==> decreases_to!(whole => #[trigger] xs@[j]),
    ensures
        r == (xs@.len() == ys@.len() && forall|j: int| 0 <= j < xs@.len() ==> same_contract(#[trigger] xs@[j], ys@[j])),
    decreases whole, 0nat,
{
    if xs.len() != ys.len() {
        return false;
    }
    let mut i: usize = 0;
    while i < xs.len()
        invariant
            i <= xs@.len(),
            xs@.len() == ys@.len(),
            forall|j: int| 0 <= j < xs@.len() ==> decreases_to!(whole => #[trigger] xs@[j]),
            forall|j: int| 0 <= j < i ==> same_contract(#[trigger] xs@[j], ys@[j]),
        decreases xs@.len() - i,
    {
        assert(decreases_to!(whole => xs@[i as int]));
        if !contract_equal(&xs[i], &ys[i]) {
            return false;
        }
        i = i + 1;
    }
    true
}

/// Whether two contracts are the same (see [`same_contract`]).
pub fn contract_equal(a: &Contract, b: &Contract) -> (r: bool)
    ensures
        r == same_contract(*a, *b),
    decreases *a, 1nat,
{
    broadcast use vstd::std_specs::vec::axiom_vec_index_decreases;
    match (a, b) {
        (Contract::Top, Contract::Top) => true,
        (Contract::Bottom, Contract::Bottom) => true,
        (Contract::Kind(x), Contract::Kind(y)) => *x == *y,
        (Contract::Equals(x), Contract::Equals(y)) => x.ptr_eq(y) && data_equiv(x.data(), y.data()),
        (Contract::Range(l1, h1), Contract::Range(l2, h2)) => l1.same_repr(l2) && h1.same_repr(h2),
        (Contract::Greater(x), Contract::Greater(y)) => x.same_repr(y),
        (Contract::GreaterEq(x), Contract::GreaterEq(y)) => x.same_repr(y),
        (Contract::Less(x), Contract::Less(y)) => x.same_repr(y),
        (Contract::LessEq(x), Contract::LessEq(y)) => x.same_repr(y),
        (Contract::Mod { n: n1, r: r1 }, Contract::Mod { n: n2, r: r2 }) => big_eq(n1, n2) && big_eq(r1, r2),
        (Contract::Geo { b: b1, r: r1 }, Contract::Geo { b: b2, r: r2 }) => b1.same_repr(b2) && r1.same_repr(r2),
        (Contract::Union(a1, b1), Contract::Union(a2, b2)) => contract_equal(a1, a2) && contract_equal(b1, b2),
        (Contract::Intersection(a1, b1), Contract::Intersection(a2, b2)) => contract_equal(a1, a2) && contract_equal(
            b1,
            b2,
        ),
        (Contract::Difference(a1, b1), Contract::Difference(a2, b2)) => contract_equal(a1, a2) && contract_equal(
            b1,
            b2,
        ),
        (Contract::Record(f1), Contract::Record(f2)) => {
            if f1.len() != f2.len() {
                return false;
            }
            let mut i: usize = 0;
            while i < f1.len()
                invariant
                    i <= f1@.len(),
                    f1@.len() == f2@.len(),
                    *a == Contract::Record(*f1),
                    *b == Contract::Record(*f2),
                    forall|j: int| 0 <= j < i ==> (#[trigger] f1@[j]).0@ == f2@[j].0@ && same_contract(
                        f1@[j].1,
                        f2@[j].1,
                    ),
                decreases f1@.len() - i,
            {
                proof {
                    assert(decreases_to!(*f1 => f1[i as int]));
                    assert(decreases_to!(*a => a->Record_0));
                    assert(decreases_to!(*a => f1[i as int].1));
                }
                if !(f1[i].0 == f2[i].0) || !contract_equal(&f1[i].1, &f2[i].1) {
                    assert(!((f1@[i as int]).0@ == f2@[i as int].0@ && same_contract(f1@[i as int].1, f2@[i as int].1)));
                    return false;
                }
                i = i + 1;
            }
            true
        },
        (Contract::HasField(k1), Contract::HasField(k2)) => *k1 == *k2,
        (Contract::Tuple(e1), Contract::Tuple(e2)) => {
            proof {
                assert forall|j: int| 0 <= j < e1@.len() implies decreases_to!(*a => #[trigger] e1@[j]) by {
                    assert(decreases_to!(*e1 => e1[j]));
                    assert(decreases_to!(*a => a->Tuple_0));
                }
            }
            all_equal(e1, e2, Ghost(*a))
        },
        (Contract::Concat(e1), Contract::Concat(e2)) => {
            proof {
                assert forall|j: int| 0 <= j < e1@.len() implies decreases_to!(*a => #[trigger] e1@[j]) by {
                    assert(decreases_to!(*e1 => e1[j]));
                    assert(decreases_to!(*a => a->Concat_0));
                }
            }
            all_equal(e1, e2, Ghost(*a))
        },
        (Contract::Indeterminate(f), Contract::Indeterminate(g)) => *f == *g,
        (Contract::Ref(x), Contract::Ref(y)) => *x == *y,
        (Contract::LengthRestricted(t1, d1), Contract::LengthRestricted(t2, d2)) => contract_equal(t1, t2)
            && contract_equal(d1, d2),
        _ => false,
    }
}

impl Clone for Contract {
    fn clone(&self) -> (r: Self)
        ensures
            same_contract(*self, r),
    {
        copy_contract(self)
    }
}

} // verus!
