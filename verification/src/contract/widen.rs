//! Abstraction of a contract into the finite kind basis: a total widening
//! whose results are `Top`, `Bottom`, a `Kind`, an `Indeterminate` form, or a
//! singleton of an Indeterminate value.

use super::copy::{copy_contract, lemma_same_members, same_contract};
use super::membership::{denotes, kind_of};
use super::{Contract, Kind};
use crate::interner::{lemma_one_value_per_handle, Interner};
use crate::value::{ValueData, ValueRef};
use vstd::prelude::*;

verus! {

/// The kind abstraction of `c`: a singleton widens to its value's kind, every
/// numeric form to `Number`, tuple forms to `Tuple`, record forms to `Record`;
/// a union keeps its branches' common abstraction or widens to `Top`; the
/// remaining forms widen to `Top`.
pub open spec fn kind_abs(c: Contract) -> Contract
    decreases c,
{
    match c {
        Contract::Top => Contract::Top,
        Contract::Bottom => Contract::Bottom,
        Contract::Kind(k) => Contract::Kind(k),
        Contract::Indeterminate(f) => Contract::Indeterminate(f),
        Contract::Equals(v) => match kind_of(v.data_spec()) {
            Some(k) => Contract::Kind(k),
            None => Contract::Equals(v),
        },
        Contract::Range(..) | Contract::Greater(_) | Contract::GreaterEq(_) | Contract::Less(_)
        | Contract::LessEq(_) | Contract::Mod { .. } | Contract::Geo { .. } => Contract::Kind(Kind::Number),
        Contract::Tuple(_) | Contract::Concat(_) | Contract::LengthRestricted(..) => Contract::Kind(Kind::Tuple),
        Contract::Record(_) | Contract::HasField(_) => Contract::Kind(Kind::Record),
        Contract::Union(a, b) => if basis_same(kind_abs(*a), kind_abs(*b)) {
            kind_abs(*a)
        } else {
            Contract::Top
        },
        _ => Contract::Top,
    }
}

/// `r` is the generalization of `c`: a singleton of a value with a kind
/// widens to that kind, a union generalizes both branches and drops a branch
/// that generalizes to `Bottom`, and every other form is kept as it is.
pub open spec fn generalized(c: Contract, r: Contract) -> bool
    decreases c,
{
    match c {
        Contract::Equals(v) => match kind_of(v.data_spec()) {
            Some(k) => r == Contract::Kind(k),
            None => r == Contract::Equals(v),
        },
        Contract::Union(a, b) => {
            ||| generalized(*a, Contract::Bottom) && generalized(*b, r)
            ||| !generalized(*a, Contract::Bottom) && generalized(*b, Contract::Bottom) && generalized(*a, r)
            ||| r matches Contract::Union(x, y) && !(*x is Bottom) && !(*y is Bottom) && generalized(*a, *x)
                && generalized(*b, *y)
        },
        _ => same_contract(c, r),
    }
}

/// A generalization is `Bottom` exactly when `Bottom` is one.
proof fn lemma_generalized_bottom(c: Contract, x: Contract)
    requires
        generalized(c, x),
    ensures
        generalized(c, Contract::Bottom) <==> x is Bottom,
    decreases c,
{
    if let Contract::Union(a, b) = c {
        if generalized(*a, Contract::Bottom) && generalized(*b, x) {
            lemma_generalized_bottom(*b, x);
        } else if !generalized(*a, Contract::Bottom) && generalized(*b, Contract::Bottom) && generalized(*a, x) {
            lemma_generalized_bottom(*a, x);
        } else {
            let (p, q) = (x->Union_0, x->Union_1);
            lemma_generalized_bottom(*a, *p);
            lemma_generalized_bottom(*b, *q);
        }
    }
}

/// The forms the kind abstraction yields.
pub open spec fn in_basis(c: Contract) -> bool {
    match c {
        Contract::Top | Contract::Bottom | Contract::Kind(_) | Contract::Indeterminate(_) => true,
        Contract::Equals(v) => kind_of(v.data_spec()) is None,
        _ => false,
    }
}

/// Two basis contracts are the same: singletons by handle, the rest by form.
pub open spec fn basis_same(x: Contract, y: Contract) -> bool {
    match (x, y) {
        (Contract::Equals(a), Contract::Equals(b)) => a.handle() == b.handle(),
        _ => x == y,
    }
}

/// The singletons on the union spine of `c` are values `i` issued.
pub open spec fn singletons_held(i: &Interner, c: Contract) -> bool
    decreases c,
{
    match c {
        Contract::Equals(x) => i.holds(x),
        Contract::Union(a, b) => singletons_held(i, *a) && singletons_held(i, *b),
        _ => true,
    }
}

/// A length restriction stands on the union spine of `c`.
pub open spec fn spine_restricts(c: Contract) -> bool
    decreases c,
{
    match c {
        Contract::LengthRestricted(..) => true,
        Contract::Union(a, b) => spine_restricts(*a) || spine_restricts(*b),
        _ => false,
    }
}

/// The kind of a value, or `None` for an Indeterminate one.
fn value_kind(v: &ValueRef) -> (r: Option<Kind>)
    ensures
        r == kind_of(v.data_spec()),
{
    match v.data() {
        ValueData::Number(_) => Some(Kind::Number),
        ValueData::Str(_) => Some(Kind::String),
        ValueData::Boolean(_) => Some(Kind::Boolean),
        ValueData::Null => Some(Kind::Null),
        ValueData::Tuple(_) => Some(Kind::Tuple),
        ValueData::Record(_) => Some(Kind::Record),
        ValueData::Indeterminate(_) => None,
    }
}

/// Whether two basis contracts are the same.
fn basis_eq(x: &Contract, y: &Contract) -> (r: bool)
    requires
        in_basis(*x),
        in_basis(*y),
    ensures
        r == basis_same(*x, *y),
{
    match (x, y) {
        (Contract::Top, Contract::Top) => true,
        (Contract::Bottom, Contract::Bottom) => true,
        (Contract::Kind(a), Contract::Kind(b)) => *a == *b,
        (Contract::Indeterminate(f), Contract::Indeterminate(g)) => *f == *g,
        (Contract::Equals(a), Contract::Equals(b)) => a.ptr_eq(b),
        _ => false,
    }
}

/// The kind abstraction yields a basis form.
proof fn lemma_kind_abs_in_basis(c: Contract)
    ensures
        in_basis(kind_abs(c)),
    decreases c,
{
    if let Contract::Union(a, b) = c {
        lemma_kind_abs_in_basis(*a);
        lemma_kind_abs_in_basis(*b);
    }
}

impl Contract {
    /// Widens the singletons of the contract to their kinds, through unions,
    /// dropping alternatives that generalize to `Bottom`; a singleton of an
    /// Indeterminate value and every other form are kept.
    pub fn generalize(&self) -> (r: Contract)
        ensures
            generalized(*self, r),
        decreases self,
    {
        match self {
            Contract::Equals(v) => match value_kind(v) {
                Some(k) => Contract::Kind(k),
                None => Contract::Equals(v.clone()),
            },
            Contract::Union(a, b) => {
                let ga = a.generalize();
                let gb = b.generalize();
                proof {
                    lemma_generalized_bottom(**a, ga);
                    lemma_generalized_bottom(**b, gb);
                }
                if let Contract::Bottom = ga {
                    gb
                } else if let Contract::Bottom = gb {
                    ga
                } else {
                    Contract::Union(Box::new(ga), Box::new(gb))
                }
            },
            other => copy_contract(other),
        }
    }

    /// The contract's abstraction into the kind basis (see [`kind_abs`]).
    pub fn kind_abstraction(&self) -> (r: Contract)
        ensures
            r == kind_abs(*self),
            in_basis(r),
        decreases self,
    {
        proof {
            lemma_kind_abs_in_basis(*self);
        }
        match self {
            Contract::Top => Contract::Top,
            Contract::Bottom => Contract::Bottom,
            Contract::Kind(k) => Contract::Kind(*k),
            Contract::Indeterminate(f) => Contract::Indeterminate(*f),
            Contract::Equals(v) => match value_kind(v) {
                Some(k) => Contract::Kind(k),
                None => Contract::Equals(v.clone()),
            },
            Contract::Range(..) | Contract::Greater(_) | Contract::GreaterEq(_) | Contract::Less(_)
            | Contract::LessEq(_) | Contract::Mod { .. } | Contract::Geo { .. } => Contract::Kind(Kind::Number),
            Contract::Tuple(_) | Contract::Concat(_) | Contract::LengthRestricted(..) => Contract::Kind(Kind::Tuple),
            Contract::Record(_) | Contract::HasField(_) => Contract::Kind(Kind::Record),
            Contract::Union(a, b) => {
                let ka = a.kind_abstraction();
                let kb = b.kind_abstraction();
                if basis_eq(&ka, &kb) {
                    ka
                } else {
                    Contract::Top
                }
            },
            _ => Contract::Top,
        }
    }
}

/// The kind abstraction widens: a value of `c` (held by the interner that
/// issued the singletons of `c`) is a value of `kind_abs(c)`, except a record
/// that a length restriction admitted, which the abstraction reads as a
/// tuple form.
pub proof fn lemma_kind_abstraction_widens(i: &Interner, c: Contract, v: ValueRef)
    requires
        i.wf(),
        i.holds(v),
        singletons_held(i, c),
        denotes(c, v),
    ensures
        denotes(kind_abs(c), v) || (spine_restricts(c) && v.data_spec() is Record),
    decreases c,
{
    match c {
        Contract::Equals(x) => {
            lemma_one_value_per_handle(i, x, v);
        },
        Contract::Union(a, b) => {
            if denotes(*a, v) {
                lemma_kind_abstraction_widens(i, *a, v);
            } else {
                lemma_kind_abstraction_widens(i, *b, v);
            }
            lemma_kind_abs_in_basis(*a);
            lemma_kind_abs_in_basis(*b);
        },
        _ => {},
    }
}

/// Generalizing widens: a value of `c` (held by the interner that issued the
/// singletons of `c`) is a value of the generalization of `c`.
pub proof fn lemma_generalize_widens(i: &Interner, c: Contract, r: Contract, v: ValueRef)
    requires
        i.wf(),
        i.holds(v),
        singletons_held(i, c),
        generalized(c, r),
        denotes(c, v),
    ensures
        denotes(r, v),
    decreases c,
{
    match c {
        Contract::Equals(x) => {
            lemma_one_value_per_handle(i, x, v);
        },
        Contract::Union(a, b) => {
            if generalized(*a, Contract::Bottom) && generalized(*b, r) {
                if denotes(*a, v) {
                    lemma_generalize_widens(i, *a, Contract::Bottom, v);
                } else {
                    lemma_generalize_widens(i, *b, r, v);
                }
            } else if !generalized(*a, Contract::Bottom) && generalized(*b, Contract::Bottom) && generalized(*a, r) {
                if denotes(*b, v) {
                    lemma_generalize_widens(i, *b, Contract::Bottom, v);
                } else {
                    lemma_generalize_widens(i, *a, r, v);
                }
            } else {
                let (x, y) = (*r->Union_0, *r->Union_1);
                if denotes(*a, v) {
                    lemma_generalize_widens(i, *a, x, v);
                } else {
                    lemma_generalize_widens(i, *b, y, v);
                }
            }
        },
        _ => {
            lemma_same_members(c, r);
        },
    }
}

/// The kind abstraction reaches its fixed point in one step.
pub proof fn lemma_kind_abstraction_settles(c: Contract)
    ensures
        kind_abs(kind_abs(c)) == kind_abs(c),
{
    lemma_kind_abs_in_basis(c);
}

} // verus!
