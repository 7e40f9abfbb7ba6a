//! Contracts — the algebra of value properties. A `Contract` denotes a set of
//! values; for the numeric fragment the denotation is
//! [`Contract::admits_number`], and the numeric abstraction
//! ([`numeric::num_abs`]) is proved to contain it.

pub mod copy;
pub mod grapheme;
pub mod membership;
pub mod recursive;
pub mod numeric;
pub mod segments;
pub mod subcontract;
pub mod widen;

use crate::bignum::BigNum;
use crate::rational::{same_value, value_lt, Rational};
use crate::value::{ValueData, ValueRef};
use vstd::arithmetic::power::pow;
use vstd::prelude::*;

verus! {

/// The seven value kinds a `Kind` contract can name. Indeterminate values are
/// matched by [`Contract::Indeterminate`], not by a `Kind`.
#[derive(Clone, Copy, PartialEq, Eq, Debug, Structural)]
pub enum Kind {
    Number,
    String,
    Boolean,
    Null,
    Function,
    Tuple,
    Record,
}

/// The form of an Indeterminate value.
#[derive(Clone, Copy, PartialEq, Eq, Debug, Structural)]
pub enum IndetForm {
    DivZero,
    ModZero,
}

/// A contract — a bounded algebraic property of values.
#[derive(Debug)]
pub enum Contract {
    /// All values.
    Top,
    /// No values (empty intersections normalize here).
    Bottom,
    /// Values of a given kind.
    Kind(Kind),
    /// Exactly one value (`Equals(v)`); `NotEquals(v) ≡ Difference(Top, Equals(v))`.
    Equals(ValueRef),
    /// A closed numeric interval `[min, max]`; `Range(v, v)` means `Equals(v)`.
    Range(Rational, Rational),
    /// Strict/loose numeric bounds.
    Greater(Rational),
    GreaterEq(Rational),
    Less(Rational),
    LessEq(Rational),
    /// Integers `x` with `x ≡ r (mod n)`; `n > 0`.
    Mod { n: BigNum, r: BigNum },
    /// The geometric sequence `b, b·r, b·r², …` (`r > 1`, `b ≠ 0`).
    Geo { b: Rational, r: Rational },
    /// Union / Intersection / Difference (the sole negative form).
    Union(Box<Contract>, Box<Contract>),
    Intersection(Box<Contract>, Box<Contract>),
    Difference(Box<Contract>, Box<Contract>),
    /// A record having exactly the named fields, each satisfying its contract.
    Record(Vec<(String, Contract)>),
    /// A record having a given field (any value).
    HasField(String),
    /// A tuple of exactly these element contracts, positionally.
    Tuple(Vec<Contract>),
    /// Tuple concatenation: consecutive segments, each satisfying its contract.
    Concat(Vec<Contract>),
    /// An Indeterminate value of a given form.
    Indeterminate(IndetForm),
    /// A late-bound reference to a named contract of the ambient recursive
    /// group; bare, it denotes nothing.
    Ref(String),
    /// The aggregates in the first contract whose length satisfies the second.
    LengthRestricted(Box<Contract>, Box<Contract>),
}

/// `x ≡ r (mod n)`, where modulus `0` pins `x` to `r` exactly.
pub open spec fn congruent(x: int, n: int, r: int) -> bool {
    if n == 0 {
        x == r
    } else {
        (x - r) % (if n < 0 { -n } else { n }) == 0
    }
}

/// The product of two fractions.
pub open spec fn frac_mul(p: (int, int), q: (int, int)) -> (int, int) {
    (p.0 * q.0, p.1 * q.1)
}

/// The fraction `p` raised to the `k`-th power.
pub open spec fn frac_pow(p: (int, int), k: nat) -> (int, int) {
    (pow(p.0, k), pow(p.1, k))
}

/// The fraction `q` is a whole number.
pub open spec fn is_whole(q: (int, int)) -> bool {
    q.0 % q.1 == 0
}

impl Contract {
    /// Whether the number `q` belongs to the contract's denotation.
    pub open spec fn admits_number(self, q: (int, int)) -> bool
        decreases self,
    {
        match self {
            Contract::Top => true,
            Contract::Bottom => false,
            Contract::Kind(k) => k == Kind::Number,
            Contract::Equals(v) => v.data_spec() matches ValueData::Number(n) && same_value(n@, q),
            Contract::Range(l, h) => !value_lt(q, l@) && !value_lt(h@, q),
            Contract::Greater(m) => value_lt(m@, q),
            Contract::GreaterEq(m) => !value_lt(q, m@),
            Contract::Less(m) => value_lt(q, m@),
            Contract::LessEq(m) => !value_lt(m@, q),
            Contract::Mod { n, r } => is_whole(q) && congruent(q.0 / q.1, n@, r@),
            Contract::Geo { b, r } => exists|k: nat| same_value(q, #[trigger] frac_mul(b@, frac_pow(r@, k))),
            Contract::Union(a, b) => a.admits_number(q) || b.admits_number(q),
            Contract::Intersection(a, b) => a.admits_number(q) && b.admits_number(q),
            Contract::Difference(a, b) => a.admits_number(q) && !b.admits_number(q),
            _ => false,
        }
    }

    /// The contract is well formed where its numeric parameters matter: a
    /// geometric sequence has a ratio above one.
    pub open spec fn numeric_wf(self) -> bool
        decreases self,
    {
        match self {
            Contract::Geo { b, r } => b.wf() && r.wf() && value_lt((1, 1), r@),
            Contract::Union(a, b) => a.numeric_wf() && b.numeric_wf(),
            Contract::Intersection(a, b) => a.numeric_wf() && b.numeric_wf(),
            Contract::Difference(a, b) => a.numeric_wf() && b.numeric_wf(),
            _ => true,
        }
    }

    /// The contract is built from numeric forms only, so that it denotes
    /// numbers alone: a kind, bound, lattice or sequence of numbers, an
    /// equality with a number, an intersection with one such side, a union of
    /// two, or a difference from one.
    pub open spec fn numeric_form(self) -> bool
        decreases self,
    {
        match self {
            Contract::Kind(k) => k == Kind::Number,
            Contract::Equals(v) => v.data_spec() is Number,
            Contract::Range(_, _) => true,
            Contract::Greater(_) => true,
            Contract::GreaterEq(_) => true,
            Contract::Less(_) => true,
            Contract::LessEq(_) => true,
            Contract::Mod { .. } => true,
            Contract::Geo { .. } => true,
            Contract::Union(a, b) => a.numeric_form() && b.numeric_form(),
            Contract::Intersection(a, b) => a.numeric_form() || b.numeric_form(),
            Contract::Difference(a, _) => a.numeric_form(),
            _ => false,
        }
    }
}

} // verus!
