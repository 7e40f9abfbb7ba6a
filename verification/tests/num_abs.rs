use next::bignum::BigNum;
use next::contract::numeric::{num_abs, Bound, Congruence, NumAbs};
use next::contract::{Contract, Kind};
use next::interner::Interner;
use next::rational::Rational;

fn r(n: i64) -> Rational {
    Rational::from(n)
}

fn big(n: i64) -> BigNum {
    BigNum::from_i64(n)
}

fn big_is(b: &BigNum, n: i64) -> bool {
    Rational::from_integer(b.clone()) == r(n)
}

fn is_incl(b: &Bound, v: i64) -> bool {
    matches!(b, Bound::Incl(x) if *x == r(v))
}

fn is_excl(b: &Bound, v: i64) -> bool {
    matches!(b, Bound::Excl(x) if *x == r(v))
}

fn lattice(a: &NumAbs) -> Option<(&BigNum, &BigNum)> {
    a.cong.as_ref().map(|c: &Congruence| (&c.n, &c.r))
}

fn modulo(n: i64, res: i64) -> Contract {
    Contract::Mod { n: big(n), r: big(res) }
}

fn boxed(c: Contract) -> Box<Contract> {
    Box::new(c)
}

#[test]
fn bounds_read_as_intervals() {
    let a = num_abs(&Contract::Range(r(1), r(3))).unwrap();
    assert!(is_incl(&a.iv.low, 1) && is_incl(&a.iv.high, 3));
    assert!(a.cong.is_none());
    let a = num_abs(&Contract::Greater(r(2))).unwrap();
    assert!(is_excl(&a.iv.low, 2) && matches!(a.iv.high, Bound::Unbounded));
    let a = num_abs(&Contract::LessEq(r(-1))).unwrap();
    assert!(matches!(a.iv.low, Bound::Unbounded) && is_incl(&a.iv.high, -1));
    let a = num_abs(&Contract::Kind(Kind::Number)).unwrap();
    assert!(matches!(a.iv.low, Bound::Unbounded) && matches!(a.iv.high, Bound::Unbounded));
}

#[test]
fn non_numeric_forms_have_no_abstraction() {
    let mut i = Interner::new();
    assert!(num_abs(&Contract::Kind(Kind::String)).is_none());
    assert!(num_abs(&Contract::Top).is_none());
    assert!(num_abs(&Contract::Tuple(vec![])).is_none());
    assert!(num_abs(&Contract::Equals(i.string("5"))).is_none());
    assert!(num_abs(&Contract::Union(boxed(Contract::Range(r(0), r(1))), boxed(Contract::Top))).is_none());
}

#[test]
fn an_integer_point_carries_an_exact_lattice() {
    let mut i = Interner::new();
    let five = i.integer(5);
    let a = num_abs(&Contract::Equals(five)).unwrap();
    assert!(is_incl(&a.iv.low, 5) && is_incl(&a.iv.high, 5));
    let (n, res) = lattice(&a).unwrap();
    assert!(big_is(n, 0) && big_is(res, 5));
    let half = i.number(Rational::new(big(1), big(2)));
    assert!(num_abs(&Contract::Equals(half)).unwrap().cong.is_none());
}

#[test]
fn a_lattice_is_normalized() {
    let a = num_abs(&modulo(-4, 7)).unwrap();
    let (n, res) = lattice(&a).unwrap();
    assert!(big_is(n, 4) && big_is(res, 3));
    assert!(matches!(a.iv.low, Bound::Unbounded));
}

#[test]
fn a_geometric_sequence_is_bounded_on_its_side() {
    let a = num_abs(&Contract::Geo { b: r(2), r: r(3) }).unwrap();
    assert!(is_incl(&a.iv.low, 2) && matches!(a.iv.high, Bound::Unbounded));
    let a = num_abs(&Contract::Geo { b: r(-1), r: r(2) }).unwrap();
    assert!(matches!(a.iv.low, Bound::Unbounded) && is_incl(&a.iv.high, -1));
}

#[test]
fn intersections_meet_both_facets() {
    let a = num_abs(&Contract::Intersection(boxed(Contract::GreaterEq(r(0))), boxed(modulo(2, 0)))).unwrap();
    assert!(is_incl(&a.iv.low, 0));
    let (n, res) = lattice(&a).unwrap();
    assert!(big_is(n, 2) && big_is(res, 0));
    // x ≡ 1 (mod 4) and x ≡ 3 (mod 6) is x ≡ 9 (mod 12).
    let a = num_abs(&Contract::Intersection(boxed(modulo(4, 1)), boxed(modulo(6, 3)))).unwrap();
    let (n, res) = lattice(&a).unwrap();
    assert!(big_is(n, 12) && big_is(res, 9));
    // Incompatible residues leave no lattice.
    let a = num_abs(&Contract::Intersection(boxed(modulo(4, 1)), boxed(modulo(6, 2)))).unwrap();
    assert!(a.cong.is_none());
    // One numeric side suffices.
    let a = num_abs(&Contract::Intersection(boxed(Contract::Top), boxed(Contract::Less(r(4))))).unwrap();
    assert!(is_excl(&a.iv.high, 4));
}

#[test]
fn unions_take_the_hull_and_the_coarser_lattice() {
    let a = num_abs(&Contract::Union(boxed(Contract::Range(r(0), r(1))), boxed(Contract::Range(r(5), r(6))))).unwrap();
    assert!(is_incl(&a.iv.low, 0) && is_incl(&a.iv.high, 6));
    assert!(a.cong.is_none());
    let a = num_abs(&Contract::Union(boxed(modulo(4, 1)), boxed(modulo(6, 3)))).unwrap();
    let (n, res) = lattice(&a).unwrap();
    assert!(big_is(n, 2) && big_is(res, 1));
}

#[test]
fn excluding_an_endpoint_tightens_it() {
    let mut i = Interner::new();
    let zero = i.integer(0);
    let a = num_abs(&Contract::Difference(boxed(Contract::GreaterEq(r(0))), boxed(Contract::Equals(zero)))).unwrap();
    assert!(is_excl(&a.iv.low, 0));
    let a = num_abs(&Contract::Difference(boxed(Contract::Range(r(0), r(5))), boxed(Contract::Range(r(5), r(5))))).unwrap();
    assert!(is_incl(&a.iv.low, 0) && is_excl(&a.iv.high, 5));
    let a = num_abs(&Contract::Difference(boxed(Contract::Kind(Kind::Number)), boxed(Contract::LessEq(r(0))))).unwrap();
    assert!(is_excl(&a.iv.low, 0) && matches!(a.iv.high, Bound::Unbounded));
}

#[test]
fn a_guarded_integer_step_lands_on_the_next_lattice_point() {
    // n ≥ 0 ∧ n integer ∧ n ≠ 0 ⇒ n ≥ 1.
    let mut i = Interner::new();
    let zero = i.integer(0);
    let naturals = Contract::Intersection(boxed(Contract::GreaterEq(r(0))), boxed(modulo(1, 0)));
    let a = num_abs(&Contract::Difference(boxed(naturals), boxed(Contract::Equals(zero)))).unwrap();
    assert!(is_incl(&a.iv.low, 1));
    // Over the even numbers, `< 3` snaps down to `≤ 2`.
    let evens = Contract::Intersection(boxed(Contract::Less(r(3))), boxed(modulo(2, 0)));
    let a = num_abs(&Contract::Difference(boxed(evens), boxed(Contract::GreaterEq(r(7))))).unwrap();
    assert!(is_incl(&a.iv.high, 2));
}

use next::ast::PrimOp;
use next::contract::numeric::{abs_add, abs_div, abs_mul, abs_neg, abs_rem, abs_sub, compare_decided, interval_exact};

fn closed_abs(lo: i64, hi: i64) -> NumAbs {
    num_abs(&Contract::Range(r(lo), r(hi))).unwrap()
}

#[test]
fn sums_add_endpoints() {
    let a = abs_add(&closed_abs(1, 2), &closed_abs(10, 20));
    assert!(is_incl(&a.iv.low, 11) && is_incl(&a.iv.high, 22));
    // An endpoint is inclusive only when both are.
    let g = num_abs(&Contract::Greater(r(0))).unwrap();
    let a = abs_add(&g, &closed_abs(1, 2));
    assert!(is_excl(&a.iv.low, 1) && matches!(a.iv.high, Bound::Unbounded));
    // Lattices add: odd + odd is even.
    let odd = num_abs(&modulo(2, 1)).unwrap();
    let a = abs_add(&odd, &odd);
    let (n, res) = lattice(&a).unwrap();
    assert!(big_is(n, 2) && big_is(res, 0));
}

#[test]
fn differences_pair_opposite_endpoints() {
    let a = abs_sub(&closed_abs(1, 2), &closed_abs(10, 20));
    assert!(is_incl(&a.iv.low, -19) && is_incl(&a.iv.high, -8));
    let mut i = Interner::new();
    let three = i.integer(3);
    let a = abs_sub(&num_abs(&modulo(4, 1)).unwrap(), &num_abs(&Contract::Equals(three)).unwrap());
    let (n, res) = lattice(&a).unwrap();
    assert!(big_is(n, 4) && big_is(res, 2));
}

#[test]
fn negation_mirrors_the_interval() {
    let a = abs_neg(&num_abs(&Contract::GreaterEq(r(3))).unwrap());
    assert!(matches!(a.iv.low, Bound::Unbounded) && is_incl(&a.iv.high, -3));
    let a = abs_neg(&num_abs(&modulo(5, 1)).unwrap());
    let (n, res) = lattice(&a).unwrap();
    assert!(big_is(n, 5) && big_is(res, 4));
}

#[test]
fn comparisons_settle_only_when_the_ranges_do() {
    let low = closed_abs(0, 1);
    let high = closed_abs(2, 3);
    assert_eq!(compare_decided(PrimOp::Lt, &low, &high), Some(true));
    assert_eq!(compare_decided(PrimOp::Ge, &low, &high), Some(false));
    assert_eq!(compare_decided(PrimOp::Gt, &high, &low), Some(true));
    // Touching at one shared point settles `<=` but not `<`.
    let left = closed_abs(0, 2);
    assert_eq!(compare_decided(PrimOp::Le, &left, &high), Some(true));
    assert_eq!(compare_decided(PrimOp::Lt, &left, &high), None);
    assert_eq!(compare_decided(PrimOp::Gt, &left, &high), Some(false));
    // Overlap settles nothing, and `==` is not an ordering.
    let mid = closed_abs(1, 3);
    assert_eq!(compare_decided(PrimOp::Lt, &left, &mid), None);
    assert_eq!(compare_decided(PrimOp::Eq, &low, &high), None);
}

#[test]
fn products_span_the_corner_products() {
    let a = abs_mul(&closed_abs(-2, 3), &closed_abs(4, 5));
    assert!(is_incl(&a.iv.low, -10) && is_incl(&a.iv.high, 15));
    let a = abs_mul(&closed_abs(-2, -1), &closed_abs(-3, 4));
    assert!(is_incl(&a.iv.low, -8) && is_incl(&a.iv.high, 6));
    // `0 · ∞ = 0`: the non-negatives times the non-negatives stay non-negative.
    let nonneg = num_abs(&Contract::GreaterEq(r(0))).unwrap();
    let a = abs_mul(&nonneg, &nonneg);
    assert!(is_incl(&a.iv.low, 0) && matches!(a.iv.high, Bound::Unbounded));
    // A strictly positive half-line times a negative range is unbounded below.
    let pos = num_abs(&Contract::Greater(r(0))).unwrap();
    let a = abs_mul(&pos, &closed_abs(-2, -1));
    assert!(matches!(a.iv.low, Bound::Unbounded) && is_incl(&a.iv.high, 0));
}

#[test]
fn scaling_by_an_exact_integer_keeps_the_lattice() {
    let mut i = Interner::new();
    let three = i.integer(3);
    let odd = num_abs(&modulo(2, 1)).unwrap();
    let a = abs_mul(&odd, &num_abs(&Contract::Equals(three)).unwrap());
    let (n, res) = lattice(&a).unwrap();
    assert!(big_is(n, 6) && big_is(res, 3));
    // Two lattices with no exact side lose the lattice.
    assert!(abs_mul(&odd, &odd).cong.is_none());
}

#[test]
fn quotients_span_the_corner_quotients() {
    let a = abs_div(&closed_abs(2, 4), &closed_abs(1, 2));
    assert!(is_incl(&a.iv.low, 1) && is_incl(&a.iv.high, 4));
    // A divisor range reaching infinity sends the quotient to zero there.
    let a = abs_div(&closed_abs(1, 2), &num_abs(&Contract::GreaterEq(r(1))).unwrap());
    assert!(is_incl(&a.iv.low, 0) && is_incl(&a.iv.high, 2));
    let a = abs_div(&num_abs(&Contract::LessEq(r(-1))).unwrap(), &closed_abs(2, 4));
    let quarter = Rational::new(big(-1), big(4));
    assert!(matches!(a.iv.low, Bound::Unbounded));
    assert!(matches!(&a.iv.high, Bound::Incl(v) if *v == quarter));
}

#[test]
fn a_divisor_that_may_be_zero_has_no_bound() {
    let a = abs_div(&closed_abs(1, 2), &closed_abs(-1, 1));
    assert!(matches!(a.iv.low, Bound::Unbounded) && matches!(a.iv.high, Bound::Unbounded));
    // A zero endpoint, excluded as a value, still leaves the quotient unbounded.
    let a = abs_div(&closed_abs(1, 2), &num_abs(&Contract::Greater(r(0))).unwrap());
    assert!(matches!(a.iv.low, Bound::Unbounded) && matches!(a.iv.high, Bound::Unbounded));
}

#[test]
fn exact_intervals_only_for_bound_forms() {
    let iv = interval_exact(&Contract::Intersection(boxed(Contract::Greater(r(0))), boxed(Contract::LessEq(r(5))))).unwrap();
    assert!(is_excl(&iv.low, 0) && is_incl(&iv.high, 5));
    // A lattice has no exact interval, even inside an intersection.
    assert!(interval_exact(&modulo(1, 0)).is_none());
    assert!(interval_exact(&Contract::Intersection(boxed(Contract::GreaterEq(r(0))), boxed(modulo(1, 0)))).is_none());
    assert!(interval_exact(&Contract::Kind(Kind::Number)).is_none());
}

#[test]
fn remainders_follow_the_dividend_within_the_divisor() {
    let a = abs_rem(&closed_abs(0, 100), &closed_abs(-3, 2));
    assert!(is_incl(&a.iv.low, 0) && is_excl(&a.iv.high, 3));
    let a = abs_rem(&closed_abs(-7, -1), &closed_abs(4, 5));
    assert!(is_excl(&a.iv.low, -5) && is_incl(&a.iv.high, 0));
    let a = abs_rem(&closed_abs(-1, 1), &closed_abs(1, 2));
    assert!(is_excl(&a.iv.low, -2) && is_excl(&a.iv.high, 2));
    let a = abs_rem(&closed_abs(-1, 1), &num_abs(&Contract::GreaterEq(r(1))).unwrap());
    assert!(matches!(a.iv.low, Bound::Unbounded) && matches!(a.iv.high, Bound::Unbounded));
}

#[test]
fn congruence_meet_is_the_common_lattice() {
    let evens = Congruence::new(big(2), big(0));
    let two_mod_three = Congruence::new(big(3), big(2));
    let both = evens.meet(&two_mod_three).expect("2 ≡ 0 (mod 2) and ≡ 2 (mod 3)");
    assert!(big_is(&both.n, 6));
    assert!(big_is(&both.r, 2));

    let odd_mod_four = Congruence::new(big(4), big(1));
    assert!(evens.meet(&odd_mod_four).is_none());

    let seven = Congruence::exact(big(7));
    let on_seven = seven.meet(&Congruence::new(big(3), big(1))).expect("7 ≡ 1 (mod 3)");
    assert!(big_is(&on_seven.n, 0));
    assert!(big_is(&on_seven.r, 7));
    assert!(seven.meet(&evens).is_none());

    // Two exact integers are not compared: the first is kept.
    let kept = seven.meet(&Congruence::exact(big(5))).expect("exact lattices keep the first");
    assert!(big_is(&kept.r, 7));
}
