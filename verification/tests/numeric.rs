use next::contract::numeric::{below, high_le, hull, interval_subset, intervals_disjoint, low_ge, meet, Bound, Interval};
use next::rational::Rational;

fn r(n: i64) -> Rational {
    Rational::from(n)
}

fn closed(lo: i64, hi: i64) -> Interval {
    Interval { low: Bound::Incl(r(lo)), high: Bound::Incl(r(hi)) }
}

fn open(lo: i64, hi: i64) -> Interval {
    Interval { low: Bound::Excl(r(lo)), high: Bound::Excl(r(hi)) }
}

fn is_incl(b: &Bound, v: i64) -> bool {
    matches!(b, Bound::Incl(x) if *x == r(v))
}

fn is_excl(b: &Bound, v: i64) -> bool {
    matches!(b, Bound::Excl(x) if *x == r(v))
}

#[test]
fn unbounded_and_points_are_inhabited() {
    assert!(!Interval::unbounded().is_empty());
    let p = Interval::point(r(3));
    assert!(!p.is_empty());
    assert!(is_incl(&p.low, 3) && is_incl(&p.high, 3));
}

#[test]
fn crossed_or_half_open_points_are_empty() {
    assert!(closed(2, 1).is_empty());
    assert!(!closed(2, 2).is_empty());
    let half = Interval { low: Bound::Incl(r(2)), high: Bound::Excl(r(2)) };
    assert!(half.is_empty());
    assert!(open(2, 2).is_empty());
    assert!(!open(1, 2).is_empty());
}

#[test]
fn meet_takes_highest_low_and_lowest_high() {
    let m = meet(closed(1, 3), closed(2, 4));
    assert!(is_incl(&m.low, 2) && is_incl(&m.high, 3));
    assert!(meet(closed(1, 2), closed(3, 4)).is_empty());
    // At a shared endpoint the exclusive bound wins.
    let m = meet(Interval { low: Bound::Incl(r(1)), high: Bound::Excl(r(2)) }, closed(2, 3));
    assert!(is_incl(&m.low, 2) && is_excl(&m.high, 2));
    assert!(m.is_empty());
    let m = meet(Interval::unbounded(), open(0, 5));
    assert!(is_excl(&m.low, 0) && is_excl(&m.high, 5));
}

#[test]
fn hull_takes_lowest_low_and_highest_high() {
    let h = hull(closed(1, 2), closed(5, 6));
    assert!(is_incl(&h.low, 1) && is_incl(&h.high, 6));
    let h = hull(open(1, 2), closed(1, 2));
    assert!(is_incl(&h.low, 1) && is_incl(&h.high, 2));
    let h = hull(Interval { low: Bound::Unbounded, high: Bound::Incl(r(0)) }, closed(3, 4));
    assert!(matches!(h.low, Bound::Unbounded) && is_incl(&h.high, 4));
}

#[test]
fn subset_respects_strictness() {
    assert!(interval_subset(&closed(2, 3), &closed(1, 4)));
    assert!(interval_subset(&open(1, 4), &closed(1, 4)));
    assert!(!interval_subset(&closed(1, 4), &open(1, 4)));
    assert!(interval_subset(&closed(1, 4), &Interval::unbounded()));
    assert!(!interval_subset(&Interval::unbounded(), &closed(1, 4)));
}

#[test]
fn disjointness_needs_a_gap() {
    let left = Interval { low: Bound::Incl(r(1)), high: Bound::Excl(r(2)) };
    assert!(intervals_disjoint(&left, &closed(2, 3)));
    assert!(!intervals_disjoint(&closed(1, 2), &closed(2, 3)));
    assert!(intervals_disjoint(&closed(5, 6), &closed(1, 2)));
    assert!(!intervals_disjoint(&Interval::unbounded(), &closed(1, 2)));
}

#[test]
fn bound_comparisons() {
    assert!(!low_ge(&Bound::Incl(r(1)), &Bound::Excl(r(1))));
    assert!(low_ge(&Bound::Excl(r(1)), &Bound::Incl(r(1))));
    assert!(low_ge(&Bound::Incl(r(2)), &Bound::Excl(r(1))));
    assert!(!low_ge(&Bound::Unbounded, &Bound::Incl(r(0))));
    assert!(high_le(&Bound::Excl(r(1)), &Bound::Incl(r(1))));
    assert!(!high_le(&Bound::Incl(r(1)), &Bound::Excl(r(1))));
    assert!(below(&Bound::Incl(r(1)), &Bound::Excl(r(1))));
    assert!(!below(&Bound::Incl(r(1)), &Bound::Incl(r(1))));
    assert!(!below(&Bound::Unbounded, &Bound::Incl(r(1))));
}
