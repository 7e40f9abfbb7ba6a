use next::bignum::BigNum;
use next::contract::{Contract, IndetForm, Kind};
use next::interner::Interner;
use next::rational::Rational;
use next::value::ValueRef;

fn n(i: &mut Interner, v: i64) -> ValueRef {
    i.integer(v)
}
fn rat(num: i64, den: i64) -> Rational {
    Rational::new(BigNum::from_i64(num), BigNum::from_i64(den))
}
fn r(x: i64) -> Rational {
    Rational::from(x)
}
fn b(c: Contract) -> Box<Contract> {
    Box::new(c)
}

#[test]
fn top_and_bottom() {
    let mut i = Interner::new();
    let v = n(&mut i, 5);
    assert!(Contract::Top.contains(&v));
    assert!(!Contract::Bottom.contains(&v));
}

#[test]
fn kind_membership() {
    let mut i = Interner::new();
    assert!(Contract::Kind(Kind::Number).contains(&i.integer(3)));
    assert!(Contract::Kind(Kind::String).contains(&i.string("hi")));
    assert!(Contract::Kind(Kind::Boolean).contains(&i.boolean(true)));
    assert!(Contract::Kind(Kind::Null).contains(&i.null()));
    let t = i.tuple(vec![]);
    assert!(Contract::Kind(Kind::Tuple).contains(&t));
    let rec = i.record_str(vec![]);
    assert!(Contract::Kind(Kind::Record).contains(&rec));
    assert!(!Contract::Kind(Kind::Number).contains(&i.string("3")));
    let ind = i.div_zero(r(1));
    assert!(!Contract::Kind(Kind::Number).contains(&ind));
}

#[test]
fn equals_uses_value_equality() {
    let mut i = Interner::new();
    let five = i.integer(5);
    assert!(Contract::Equals(five.clone()).contains(&i.integer(5)));
    assert!(!Contract::Equals(five.clone()).contains(&i.integer(6)));
    let (one, two) = (i.integer(1), i.integer(2));
    let a = i.tuple(vec![one.clone(), two.clone()]);
    let c = i.tuple(vec![one, two]);
    assert!(Contract::Equals(a).contains(&c));
    let ne = Contract::Difference(b(Contract::Top), b(Contract::Equals(five)));
    assert!(ne.contains(&i.integer(6)));
    assert!(!ne.contains(&i.integer(5)));
}

#[test]
fn numeric_bounds_and_range() {
    let mut i = Interner::new();
    let range = Contract::Range(r(0), r(100));
    assert!(range.contains(&i.integer(0)));
    assert!(range.contains(&i.integer(50)));
    assert!(range.contains(&i.integer(100)));
    assert!(!range.contains(&i.integer(101)));
    assert!(!range.contains(&i.integer(-1)));
    assert!(!range.contains(&i.string("50")));

    assert!(Contract::Greater(r(5)).contains(&i.integer(6)));
    assert!(!Contract::Greater(r(5)).contains(&i.integer(5)));
    assert!(Contract::GreaterEq(r(5)).contains(&i.integer(5)));
    assert!(Contract::Less(r(5)).contains(&i.integer(4)));
    assert!(Contract::LessEq(r(5)).contains(&i.integer(5)));

    let lz = Contract::Intersection(b(Contract::Greater(r(10))), b(Contract::LessEq(r(20))));
    assert!(!lz.contains(&i.integer(10)));
    assert!(lz.contains(&i.integer(11)));
    assert!(lz.contains(&i.integer(20)));
    assert!(!lz.contains(&i.integer(21)));

    assert!(Contract::Range(rat(1, 2), rat(3, 2)).contains(&i.number(rat(1, 1))));
    assert!(!Contract::Range(rat(1, 2), rat(3, 2)).contains(&i.number(rat(1, 4))));
}

#[test]
fn modular_contract() {
    let mut i = Interner::new();
    let even = Contract::Mod { n: BigNum::from_i64(2), r: BigNum::from_i64(0) };
    assert!(even.contains(&i.integer(0)));
    assert!(even.contains(&i.integer(4)));
    assert!(even.contains(&i.integer(-6)));
    assert!(!even.contains(&i.integer(3)));
    assert!(!even.contains(&i.number(rat(1, 2))));
    let m = Contract::Mod { n: BigNum::from_i64(3), r: BigNum::from_i64(1) };
    assert!(m.contains(&i.integer(1)));
    assert!(m.contains(&i.integer(4)));
    assert!(m.contains(&i.integer(-2)));
    assert!(!m.contains(&i.integer(2)));
}

#[test]
fn geometric_contract() {
    let mut i = Interner::new();
    let g = Contract::Geo { b: r(1), r: r(2) };
    assert!(g.contains(&i.integer(1)));
    assert!(g.contains(&i.integer(2)));
    assert!(g.contains(&i.integer(8)));
    assert!(!g.contains(&i.integer(3)));
    assert!(!g.contains(&i.integer(6)));
    assert!(!g.contains(&i.number(rat(1, 2))));
    let g2 = Contract::Geo { b: r(3), r: r(2) };
    assert!(g2.contains(&i.integer(3)));
    assert!(g2.contains(&i.integer(12)));
    assert!(!g2.contains(&i.integer(9)));
}

#[test]
fn set_operations() {
    let mut i = Interner::new();
    let small = Contract::Range(r(0), r(10));
    let big = Contract::Range(r(100), r(200));
    let u = Contract::Union(b(Contract::Range(r(0), r(10))), b(big));
    assert!(u.contains(&i.integer(5)));
    assert!(u.contains(&i.integer(150)));
    assert!(!u.contains(&i.integer(50)));

    let five = i.integer(5);
    let hole = Contract::Difference(b(small), b(Contract::Equals(five)));
    assert!(hole.contains(&i.integer(4)));
    assert!(!hole.contains(&i.integer(5)));
    assert!(hole.contains(&i.integer(6)));
}

#[test]
fn record_and_tuple_and_field() {
    let mut i = Interner::new();
    let age = i.integer(30);
    let name = i.string("ann");
    let rec = i.record_str(vec![("age", age), ("name", name)]);

    assert!(Contract::HasField("age".to_string()).contains(&rec));
    assert!(!Contract::HasField("email".to_string()).contains(&rec));

    let exact = Contract::Record(vec![
        ("age".to_string(), Contract::Range(r(0), r(120))),
        ("name".to_string(), Contract::Kind(Kind::String)),
    ]);
    assert!(exact.contains(&rec), "exact match of {{age, name}}");
    let (a1, n1, e1) = (i.integer(30), i.string("ann"), i.string("x"));
    let extra = i.record_str(vec![("age", a1), ("name", n1), ("email", e1)]);
    assert!(!exact.contains(&extra), "an un-listed field is rejected");
    let a2 = i.integer(30);
    let missing = i.record_str(vec![("age", a2)]);
    assert!(!exact.contains(&missing), "a missing field is rejected");
    let (a3, n3) = (i.integer(200), i.string("ann"));
    let too_old = i.record_str(vec![("age", a3), ("name", n3)]);
    assert!(!exact.contains(&too_old));
    let thirty = i.integer(30);
    assert!(!exact.contains(&thirty));

    let (one, sx) = (i.integer(1), i.string("x"));
    let t = i.tuple(vec![one.clone(), sx]);
    let tc = Contract::Tuple(vec![Contract::Kind(Kind::Number), Contract::Kind(Kind::String)]);
    assert!(tc.contains(&t));
    let wrong = i.tuple(vec![one]);
    assert!(!tc.contains(&wrong));
}

#[test]
fn indeterminate_contracts_preserve_specific_form_and_operand_identity() {
    let mut i = Interner::new();
    let one_over_zero = i.div_zero(r(1));
    let two_over_zero = i.div_zero(r(2));
    let one_mod_zero = i.mod_zero(r(1));
    let div_form = Contract::Indeterminate(IndetForm::DivZero);
    let mod_form = Contract::Indeterminate(IndetForm::ModZero);

    assert!(div_form.contains(&one_over_zero));
    assert!(!mod_form.contains(&one_over_zero));
    assert!(mod_form.contains(&one_mod_zero));
    let exact_div_one = Contract::Equals(i.div_zero(r(1)));
    let exact_div_two = Contract::Equals(i.div_zero(r(2)));
    let exact_mod_one = Contract::Equals(i.mod_zero(r(1)));
    assert!(exact_div_one.contains(&one_over_zero));
    assert!(!exact_div_two.contains(&one_over_zero));
    assert!(!exact_mod_one.contains(&one_over_zero));
    let indeterminate = Contract::Union(
        b(Contract::Indeterminate(IndetForm::DivZero)),
        b(Contract::Indeterminate(IndetForm::ModZero)),
    );
    assert!(!indeterminate.contains(&i.integer(5)));

    let numeric = Contract::Union(b(Contract::Kind(Kind::Number)), b(indeterminate));
    assert!(numeric.contains(&i.integer(5)));
    assert!(numeric.contains(&one_over_zero));
    assert!(numeric.contains(&two_over_zero));
    assert!(numeric.contains(&one_mod_zero));
    assert!(!numeric.contains(&i.string("5")));
}

#[test]
fn audit_equals_segment_membership() {
    let mut i = Interner::new();
    let one = i.integer(1);
    let inner = i.tuple(vec![one]);
    let c = Contract::Concat(vec![
        Contract::Equals(inner),
        Contract::Tuple(vec![Contract::Kind(Kind::Number)]),
    ]);
    let (a, x) = (i.integer(1), i.integer(5));
    let val = i.tuple(vec![a, x]);
    assert!(c.contains(&val), "[1, 5] splits as [1] ++ [5]");
    let (p, y) = (i.integer(2), i.integer(5));
    let miss = i.tuple(vec![p, y]);
    assert!(!c.contains(&miss), "[2, 5] does not start with [1]");
}

#[test]
fn concat_membership_matches_denotation() {
    let mut i = Interner::new();
    // Concat(Tuple(Number), Tuple(String)) — fused to an exact 2-tuple.
    let c = Contract::concat(vec![
        Contract::Tuple(vec![Contract::Kind(Kind::Number)]),
        Contract::Tuple(vec![Contract::Kind(Kind::String)]),
    ]);
    let one = i.integer(1);
    let sx = i.string("x");
    let ok = i.tuple(vec![one.clone(), sx.clone()]);
    assert!(c.contains(&ok));
    let swapped = i.tuple(vec![sx, one.clone()]);
    assert!(!c.contains(&swapped));
    let short = i.tuple(vec![one]);
    assert!(!c.contains(&short));

    let v = Contract::Concat(vec![
        Contract::Kind(Kind::Tuple),
        Contract::Tuple(vec![Contract::Kind(Kind::Number)]),
    ]);
    let (a, nine) = (i.string("a"), i.integer(9));
    let ends_num = i.tuple(vec![a, nine]);
    assert!(v.contains(&ends_num), "any prefix, then a Number");
    let s2 = i.string("s");
    let ends_str = i.tuple(vec![s2]);
    assert!(!v.contains(&ends_str));
}

#[test]
fn a_length_restriction_admits_aggregates_of_a_length() {
    let mut i = Interner::new();
    let (one, two) = (i.integer(1), i.integer(2));
    let pair = i.tuple(vec![one.clone(), two]);
    let single = i.tuple(vec![one]);
    let pairs = Contract::LengthRestricted(b(Contract::Kind(Kind::Tuple)), b(Contract::Range(r(2), r(2))));
    assert!(pairs.contains(&pair));
    assert!(!pairs.contains(&single));
    assert!(!pairs.contains(&i.integer(2)));
    let even = Contract::LengthRestricted(
        b(Contract::Top),
        b(Contract::Mod { n: BigNum::from_i64(2), r: BigNum::from_i64(0) }),
    );
    assert!(even.contains(&pair));
    assert!(!even.contains(&single));
    assert!(!Contract::Ref("List".to_string()).contains(&pair));
}

#[test]
fn a_negative_start_geometric_sequence_and_a_fraction_ratio() {
    let mut i = Interner::new();
    let g = Contract::Geo { b: r(-3), r: rat(3, 2) };
    assert!(g.contains(&i.integer(-3)));
    assert!(g.contains(&i.number(rat(-9, 2))));
    assert!(g.contains(&i.number(rat(-27, 4))));
    assert!(!g.contains(&i.integer(3)));
    assert!(!g.contains(&i.integer(-4)));
}

#[test]
fn length_restricted_canonical_rows() {
    let ge = |n: i64| Contract::GreaterEq(r(n));
    let num = || Contract::Kind(Kind::Number);
    assert!(matches!(Contract::length_restricted(Contract::Bottom, ge(1)), Contract::Bottom));
    assert!(matches!(
        Contract::length_restricted(Contract::Kind(Kind::Tuple), Contract::Bottom),
        Contract::Bottom
    ));
    assert!(matches!(Contract::length_restricted(num(), ge(0)), Contract::Kind(Kind::Number)));
    let inner = Contract::length_restricted(Contract::Kind(Kind::Tuple), ge(2));
    let outer = Contract::length_restricted(inner, Contract::LessEq(r(9)));
    match outer {
        Contract::LengthRestricted(t, d) => {
            assert!(matches!(*t, Contract::Kind(Kind::Tuple)));
            assert!(matches!(*d, Contract::Intersection(_, _)));
        }
        other => panic!("expected merged LengthRestricted, got {other:?}"),
    }
}

#[test]
fn kind_abstraction_widens_to_the_kind_basis() {
    let mut i = Interner::new();
    let seven = n(&mut i, 7);
    let s = i.string("x");
    assert!(matches!(Contract::Equals(seven.clone()).kind_abstraction(), Contract::Kind(Kind::Number)));
    assert!(matches!(Contract::Range(r(1), r(3)).kind_abstraction(), Contract::Kind(Kind::Number)));
    assert!(matches!(Contract::Tuple(vec![Contract::Top]).kind_abstraction(), Contract::Kind(Kind::Tuple)));
    assert!(matches!(Contract::HasField("a".to_string()).kind_abstraction(), Contract::Kind(Kind::Record)));
    assert!(matches!(Contract::Difference(b(Contract::Top), b(Contract::Bottom)).kind_abstraction(), Contract::Top));
    // A union of one kind keeps it; a union of two kinds widens to Top.
    let same = Contract::Union(b(Contract::Equals(seven.clone())), b(Contract::GreaterEq(r(0))));
    assert!(matches!(same.kind_abstraction(), Contract::Kind(Kind::Number)));
    let mixed = Contract::Union(b(Contract::Equals(seven.clone())), b(Contract::Equals(s.clone())));
    assert!(matches!(mixed.kind_abstraction(), Contract::Top));
    // An Indeterminate singleton has no kind and stays as it is.
    let dz = i.div_zero(r(1));
    match Contract::Equals(dz.clone()).kind_abstraction() {
        Contract::Equals(w) => assert!(w.ptr_eq(&dz)),
        other => panic!("unexpected {:?}", other),
    }
    // Every member of the contract is a member of its abstraction.
    assert!(same.kind_abstraction().contains(&seven));
    assert!(Contract::Kind(Kind::String).kind_abstraction().contains(&s));
    // A second step changes nothing.
    assert!(matches!(same.kind_abstraction().kind_abstraction(), Contract::Kind(Kind::Number)));
}

#[test]
fn generalize_widens_singletons_and_drops_bottom_alternatives() {
    let mut i = Interner::new();
    let one = n(&mut i, 1);
    let word = i.string("w");
    let base = Contract::Union(b(Contract::Equals(one.clone())), b(Contract::Bottom));
    assert!(matches!(base.generalize(), Contract::Kind(Kind::Number)));
    let left_bottom = Contract::Union(b(Contract::Bottom), b(Contract::Equals(word.clone())));
    assert!(matches!(left_bottom.generalize(), Contract::Kind(Kind::String)));
    let both = Contract::Union(b(Contract::Equals(one.clone())), b(Contract::Equals(word.clone())));
    match both.generalize() {
        Contract::Union(x, y) => {
            assert!(matches!(*x, Contract::Kind(Kind::Number)));
            assert!(matches!(*y, Contract::Kind(Kind::String)));
        }
        other => panic!("unexpected {:?}", other),
    }
    // Other forms are kept as they are.
    match Contract::GreaterEq(r(3)).generalize() {
        Contract::GreaterEq(m) => assert!(Contract::LessEq(r(3)).contains(&i.number(m)) && Contract::GreaterEq(r(3)).contains(&i.number(Rational::from(3)))),
        other => panic!("unexpected {:?}", other),
    }
    let dz = i.div_zero(r(2));
    match Contract::Equals(dz.clone()).generalize() {
        Contract::Equals(w) => assert!(w.ptr_eq(&dz)),
        other => panic!("unexpected {:?}", other),
    }
    assert!(base.generalize().contains(&one));
}

#[test]
fn a_cloned_contract_has_the_same_members() {
    let mut i = Interner::new();
    let c = Contract::Tuple(vec![Contract::Range(r(0), r(9)), Contract::HasField("k".to_string())]);
    let d = c.clone();
    let five = n(&mut i, 5);
    let rec = {
        let v = n(&mut i, 0);
        i.record_str(vec![("k", v)])
    };
    let t = i.tuple(vec![five.clone(), rec]);
    assert!(c.contains(&t));
    assert!(d.contains(&t));
    let t2 = i.tuple(vec![five.clone(), five.clone()]);
    assert!(!d.contains(&t2));
}

fn is_tuple_of(c: &Contract, n: usize) -> bool {
    matches!(c, Contract::Tuple(e) if e.len() == n)
}

#[test]
fn concat_normal_forms() {
    let num = || Contract::Kind(Kind::Number);
    let str_ = || Contract::Kind(Kind::String);
    let t = |e: Vec<Contract>| Contract::Tuple(e);

    // Nested Concats flatten associatively.
    let inner = Contract::concat(vec![Contract::Kind(Kind::Tuple), Contract::Kind(Kind::Tuple)]);
    let flat = Contract::concat(vec![inner, Contract::Kind(Kind::Tuple)]);
    match &flat {
        Contract::Concat(segs) => {
            assert_eq!(segs.len(), 3);
            assert!(segs.iter().all(|s| matches!(s, Contract::Kind(Kind::Tuple))));
        }
        other => panic!("unexpected {:?}", other),
    }

    // The empty-tuple segment erases (a structural fact).
    assert!(matches!(Contract::concat(vec![t(vec![]), Contract::Kind(Kind::Tuple)]), Contract::Kind(Kind::Tuple)));
    // …and a Concat of nothing is the empty tuple.
    assert!(is_tuple_of(&Contract::concat(vec![]), 0));
    assert!(is_tuple_of(&Contract::concat(vec![t(vec![]), t(vec![])]), 0));

    // Adjacent exact segments fuse.
    match Contract::concat(vec![t(vec![num()]), t(vec![str_()])]) {
        Contract::Tuple(e) => {
            assert_eq!(e.len(), 2);
            assert!(matches!(e[0], Contract::Kind(Kind::Number)));
            assert!(matches!(e[1], Contract::Kind(Kind::String)));
        }
        other => panic!("unexpected {:?}", other),
    }

    // An uninhabited segment never erases: it empties the whole Concat.
    assert!(matches!(Contract::concat(vec![Contract::Bottom, t(vec![num()])]), Contract::Bottom));
    assert!(matches!(
        Contract::concat(vec![t(vec![Contract::Bottom]), Contract::Kind(Kind::Tuple)]),
        Contract::Bottom
    ));

    // A single segment collapses to itself.
    match Contract::concat(vec![t(vec![num()])]) {
        Contract::Tuple(e) => assert!(e.len() == 1 && matches!(e[0], Contract::Kind(Kind::Number))),
        other => panic!("unexpected {:?}", other),
    }
}

#[test]
fn an_empty_range_segment_empties_a_concatenation() {
    let c = Contract::concat(vec![Contract::Kind(Kind::Tuple), Contract::Range(r(3), r(1))]);
    assert!(matches!(c, Contract::Bottom));
    assert!(Contract::Range(r(3), r(1)).kind_abstraction().contains(&Interner::new().integer(2)));
}
