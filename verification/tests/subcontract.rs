use next::bignum::BigNum;
use next::contract::subcontract::{disjoint, sample, subcontract, Verdict};
use next::contract::{Contract, Kind};
use next::interner::Interner;
use next::rational::Rational;
use next::value::ValueRef;

fn r(x: i64) -> Rational {
    Rational::from(x)
}
fn rat(n: i64, d: i64) -> Rational {
    Rational::new(BigNum::from_i64(n), BigNum::from_i64(d))
}
fn b(c: Contract) -> Box<Contract> {
    Box::new(c)
}
fn modc(n: i64, rem: i64) -> Contract {
    Contract::Mod { n: BigNum::from_i64(n), r: BigNum::from_i64(rem) }
}

fn proven(a: &Contract, c: &Contract, i: &mut Interner) {
    assert!(matches!(subcontract(a, c, i), Verdict::Proven), "expected {a:?} ⊑ {c:?} proven");
}
fn refuted(a: &Contract, c: &Contract, i: &mut Interner) {
    match subcontract(a, c, i) {
        Verdict::Refuted(w) => {
            assert!(a.contains(&w) && !c.contains(&w), "witness {w:?} must be in A\\B");
        }
        v => panic!("expected {a:?} ⊑ {c:?} refuted, got {v:?}"),
    }
}

#[test]
fn subcontract_intervals() {
    let mut i = Interner::new();
    proven(&Contract::Range(r(0), r(10)), &Contract::Range(r(0), r(100)), &mut i);
    refuted(&Contract::Range(r(0), r(100)), &Contract::Range(r(0), r(10)), &mut i);
    proven(&Contract::Range(r(0), r(10)), &Contract::Kind(Kind::Number), &mut i);
    proven(&Contract::Greater(r(5)), &Contract::GreaterEq(r(5)), &mut i);
    refuted(&Contract::GreaterEq(r(5)), &Contract::Greater(r(5)), &mut i);
    // landing zone (10, 20] ⊑ [10, 20] (dense rationals: not ⊑ [11, 20]).
    let lz = Contract::Intersection(b(Contract::Greater(r(10))), b(Contract::LessEq(r(20))));
    proven(&lz, &Contract::Range(r(10), r(20)), &mut i);
    refuted(&lz, &Contract::Range(r(11), r(20)), &mut i); // 10.5 witnesses the gap
}

#[test]
fn subcontract_equals_and_kind() {
    let mut i = Interner::new();
    let five = i.integer(5);
    proven(&Contract::Equals(five.clone()), &Contract::Range(r(0), r(10)), &mut i);
    let fifty = i.integer(50);
    refuted(&Contract::Equals(fifty), &Contract::Range(r(0), r(10)), &mut i);
    proven(&Contract::Kind(Kind::Number), &Contract::Top, &mut i);
    refuted(&Contract::Kind(Kind::Number), &Contract::Kind(Kind::String), &mut i);
    proven(&Contract::Bottom, &Contract::Kind(Kind::String), &mut i);
}

#[test]
fn subcontract_union_and_mod() {
    let mut i = Interner::new();
    let split = Contract::Union(b(Contract::Range(r(0), r(5))), b(Contract::Range(r(6), r(10))));
    proven(&split, &Contract::Range(r(0), r(10)), &mut i);
    // multiples of 4 ⊑ evens; evens ⋢ multiples of 4
    let mult4 = modc(4, 0);
    let even = modc(2, 0);
    proven(&mult4, &even, &mut i);
    refuted(&even, &mult4, &mut i);
}

#[test]
fn subcontract_soundness_sweep() {
    let mut i = Interner::new();
    let five = i.integer(5);
    let five_again = i.integer(5);
    let contracts = vec![
        Contract::Top,
        Contract::Bottom,
        Contract::Kind(Kind::Number),
        Contract::Kind(Kind::String),
        Contract::Range(r(0), r(10)),
        Contract::Range(r(0), r(100)),
        Contract::Range(r(5), r(15)),
        Contract::Greater(r(0)),
        Contract::LessEq(r(10)),
        Contract::Equals(five),
        modc(2, 0),
        modc(4, 0),
        Contract::Union(b(Contract::Range(r(0), r(5))), b(Contract::Range(r(6), r(10)))),
        Contract::Intersection(b(Contract::Range(r(0), r(20))), b(Contract::Greater(r(5)))),
        Contract::Difference(b(Contract::Range(r(0), r(10))), b(Contract::Equals(five_again))),
        Contract::HasField("age".to_string()),
        Contract::Kind(Kind::Tuple),
        Contract::Kind(Kind::Record),
        Contract::Tuple(vec![Contract::Kind(Kind::Number)]),
    ];
    let mut pool: Vec<ValueRef> = Vec::new();
    for n in [-5, 0, 1, 2, 3, 4, 5, 6, 7, 10, 11, 15, 20, 50, 100, 101] {
        pool.push(i.integer(n));
    }
    pool.push(i.number(rat(1, 2)));
    pool.push(i.string("x"));
    pool.push(i.boolean(true));
    pool.push(i.null());
    let age = i.integer(1);
    pool.push(i.record_str(vec![("age", age)]));
    let one = i.integer(1);
    pool.push(i.tuple(vec![one]));
    pool.push(i.tuple(vec![]));

    for a in &contracts {
        for c in &contracts {
            match subcontract(a, c, &mut i) {
                Verdict::Proven => {
                    for v in &pool {
                        assert!(!(a.contains(v) && !c.contains(v)), "UNSOUND Proven: {a:?} ⊑ {c:?} but {v:?} ∈ A∖B");
                    }
                }
                Verdict::Refuted(w) => {
                    assert!(a.contains(&w) && !c.contains(&w), "UNSOUND Refuted: {a:?} ⊑ {c:?} witness {w:?}");
                }
                Verdict::Unproven => {}
            }
        }
    }
}

#[test]
fn records_and_tuples_compare_by_fields() {
    let mut i = Interner::new();
    let ra = Contract::Record(vec![("a".to_string(), Contract::Range(r(0), r(5))), ("b".to_string(), Contract::Kind(Kind::String))]);
    let rb = Contract::Record(vec![("b".to_string(), Contract::Top), ("a".to_string(), Contract::Kind(Kind::Number))]);
    proven(&ra, &rb, &mut i);
    proven(&ra, &Contract::HasField("b".to_string()), &mut i);
    assert!(disjoint(&ra, &Contract::HasField("c".to_string())));
    assert!(!disjoint(&ra, &Contract::HasField("a".to_string())));
    let ta = Contract::Tuple(vec![Contract::Range(r(1), r(2))]);
    proven(&ta, &Contract::Tuple(vec![Contract::Greater(r(0))]), &mut i);
    assert!(matches!(subcontract(&Contract::Tuple(vec![Contract::Top]), &ta, &mut i), Verdict::Refuted(_) | Verdict::Unproven));
    // An empty range is a subcontract of anything.
    proven(&Contract::Range(r(3), r(1)), &Contract::Kind(Kind::String), &mut i);
}

#[test]
fn probes_and_proven_members() {
    let mut i = Interner::new();
    let s = sample(&Contract::Range(r(0), r(10)), &mut i);
    assert_eq!(s.len(), 3);
    let members = Contract::Range(r(3), r(1)).proven_members(&mut i);
    assert!(members.is_empty());
    assert!(!Contract::Range(r(3), r(1)).has_proven_inhabitant(&mut i));
    assert!(Contract::Kind(Kind::Boolean).has_proven_inhabitant(&mut i));
    let m = modc(3, 1).proven_members(&mut i);
    assert!(m.len() == 3 && m.iter().all(|v| modc(3, 1).contains(v)));
}

#[test]
fn probe_lists_per_form() {
    let mut i = Interner::new();
    // Kind(String) probes "" and "a".
    let s = sample(&Contract::Kind(Kind::String), &mut i);
    let e = i.string("");
    let a = i.string("a");
    assert_eq!(s.len(), 2);
    assert!(s[0].ptr_eq(&e) && s[1].ptr_eq(&a));
    // Top probes 0, 1, -1.
    let t = sample(&Contract::Top, &mut i);
    let want: Vec<ValueRef> = vec![i.integer(0), i.integer(1), i.integer(-1)];
    assert_eq!(t.len(), 3);
    assert!(t.iter().zip(want.iter()).all(|(x, y)| x.ptr_eq(y)));
    // Greater(5) probes 6 and 11/2.
    let g = sample(&Contract::Greater(r(5)), &mut i);
    let six = i.integer(6);
    let half = i.number(rat(11, 2));
    assert!(g.len() == 2 && g[0].ptr_eq(&six) && g[1].ptr_eq(&half));
    // Range(0, 10) probes 0, 10 and the midpoint 5.
    let m = sample(&Contract::Range(r(0), r(10)), &mut i);
    let five = i.integer(5);
    assert!(m[2].ptr_eq(&five));
    // Mod {4, 1} probes 1, 5 and -3.
    let md = sample(&modc(4, 1), &mut i);
    let (one, fv, m3) = (i.integer(1), i.integer(5), i.integer(-3));
    assert!(md.len() == 3 && md[0].ptr_eq(&one) && md[1].ptr_eq(&fv) && md[2].ptr_eq(&m3));
    // A function kind, a bare reference and the tuple-family forms probe nothing.
    assert!(sample(&Contract::Kind(Kind::Function), &mut i).is_empty());
    assert!(sample(&Contract::Ref("L".to_string()), &mut i).is_empty());
    // A tuple with an unsampleable element gives nothing; otherwise one tuple
    // of first probes.
    let tu = sample(&Contract::Tuple(vec![Contract::Kind(Kind::Null), Contract::Kind(Kind::Function)]), &mut i);
    assert!(tu.is_empty());
    let tv = sample(&Contract::Tuple(vec![Contract::Kind(Kind::Null), Contract::Top]), &mut i);
    let nul = i.null();
    let zero = i.integer(0);
    let pair = i.tuple(vec![nul, zero]);
    assert!(tv.len() == 1 && tv[0].ptr_eq(&pair));
}

#[test]
fn verdicts_of_the_documented_examples() {
    let mut i = Interner::new();
    proven(&Contract::Range(r(0), r(10)), &Contract::Range(r(0), r(100)), &mut i);
    refuted(&Contract::Range(r(0), r(100)), &Contract::Range(r(0), r(10)), &mut i);
    match subcontract(&Contract::GreaterEq(r(5)), &Contract::Greater(r(5)), &mut i) {
        Verdict::Refuted(w) => {
            let five = i.integer(5);
            assert!(w.ptr_eq(&five));
        }
        v => panic!("expected a refutation, got {v:?}"),
    }
    proven(&modc(4, 0), &modc(2, 0), &mut i);
    proven(&Contract::Bottom, &Contract::Kind(Kind::String), &mut i);
    // No rule proves it and no probe refutes it.
    assert!(matches!(
        subcontract(&Contract::Greater(r(0)), &Contract::Geo { b: r(1), r: r(2) }, &mut i),
        Verdict::Refuted(_) | Verdict::Unproven
    ));
}
