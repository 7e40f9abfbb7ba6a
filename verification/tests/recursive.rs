use next::contract::recursive::{admissible, contains, DefError, RecGroup};
use next::interner::Interner;
use next::contract::{Contract, Kind};

fn rec_ref(name: &str) -> Contract {
    Contract::Ref(name.to_string())
}

fn group(defs: Vec<(&str, Contract)>) -> RecGroup {
    RecGroup::new(defs.into_iter().map(|(n, c)| (n.to_string(), c)).collect())
}

fn union(a: Contract, b: Contract) -> Contract {
    Contract::Union(Box::new(a), Box::new(b))
}

fn record(fields: Vec<(&str, Contract)>) -> Contract {
    Contract::Record(fields.into_iter().map(|(k, c)| (k.to_string(), c)).collect())
}

#[test]
fn rc09_negative_occurrence_rejected() {
    // Bad = Difference(Top, Bad): antitone, no least fixpoint.
    let g = group(vec![("Bad", Contract::Difference(Box::new(Contract::Top), Box::new(rec_ref("Bad"))))]);
    assert_eq!(admissible(&g), Err(DefError::NegativeOccurrence { name: "Bad".into() }));
}

#[test]
fn rc10_unguarded_recursion_rejected() {
    // R = R
    let g1 = group(vec![("R", rec_ref("R"))]);
    assert!(matches!(admissible(&g1), Err(DefError::Unguarded { .. })));
    // R = Union(Number, R): denotes Number, and the hint says so.
    let g2 = group(vec![("R", union(Contract::Kind(Kind::Number), rec_ref("R")))]);
    match admissible(&g2) {
        Err(DefError::Unguarded { hint, .. }) => assert!(hint.contains("denotes")),
        other => panic!("expected unguarded, got {other:?}"),
    }
}

#[test]
fn guarded_group_is_admissible() {
    // List = Union(Null, Record({head: Number, tail: List})): the reference is
    // guarded beneath the Record.
    let g = group(vec![(
        "List",
        union(
            Contract::Kind(Kind::Null),
            record(vec![("head", Contract::Kind(Kind::Number)), ("tail", rec_ref("List"))]),
        ),
    )]);
    assert_eq!(admissible(&g), Ok(()));
}

/// `Repeat(E)`: `R = Union(Tuple(), Concat(Tuple(E), R))`.
fn repeat_group(name: &str, element: Contract) -> RecGroup {
    let body = union(
        Contract::Tuple(vec![]),
        Contract::Concat(vec![Contract::Tuple(vec![element]), rec_ref(name)]),
    );
    group(vec![(name, body)])
}

#[test]
fn concat_guardedness_admits_repeat() {
    // The recursive segment is guarded by a sibling of proven minimum extent 1.
    let g = repeat_group("R", Contract::Kind(Kind::Number));
    assert_eq!(admissible(&g), Ok(()));

    // With no consuming sibling, the same shape is unguarded and rejected.
    let bad = group(vec![("U", Contract::Concat(vec![Contract::Kind(Kind::Tuple), rec_ref("U")]))]);
    assert!(matches!(admissible(&bad), Err(DefError::Unguarded { .. })));
}

#[test]
fn group_keeps_the_last_definition_in_name_order() {
    let g = group(vec![
        ("b", Contract::Top),
        ("a", Contract::Bottom),
        ("b", Contract::Kind(Kind::Null)),
    ]);
    assert_eq!(g.defs.len(), 2);
    assert_eq!(g.defs[0].0, "a");
    assert_eq!(g.defs[1].0, "b");
    assert!(matches!(g.defs[1].1, Contract::Kind(Kind::Null)));
}

#[test]
fn negative_occurrence_under_a_record_field_is_found() {
    // Under a Difference exclusion, even beneath a Record, a reference is
    // negative; a double exclusion is positive again.
    let neg = group(vec![(
        "T",
        Contract::Difference(Box::new(Contract::Top), Box::new(record(vec![("x", rec_ref("T"))]))),
    )]);
    assert_eq!(admissible(&neg), Err(DefError::NegativeOccurrence { name: "T".into() }));
    let pos = group(vec![(
        "T",
        union(
            Contract::Kind(Kind::Null),
            Contract::Difference(
                Box::new(Contract::Top),
                Box::new(Contract::Difference(Box::new(Contract::Top), Box::new(record(vec![("x", rec_ref("T"))])))),
            ),
        ),
    )]);
    assert_eq!(admissible(&pos), Ok(()));
}

#[test]
fn a_reference_outside_the_group_is_not_an_occurrence() {
    let g = group(vec![("A", Contract::Difference(Box::new(Contract::Top), Box::new(rec_ref("Other"))))]);
    assert_eq!(admissible(&g), Ok(()));
}

#[test]
fn mutual_unguarded_cycle_reports_the_first_name() {
    // B = A, A = Union(Null, B): a cycle through both, no constructor crossed.
    let g = group(vec![
        ("B", rec_ref("A")),
        ("A", union(Contract::Kind(Kind::Null), rec_ref("B"))),
    ]);
    match admissible(&g) {
        Err(DefError::Unguarded { name, hint }) => {
            assert_eq!(name, "A");
            assert_eq!(hint, "cycle through `A` crosses no Tuple/Record constructor");
        },
        other => panic!("expected unguarded, got {other:?}"),
    }
}

#[test]
fn negativity_is_reported_before_guardedness() {
    let g = group(vec![
        ("A", rec_ref("A")),
        ("B", Contract::Difference(Box::new(Contract::Top), Box::new(rec_ref("A")))),
    ]);
    assert_eq!(admissible(&g), Err(DefError::NegativeOccurrence { name: "A".into() }));
}

#[test]
fn self_union_hint_names_the_other_side() {
    let g = group(vec![("R", union(rec_ref("R"), Contract::Kind(Kind::String)))]);
    match admissible(&g) {
        Err(DefError::Unguarded { name, hint }) => {
            assert_eq!(name, "R");
            assert_eq!(hint, "`R` denotes `Kind(String)` — write that");
        },
        other => panic!("expected unguarded, got {other:?}"),
    }
}

#[test]
fn recursive_membership() {
    let mut i = Interner::new();
    let g = group(vec![(
        "List",
        union(
            Contract::Kind(Kind::Null),
            record(vec![("head", Contract::Kind(Kind::Number)), ("tail", rec_ref("List"))]),
        ),
    )]);
    assert!(admissible(&g).is_ok());
    let list = rec_ref("List");

    let nil = i.null();
    assert!(contains(&g, &list, &nil)); // empty list

    let one_two = {
        let two = i.integer(2);
        let inner = i.record_str(vec![("head", two), ("tail", nil.clone())]);
        let one = i.integer(1);
        i.record_str(vec![("head", one), ("tail", inner)])
    };
    assert!(contains(&g, &list, &one_two)); // [1, 2]

    let x = i.string("x");
    let bad_head = i.record_str(vec![("head", x), ("tail", nil.clone())]);
    assert!(!contains(&g, &list, &bad_head)); // head not a Number
}

#[test]
fn concat_membership_splits_the_tuple() {
    let mut i = Interner::new();
    let g = repeat_group("R", Contract::Kind(Kind::Number));
    let r = rec_ref("R");

    let empty = i.tuple(vec![]);
    assert!(contains(&g, &r, &empty));
    let one = i.integer(1);
    let two = i.integer(2);
    let nums = i.tuple(vec![one, two]);
    assert!(contains(&g, &r, &nums));
    let s = i.string("x");
    let mixed = i.tuple(vec![s]);
    assert!(!contains(&g, &r, &mixed));
}

#[test]
fn long_lists_do_not_run_out_of_unfoldings() {
    let mut i = Interner::new();
    let g = group(vec![(
        "List",
        union(
            Contract::Kind(Kind::Null),
            record(vec![("head", Contract::Kind(Kind::Number)), ("tail", rec_ref("List"))]),
        ),
    )]);
    let mut v = i.null();
    for k in 0..50 {
        let h = i.integer(k);
        v = i.record_str(vec![("head", h), ("tail", v)]);
    }
    assert!(contains(&g, &rec_ref("List"), &v));
    let g2 = repeat_group("R", Contract::Kind(Kind::Number));
    let items: Vec<_> = (0..12).map(|k| i.integer(k)).collect();
    let t = i.tuple(items);
    assert!(contains(&g2, &rec_ref("R"), &t));
}

#[test]
fn mutual_membership_and_foreign_references() {
    let mut i = Interner::new();
    // A = Record({b: B}); B = Union(Null, Record({a: A})).
    let g = group(vec![
        ("A", record(vec![("b", rec_ref("B"))])),
        ("B", union(Contract::Kind(Kind::Null), record(vec![("a", rec_ref("A"))]))),
    ]);
    let nil = i.null();
    let a = i.record_str(vec![("b", nil.clone())]);
    assert!(contains(&g, &rec_ref("A"), &a));
    let b = i.record_str(vec![("a", a.clone())]);
    assert!(contains(&g, &rec_ref("B"), &b));
    assert!(!contains(&g, &rec_ref("A"), &nil));
    // A name outside the group denotes nothing.
    assert!(!contains(&g, &rec_ref("C"), &nil));
}
