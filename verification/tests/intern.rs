use next::intern::{EnumInterner, Interned, Term};

#[derive(Clone, PartialEq, Eq, Debug)]
enum Toy {
    Leaf(i64),
    Pair(Interned<Toy>, Interned<Toy>),
}

impl Term for Toy {
    fn same_as(&self, other: &Toy) -> bool {
        self == other
    }
    fn lemma_same_refl(_a: &Toy) {}
    fn lemma_same_sym(_a: &Toy, _b: &Toy) {}
    fn lemma_same_trans(_a: &Toy, _b: &Toy, _c: &Toy) {}
    fn same_term(&self, other: &Toy) -> bool {
        self == other
    }
}

#[test]
fn equal_terms_share_one_allocation() {
    let mut i = EnumInterner::new();
    let a = i.intern(Toy::Leaf(1));
    let b = i.intern(Toy::Leaf(1));
    assert!(a.ptr_eq(&b), "structural equality must coincide with pointer equality");
    assert_eq!(i.count(), 1, "and only one allocation exists");
}

#[test]
fn different_terms_do_not_collapse() {
    let mut i = EnumInterner::new();
    let a = i.intern(Toy::Leaf(1));
    let b = i.intern(Toy::Leaf(2));
    assert!(!a.ptr_eq(&b));
    assert_eq!(i.count(), 2);
}

#[test]
fn compound_terms_intern_through_canonical_children() {
    let mut i = EnumInterner::new();
    let one = i.intern(Toy::Leaf(1));
    let two = i.intern(Toy::Leaf(2));
    let p = i.intern(Toy::Pair(one.clone(), two.clone()));
    let (one2, two2) = (i.intern(Toy::Leaf(1)), i.intern(Toy::Leaf(2)));
    let q = i.intern(Toy::Pair(one2, two2));
    assert!(p.ptr_eq(&q), "same children => same compound");
    assert_eq!(i.count(), 3, "Leaf(1), Leaf(2), Pair - nothing duplicated");
}

#[test]
fn tables_are_per_type() {
    #[derive(Clone, PartialEq, Eq, Debug)]
    struct Other(i64);
    impl Term for Other {
        fn same_as(&self, other: &Other) -> bool {
            self == other
        }
        fn lemma_same_refl(_a: &Other) {}
        fn lemma_same_sym(_a: &Other, _b: &Other) {}
        fn lemma_same_trans(_a: &Other, _b: &Other, _c: &Other) {}
        fn same_term(&self, other: &Other) -> bool {
            self == other
        }
    }
    let mut toys = EnumInterner::new();
    let mut others = EnumInterner::new();
    toys.intern(Toy::Leaf(7));
    others.intern(Other(7));
    assert_eq!(toys.count(), 1);
    assert_eq!(others.count(), 1);
}

#[test]
fn a_handle_derefs_to_its_term() {
    let mut i = EnumInterner::new();
    let a = i.intern(Toy::Leaf(42));
    assert!(matches!(*a, Toy::Leaf(42)));
}

#[test]
fn handles_are_issued_in_order() {
    let mut i = EnumInterner::new();
    let a = i.intern(Toy::Leaf(5));
    let b = i.intern(Toy::Leaf(6));
    let c = i.intern(Toy::Leaf(5));
    assert_eq!(a.as_ptr(), 0);
    assert_eq!(b.as_ptr(), 1);
    assert_eq!(c.as_ptr(), 0);
    assert!(a == c);
    assert!(a != b);
}
