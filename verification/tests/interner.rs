use next::ast::{ActKind, BindingRef, Expr, Lambda, Pat, PatElem, Ref};
use next::bignum::BigNum;
use next::interner::Interner;
use next::rational::Rational;

#[test]
fn leaves_intern_to_one_pointer() {
    let mut i = Interner::new();
    assert!(i.boolean(true).ptr_eq(&i.boolean(true)));
    assert!(!i.boolean(true).ptr_eq(&i.boolean(false)));
    assert!(i.null().ptr_eq(&i.null()));
    assert!(i.integer(42).ptr_eq(&i.integer(42)));
    assert!(!i.integer(42).ptr_eq(&i.integer(43)));
    assert!(i.string("hi").ptr_eq(&i.string("hi")));
    assert!(!i.string("hi").ptr_eq(&i.string("ho")));
}

#[test]
fn equal_values_equal_pointers() {
    let mut i = Interner::new();
    assert_eq!(i.integer(7), i.integer(7));
    assert_ne!(i.integer(7), i.string("7"));
}

#[test]
fn number_equality_is_by_value_then_pointer() {
    let mut i = Interner::new();
    let half = i.number(Rational::from_decimal("0.5").unwrap());
    let one_over_two = i.number(Rational::new(BigNum::from_i64(1), BigNum::from_i64(2)));
    assert!(half.ptr_eq(&one_over_two));
}

#[test]
fn tuples_hash_cons_structurally() {
    let mut i = Interner::new();
    let (one, two) = (i.integer(1), i.integer(2));
    let a = i.tuple(vec![one.clone(), two.clone()]);
    let b = i.tuple(vec![one.clone(), two.clone()]);
    assert!(a.ptr_eq(&b));
    let c = i.tuple(vec![two, one]);
    assert!(!a.ptr_eq(&c));
}

#[test]
fn nested_tuples_intern() {
    let mut i = Interner::new();
    let one = i.integer(1);
    let two = i.integer(2);
    let inner1 = i.tuple(vec![one.clone()]);
    let inner2 = i.tuple(vec![one]);
    let outer1 = i.tuple(vec![inner1, two.clone()]);
    let outer2 = i.tuple(vec![inner2, two]);
    assert!(outer1.ptr_eq(&outer2));
}

#[test]
fn record_field_order_not_observable() {
    let mut i = Interner::new();
    let one = i.integer(1);
    let two = i.integer(2);
    let ab = i.record_str(vec![("a", one.clone()), ("b", two.clone())]);
    let ba = i.record_str(vec![("b", two), ("a", one)]);
    assert!(ab.ptr_eq(&ba));
}

#[test]
fn record_later_wins_on_duplicate_key() {
    let mut i = Interner::new();
    let (one, two) = (i.integer(1), i.integer(2));
    let dup = i.record_str(vec![("a", one), ("a", two.clone())]);
    let expected = i.record_str(vec![("a", two)]);
    assert!(dup.ptr_eq(&expected));
    assert_eq!(dup.as_record().unwrap().len(), 1);
}

#[test]
fn division_by_zero_forms_are_distinct_values() {
    let mut i = Interner::new();
    let a = i.div_zero(Rational::from(1));
    let b = i.div_zero(Rational::from(1));
    let c = i.mod_zero(Rational::from(1));
    assert!(a.ptr_eq(&b));
    assert!(!a.ptr_eq(&c));
}

#[test]
fn interner_counts_distinct_values() {
    let mut i = Interner::new();
    i.integer(1);
    i.integer(1);
    i.string("x");
    assert_eq!(i.len(), 2);
}

fn identity_code(name: &str) -> Lambda {
    Lambda {
        params: Pat::Bind(name.to_string()),
        body: Box::new(Expr::Ref(Ref::Immutable(BindingRef::Name(name.to_string())))),
        act_kind: ActKind::Pure,
    }
}

#[test]
fn equal_function_shapes_share_one_handle() {
    let mut i = Interner::new();
    assert_eq!(i.interned_count(), 0);
    let a = i.intern_code(identity_code("x"));
    let b = i.intern_code(identity_code("x"));
    assert!(a.ptr_eq(&b));
    assert_eq!(i.interned_count(), 1);
    let c = i.intern_code(identity_code("y"));
    assert!(!a.ptr_eq(&c));
    assert_eq!(i.interned_count(), 2);
    assert_eq!(c.get().act_kind, ActKind::Pure);
}

#[test]
fn function_shapes_intern_by_structure() {
    let shape = |name: &str| Lambda {
        params: Pat::Tuple(vec![PatElem::Pat(Pat::Bind("x".into()))]),
        body: Box::new(Expr::Ref(Ref::Immutable(BindingRef::Name(name.into())))),
        act_kind: ActKind::Pure,
    };
    let mut i = Interner::new();
    let c0 = i.interned_count();
    let a = i.intern_code(shape("x"));
    let b = i.intern_code(shape("x"));
    let c = i.intern_code(shape("y"));
    assert!(a.ptr_eq(&b));
    assert!(!a.ptr_eq(&c));
    assert_eq!(i.interned_count(), c0 + 2);
    assert_eq!(*a, shape("x"));
}
