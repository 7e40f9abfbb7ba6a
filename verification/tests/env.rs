use std::rc::Rc;

use next::env::{Binding, Scope, SlotId};
use next::interner::Interner;

#[test]
fn a_defined_name_looks_up_to_its_binding() {
    let mut root = Scope::root();
    root.define("s", Binding::Slot(SlotId(3)));
    assert!(matches!(root.lookup("s"), Some(Binding::Slot(SlotId(3)))));
    assert!(root.lookup("t").is_none());
}

#[test]
fn a_later_definition_shadows_an_earlier_one() {
    let mut i = Interner::new();
    let one = i.integer(1);
    let two = i.integer(2);
    let mut root = Scope::root();
    root.define("x", Binding::Value(one));
    root.define("x", Binding::Value(two.clone()));
    match root.lookup("x") {
        Some(Binding::Value(v)) => assert!(v.ptr_eq(&two)),
        other => panic!("expected a value, got {:?}", other),
    }
}

#[test]
fn a_child_sees_its_parent_and_shadows_it() {
    let mut root = Scope::root();
    root.define("a", Binding::Slot(SlotId(1)));
    root.define("b", Binding::Slot(SlotId(2)));
    let parent = Rc::new(root);
    let mut child = Scope::child(&parent);
    child.define("b", Binding::UnderInit);
    assert!(matches!(child.lookup("a"), Some(Binding::Slot(SlotId(1)))));
    assert!(matches!(child.lookup("b"), Some(Binding::UnderInit)));
    assert!(matches!(parent.lookup("b"), Some(Binding::Slot(SlotId(2)))));
}
