use next::ast::{AccessForm, Bind, BindTarget, BindingRef, Expr, Import, Item, Module, Ref};
use next::interner::Interner;
use next::link::{assemble, LinkError, ProjectError};

fn named(name: &str, items: Vec<Item>) -> Module {
    Module { name: Some(name.to_string()), items }
}

fn entry(items: Vec<Item>) -> Module {
    Module { name: None, items }
}

fn import_all(module: &str) -> Item {
    Item::Import(Import { names: None, module: module.to_string() })
}

fn import_names(module: &str, names: &[&str]) -> Item {
    Item::Import(Import { names: Some(names.iter().map(|n| n.to_string()).collect()), module: module.to_string() })
}

fn name_ref(n: &str) -> Expr {
    Expr::Ref(Ref::Immutable(BindingRef::Name(n.to_string())))
}

fn export(i: &mut Interner, name: &str) -> Item {
    Item::Bind(Bind { target: BindTarget::Name(name.to_string()), value: Expr::Const(i.integer(0)), exported: true })
}

fn link_error(modules: Vec<Module>) -> LinkError {
    match assemble(modules) {
        Err(ProjectError::Link(e)) => e,
        Ok(_) => panic!("expected a link error"),
    }
}

#[test]
fn an_entry_alone_links() {
    let a = assemble(vec![entry(vec![])]).unwrap();
    assert_eq!(a.entry, 0);
    assert_eq!(a.order, vec![0]);
}

#[test]
fn duplicate_module_names_are_one_error_naming_both() {
    let e = link_error(vec![named("A", vec![]), named("A", vec![]), entry(vec![])]);
    match e {
        LinkError::DuplicateModule { name, first, second } => {
            assert_eq!(name, "A");
            assert_eq!((first, second), (0, 1));
        }
        other => panic!("unexpected {:?}", other),
    }
}

#[test]
fn a_project_needs_exactly_one_entry() {
    assert!(matches!(link_error(vec![named("A", vec![])]), LinkError::Entries(0)));
    assert!(matches!(link_error(vec![entry(vec![]), entry(vec![])]), LinkError::Entries(2)));
}

#[test]
fn an_unknown_import_names_its_importer() {
    match link_error(vec![entry(vec![import_all("B")])]) {
        LinkError::UnknownModule { importer, module } => {
            assert_eq!(importer, "the entry file");
            assert_eq!(module, "B");
        }
        other => panic!("unexpected {:?}", other),
    }
}

#[test]
fn a_named_import_must_be_exported() {
    match link_error(vec![named("A", vec![]), entry(vec![import_names("A", &["x"])])]) {
        LinkError::NotExported { module, name } => {
            assert_eq!(module, "A");
            assert_eq!(name, "x");
        }
        other => panic!("unexpected {:?}", other),
    }
}

#[test]
fn import_cycles_are_an_error() {
    let e = link_error(vec![named("A", vec![import_all("B")]), named("B", vec![import_all("A")]), entry(vec![])]);
    assert!(matches!(e, LinkError::ImportCycle));
}

#[test]
fn modules_set_up_after_their_imports_and_the_entry_last() {
    let a = assemble(vec![
        entry(vec![import_all("A")]),
        named("A", vec![import_all("B")]),
        named("B", vec![]),
    ])
    .unwrap();
    assert_eq!(a.entry, 0);
    assert_eq!(a.order, vec![2, 1, 0]);
}

#[test]
fn namespace_access_rewrites_to_the_mangled_binding() {
    let mut i = Interner::new();
    let access = Expr::Access {
        target: Box::new(name_ref("Counter")),
        form: AccessForm::Field("count".to_string()),
        total: false,
    };
    let a = assemble(vec![
        named("Counter", vec![export(&mut i, "count")]),
        entry(vec![import_all("Counter"), Item::Stmt(access)]),
    ])
    .unwrap();
    match &a.modules[1].items[1] {
        Item::Stmt(e) => assert_eq!(e, &name_ref("Counter.count")),
        other => panic!("unexpected {:?}", other),
    }
}

#[test]
fn a_module_in_a_value_seat_is_an_error() {
    let e = link_error(vec![named("Counter", vec![]), entry(vec![import_all("Counter"), Item::Stmt(name_ref("Counter"))])]);
    assert!(matches!(e, LinkError::ModuleInValueSeat { .. }));
}

#[test]
fn an_unexported_namespace_field_is_an_error() {
    let access = Expr::Access {
        target: Box::new(name_ref("Counter")),
        form: AccessForm::Field("missing".to_string()),
        total: false,
    };
    let e = link_error(vec![named("Counter", vec![]), entry(vec![import_all("Counter"), Item::Stmt(access)])]);
    assert!(matches!(e, LinkError::NotExported { .. }));
}
