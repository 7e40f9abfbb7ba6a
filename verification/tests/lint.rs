use next::lint::{source_lints, surface_lints, Severity, TrapClass};
use next::surface::{BinOp, SExpr, SProgram, SStmt, UnOp};

#[test]
fn a_leading_minus_continuation_is_linted() {
    let findings = source_lints("x = 1\n  - 2");
    assert_eq!(findings.len(), 1);
    assert!(matches!(findings[0].severity, Severity::Warning));
    assert!(matches!(findings[0].class, TrapClass::ArgumentObligation));
    assert!(findings[0].message.contains("line 2"));
}

#[test]
fn a_first_line_minus_and_a_double_minus_are_not_linted() {
    assert!(source_lints("-1").is_empty());
    assert!(source_lints("a\n-- comment-like").is_empty());
    assert!(source_lints("").is_empty());
}

#[test]
fn every_continuation_is_reported_in_order() {
    let findings = source_lints("a\n-b\nc\n -d");
    assert_eq!(findings.len(), 2);
    assert!(findings[0].message.contains("line 2"));
    assert!(findings[1].message.contains("line 4"));
}

#[test]
fn a_redundant_loosen_of_a_boolean_is_linted() {
    let e = SExpr::Unary { op: UnOp::Loosen, operand: Box::new(SExpr::Ident("true".into())) };
    let p = SProgram { header: None, statements: vec![SStmt::Expr(e)] };
    assert_eq!(surface_lints(&p).len(), 1);
}

#[test]
fn a_plain_program_has_no_surface_lints() {
    let e = SExpr::Binary {
        op: BinOp::Add,
        left: Box::new(SExpr::Ident("a".into())),
        right: Box::new(SExpr::Ident("b".into())),
    };
    let p = SProgram { header: None, statements: vec![SStmt::Expr(e)] };
    assert!(surface_lints(&p).is_empty());
}
