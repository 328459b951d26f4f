use grove_compiler::ast::tree::{BinOpKind, Diagnostic, Expr, Type, TypedExpr};
use grove_compiler::num::Num;
use grove_compiler::summer::typecheck;

fn lit(v: i32) -> Expr {
    Expr::Lit(Num::from_int(v))
}

#[test]
fn expr_literal() {
    let e = lit(42);
    assert!(matches!(e, Expr::Lit(v) if v == Num::from_int(42)));
}

#[test]
fn expr_variable() {
    let e = Expr::Var("x".into());
    assert!(matches!(e, Expr::Var(s) if s == "x"));
}

#[test]
fn expr_binop() {
    let e = Expr::BinOp(Box::new(lit(1)), BinOpKind::Add, Box::new(lit(2)));
    if let Expr::BinOp(l, op, r) = e {
        assert_eq!(*l, lit(1));
        assert_eq!(op, BinOpKind::Add);
        assert_eq!(*r, lit(2));
    } else {
        panic!("expected BinOp");
    }
}

#[test]
fn type_display() {
    assert_eq!(Type::Int.to_string(), "Int");
    assert_eq!(Type::Bool.to_string(), "Bool");
    assert_eq!(Type::Ternary.to_string(), "Ternary");
}

#[test]
fn typed_expr_construction() {
    let te = TypedExpr { expr: lit(1), ty: Type::Ternary };
    assert_eq!(te.ty, Type::Ternary);
}

#[test]
fn diagnostic_new() {
    let d = Diagnostic::new("oops", 0, 5);
    assert_eq!(d.message, "oops");
    assert_eq!(d.start, 0);
    assert_eq!(d.end, 5);
}

#[test]
fn typecheck_literal_int() {
    let result = typecheck(&lit(42));
    assert_eq!(result.typed.unwrap().ty, Type::Int);
}

#[test]
fn typecheck_literal_ternary() {
    let result = typecheck(&lit(1));
    assert_eq!(result.typed.unwrap().ty, Type::Ternary);
}

#[test]
fn typecheck_literal_neg_one() {
    let result = typecheck(&lit(-1));
    assert_eq!(result.typed.unwrap().ty, Type::Ternary);
}

#[test]
fn typecheck_binop_arithmetic() {
    let expr = Expr::BinOp(Box::new(lit(1)), BinOpKind::Add, Box::new(lit(1)));
    let result = typecheck(&expr);
    assert_eq!(result.typed.unwrap().ty, Type::Ternary);
}

#[test]
fn typecheck_binop_comparison() {
    let expr = Expr::BinOp(Box::new(lit(5)), BinOpKind::Lt, Box::new(lit(3)));
    let result = typecheck(&expr);
    assert_eq!(result.typed.unwrap().ty, Type::Bool);
}

#[test]
fn typecheck_let_inference() {
    // let x = 42 in x + 1
    let expr = Expr::Let(
        "x".into(),
        Box::new(lit(42)),
        Box::new(Expr::BinOp(Box::new(Expr::Var("x".into())), BinOpKind::Add, Box::new(lit(1)))),
    );
    let result = typecheck(&expr);
    assert_eq!(result.typed.unwrap().ty, Type::Int);
}

#[test]
fn typecheck_if_branches_match() {
    let expr = Expr::If(
        Box::new(Expr::BinOp(Box::new(lit(1)), BinOpKind::Eq, Box::new(lit(1)))),
        Box::new(lit(42)),
        Box::new(lit(7)),
    );
    let result = typecheck(&expr);
    assert_eq!(result.typed.unwrap().ty, Type::Int);
    assert!(result.errors.is_empty());
}

#[test]
fn typecheck_undefined_var() {
    let expr = Expr::Var("undefined_var".into());
    let result = typecheck(&expr);
    assert!(!result.errors.is_empty());
}

#[test]
fn typecheck_ternary_expr() {
    let expr = Expr::Ternary(Box::new(lit(1)), Box::new(lit(1)), Box::new(lit(-1)));
    let result = typecheck(&expr);
    assert_eq!(result.typed.unwrap().ty, Type::Ternary);
}

#[test]
fn typecheck_mismatched_branches_flagged() {
    let expr = Expr::If(
        Box::new(Expr::BinOp(Box::new(lit(2)), BinOpKind::Gt, Box::new(lit(1)))),
        Box::new(lit(42)),
        Box::new(lit(1)),
    );
    let result = typecheck(&expr);
    assert_eq!(result.typed.unwrap().ty, Type::Int);
    assert_eq!(result.errors, vec!["if branches have mismatched types: Int vs Ternary".to_string()]);
}

#[test]
fn typecheck_condition_niche() {
    let expr = Expr::If(Box::new(lit(5)), Box::new(lit(0)), Box::new(lit(1)));
    let result = typecheck(&expr);
    assert_eq!(result.typed.unwrap().ty, Type::Ternary);
    assert_eq!(result.errors, vec!["if condition must be Bool or Ternary, got Int".to_string()]);
}

#[test]
fn typecheck_let_gives_value_type() {
    let expr = Expr::Let("t".into(), Box::new(lit(-1)), Box::new(Expr::Var("t".into())));
    let result = typecheck(&expr);
    assert_eq!(result.typed.unwrap().ty, Type::Ternary);
    assert!(result.errors.is_empty());
}

#[test]
fn typecheck_binding_ends_with_let() {
    let inner = Expr::Let("t".into(), Box::new(lit(7)), Box::new(Expr::Var("t".into())));
    let expr = Expr::BinOp(Box::new(inner), BinOpKind::Add, Box::new(Expr::Var("t".into())));
    let result = typecheck(&expr);
    assert_eq!(result.errors, vec!["undefined variable: t".to_string()]);
    assert_eq!(result.typed.unwrap().expr, expr);
}

#[test]
fn typecheck_ternary_mismatch_flagged() {
    let expr = Expr::Ternary(Box::new(lit(1)), Box::new(lit(42)), Box::new(lit(1)));
    let result = typecheck(&expr);
    assert_eq!(result.typed.unwrap().ty, Type::Int);
    assert_eq!(result.errors, vec!["if branches have mismatched types: Int vs Ternary".to_string()]);
}
