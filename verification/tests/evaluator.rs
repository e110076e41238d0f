use meerkat::ast::{BinOp, Expr, UnOp};
use meerkat::new_runtime::evaluator::{EvalError, Evaluator, ReadEntry, Reads};
use meerkat::new_runtime::message::{MonotonicTimestampGenerator, Version, Iteration};
use meerkat::new_runtime::service::{ReactiveName, ReactiveRef};

fn var(name: &str) -> Expr {
    Expr::Variable { ident: name.to_string() }
}

fn num(val: i32) -> Expr {
    Expr::Number { val }
}

fn binop(op: BinOp, a: Expr, b: Expr) -> Expr {
    Expr::Binop { op, expr1: Box::new(a), expr2: Box::new(b) }
}

fn reads(entries: Vec<(&str, Option<Expr>)>) -> Reads {
    Reads {
        entries: entries
            .into_iter()
            .map(|(n, v)| ReadEntry { reactive: ReactiveRef { service: 1, name: ReactiveName(n.to_string()) }, value: v })
            .collect(),
        exhaustive: false,
    }
}

#[test]
fn evaluates_arithmetic_and_comparisons() {
    let mut e = Evaluator::new();
    let mut x = binop(BinOp::Lt, binop(BinOp::Add, num(2), binop(BinOp::Mul, num(3), num(4))), num(15));
    assert!(matches!(e.eval_expr_checked(&mut x, 1, &reads(vec![])), Some(Ok(()))));
    assert_eq!(x, Expr::Bool { val: true });
    let mut d = binop(BinOp::Div, num(-7), num(2));
    assert!(matches!(e.eval_expr_checked(&mut d, 1, &reads(vec![])), Some(Ok(()))));
    assert_eq!(d, num(-3));
}

#[test]
fn reads_reactive_values() {
    let mut e = Evaluator::new();
    let mut x = binop(BinOp::Sub, var("a"), num(1));
    assert!(matches!(e.eval_expr_checked(&mut x, 1, &reads(vec![("a", Some(num(10)))])), Some(Ok(()))));
    assert_eq!(x, num(9));
}

#[test]
fn missing_reactive_is_unknown_in_full_evaluation() {
    let mut e = Evaluator::new();
    let mut x = var("a");
    match e.eval_expr_checked(&mut x, 1, &reads(vec![])) {
        Some(Err(EvalError::UnknownVariable(name))) => assert_eq!(name, "a"),
        other => panic!("expected an unknown variable, got {other:?}"),
    }
}

#[test]
fn partial_evaluation_stops_at_missing_value() {
    let mut e = Evaluator::new();
    let mut x = binop(BinOp::Add, var("a"), num(1));
    assert!(matches!(e.partial_eval(&mut x, 1, &reads(vec![("b", Some(num(1)))])), Ok(false)));
    let mut y = binop(BinOp::Add, var("b"), num(1));
    assert!(matches!(e.partial_eval(&mut y, 1, &reads(vec![("b", Some(num(1)))])), Ok(true)));
    assert_eq!(y, num(2));
}

#[test]
fn applies_functions() {
    let mut e = Evaluator::new();
    let f = Expr::Func { params: vec!["n".to_string()], body: Box::new(binop(BinOp::Mul, var("n"), var("n"))) };
    let mut x = Expr::FuncApply { func: Box::new(f), args: vec![num(7)] };
    assert!(matches!(e.eval_expr_checked(&mut x, 1, &reads(vec![])), Some(Ok(()))));
    assert_eq!(x, num(49));
}

#[test]
fn overflow_has_no_result() {
    let mut e = Evaluator::new();
    let mut x = binop(BinOp::Add, num(i32::MAX), num(1));
    assert!(e.eval_expr_checked(&mut x, 1, &reads(vec![])).is_none());
    let mut n = Expr::Unop { op: UnOp::Neg, expr: Box::new(num(i32::MIN)) };
    assert!(e.eval_expr_checked(&mut n, 1, &reads(vec![])).is_none());
}

#[test]
fn condition_must_be_boolean() {
    let mut e = Evaluator::new();
    let mut x = Expr::If { cond: Box::new(num(0)), expr1: Box::new(num(1)), expr2: Box::new(num(2)) };
    match e.eval_expr_checked(&mut x, 1, &reads(vec![])) {
        Some(Err(EvalError::Other(msg))) => assert_eq!(msg, "if condition must be a boolean, got 0"),
        other => panic!("expected an error, got {other:?}"),
    }
}

#[test]
fn timestamps_strictly_increase() {
    let mut g = MonotonicTimestampGenerator::new();
    assert_eq!(g.generate_timestamp(100).epoch_micros, 100);
    assert_eq!(g.generate_timestamp(50).epoch_micros, 101);
    assert_eq!(g.generate_timestamp(101).epoch_micros, 102);
    assert_eq!(g.generate_timestamp(500).epoch_micros, 500);
}

#[test]
fn versions_and_iterations_increment() {
    assert_eq!(Version(4).increment().0, 5);
    assert_eq!(Iteration(0).increment().0, 1);
}

#[test]
fn error_texts() {
    assert_eq!(EvalError::UnknownVariable("a".to_string()).text(), "unknown variable: a");
    assert_eq!(EvalError::Other("boom".to_string()).text(), "other error: boom");
    assert_eq!(
        meerkat::new_runtime::evaluator::PartialEvalError::UnresolvedVariable("b".to_string()).text(),
        "unresolved variable: b"
    );
}

#[test]
fn partial_and_full_evaluation_agree_but_for_missing_values() {
    let mut e = Evaluator::new();
    let mut p = binop(BinOp::Add, num(1), var("a"));
    let mut f = binop(BinOp::Add, num(1), var("a"));
    let partial = e.partial_eval_checked(&mut p, 1, &reads(vec![]));
    let full = e.eval_expr_checked(&mut f, 1, &reads(vec![]));
    assert!(matches!(partial, Some(Err(meerkat::new_runtime::evaluator::PartialEvalError::UnresolvedVariable(ref x))) if x == "a"));
    assert!(matches!(full, Some(Err(EvalError::UnknownVariable(ref x))) if x == "a"));
    assert_eq!(p, f);
}

#[test]
fn an_action_is_a_value() {
    let mut e = Evaluator::new();
    let act = Expr::Action { assns: vec![meerkat::ast::Assn { dest: "x".to_string(), src: binop(BinOp::Add, var("x"), num(1)) }] };
    let mut x = Expr::Action { assns: vec![meerkat::ast::Assn { dest: "x".to_string(), src: binop(BinOp::Add, var("x"), num(1)) }] };
    assert!(matches!(e.eval_expr_checked(&mut x, 1, &reads(vec![])), Some(Ok(()))));
    assert_eq!(x, act);
}
