use gorge_compiler::ast::{BinaryOp, Expression, Literal, UnaryOp};
use gorge_compiler::constant::{eval_metadata_const, ConstValue};
use gorge_compiler::span::Span;

fn dummy_span() -> Span {
    Span::dummy()
}

fn lit(l: Literal) -> Box<Expression> {
    Box::new(Expression::Literal(l, dummy_span()))
}

fn binary(left: Literal, operator: BinaryOp, right: Literal) -> Expression {
    Expression::Binary { left: lit(left), operator, right: lit(right), span: dummy_span() }
}

fn as_f64(v: &ConstValue) -> Option<f64> {
    match v {
        ConstValue::Float { numerator, denominator } => Some(*numerator as f64 / *denominator as f64),
        _ => None,
    }
}

#[test]
fn test_eval_metadata_const_arithmetic() {
    let expr = binary(Literal::Int(10), BinaryOp::Add, Literal::Int(20));
    let v = eval_metadata_const(&expr).unwrap();
    assert!(matches!(v, ConstValue::Int(30)));

    let expr = binary(Literal::Float("2.5".to_string()), BinaryOp::Multiply, Literal::Int(4));
    let v = eval_metadata_const(&expr).unwrap();
    assert!(matches!(as_f64(&v), Some(x) if (x - 10.0).abs() < 1e-9));

    let expr = Expression::Unary { operator: UnaryOp::Negate, operand: lit(Literal::Int(5)), span: dummy_span() };
    let v = eval_metadata_const(&expr).unwrap();
    assert!(matches!(v, ConstValue::Int(-5)));

    let expr = Expression::Unary { operator: UnaryOp::Not, operand: lit(Literal::Bool(true)), span: dummy_span() };
    let v = eval_metadata_const(&expr).unwrap();
    assert!(matches!(v, ConstValue::Bool(false)));

    let expr = binary(Literal::Int(10), BinaryOp::Divide, Literal::Int(0));
    assert!(eval_metadata_const(&expr).is_none());
}

#[test]
fn nested_arithmetic_folds() {
    // 1 + 2 * 3
    let expr = Expression::Binary {
        left: lit(Literal::Int(1)),
        operator: BinaryOp::Add,
        right: Box::new(binary(Literal::Int(2), BinaryOp::Multiply, Literal::Int(3))),
        span: dummy_span(),
    };
    assert!(matches!(eval_metadata_const(&expr), Some(ConstValue::Int(7))));
}

#[test]
fn integer_division_rounds_toward_zero() {
    let q = eval_metadata_const(&binary(Literal::Int(-7), BinaryOp::Divide, Literal::Int(2)));
    assert!(matches!(q, Some(ConstValue::Int(-3))));
    let r = eval_metadata_const(&binary(Literal::Int(-7), BinaryOp::Modulo, Literal::Int(2)));
    assert!(matches!(r, Some(ConstValue::Int(-1))));
}

#[test]
fn integer_overflow_is_not_folded() {
    let expr = binary(Literal::Int(i64::MAX), BinaryOp::Add, Literal::Int(1));
    assert!(eval_metadata_const(&expr).is_none());
    let expr = binary(Literal::Int(i64::MIN), BinaryOp::Divide, Literal::Int(-1));
    assert!(eval_metadata_const(&expr).is_none());
}

#[test]
fn float_literal_is_an_exact_fraction() {
    let v = eval_metadata_const(&Expression::Literal(Literal::Float("0.125".to_string()), dummy_span()));
    assert!(matches!(v, Some(ConstValue::Float { numerator: 125, denominator: 1000 })));
}

#[test]
fn float_remainder_and_division() {
    let r = eval_metadata_const(&binary(Literal::Float("1.5".to_string()), BinaryOp::Modulo, Literal::Float("0.4".to_string())));
    assert!(matches!(r.as_ref().and_then(as_f64), Some(x) if (x - 0.3).abs() < 1e-12));
    let d = eval_metadata_const(&binary(Literal::Int(1), BinaryOp::Divide, Literal::Float("0.5".to_string())));
    assert!(matches!(d.as_ref().and_then(as_f64), Some(x) if (x - 2.0).abs() < 1e-12));
    let m = eval_metadata_const(&binary(Literal::Int(3), BinaryOp::Modulo, Literal::Float("0.5".to_string())));
    assert!(m.is_none());
}

#[test]
fn non_constant_expressions_are_not_folded() {
    let cmp = binary(Literal::Int(1), BinaryOp::Less, Literal::Int(2));
    assert!(eval_metadata_const(&cmp).is_none());
    let id = Expression::Identifier("speed".to_string(), dummy_span());
    assert!(eval_metadata_const(&id).is_none());
    let s = eval_metadata_const(&Expression::Literal(Literal::String("hi".to_string()), dummy_span()));
    assert!(matches!(s, Some(ConstValue::String(t)) if t == "hi"));
}
