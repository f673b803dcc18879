use gorge_compiler::ast::{BinaryOp, Expression, Literal, Statement};
use gorge_compiler::span::Span;

fn dummy_span() -> Span {
    Span::new(0, 1, 1, 1, 0)
}

#[test]
fn test_literal_expression() {
    let expr = Expression::Literal(Literal::Int(42), dummy_span());
    assert!(matches!(expr, Expression::Literal(Literal::Int(42), _)));
}

#[test]
fn test_binary_expression() {
    let left = Expression::Literal(Literal::Int(1), dummy_span());
    let right = Expression::Literal(Literal::Int(2), dummy_span());
    let expr = Expression::Binary {
        left: Box::new(left),
        operator: BinaryOp::Add,
        right: Box::new(right),
        span: dummy_span(),
    };
    assert!(matches!(expr, Expression::Binary { operator: BinaryOp::Add, .. }));
}

#[test]
fn test_statement_span() {
    let stmt = Statement::Return { value: None, span: dummy_span() };
    assert_eq!(stmt.span().line, 1);
}
