use minilang::compiler::context::CTContext;
use minilang::parser::expression::{Expression, NumberValue, Operation, Operator, ParsedExpression};
use minilang::types::{Value, ValueError};

fn operation(op: Operator, a: &str, b: &str) -> Operation {
    Operation {
        op,
        expressions: vec![Expression::Number(a.to_owned()), Expression::Number(b.to_owned())],
    }
}

#[test]
fn operations_fold_to_their_value() {
    let ctx = CTContext::new();
    let op = operation(Operator::Star, "6", "7");
    let parsed = op.parse(&ctx, &vec![NumberValue::Int(6), NumberValue::Int(7)]).unwrap();
    assert!(matches!(parsed.const_fold(&ctx), Some(Ok(Value::Int(42)))));
    let whole = ParsedExpression::ParsedOperation(parsed);
    assert!(matches!(whole.const_fold(&ctx), Some(Value::Int(42))));
}

#[test]
fn nested_operations_fold() {
    let ctx = CTContext::new();
    let inner = operation(Operator::Minus, "10", "4")
        .parse(&ctx, &vec![NumberValue::Int(10), NumberValue::Int(4)])
        .unwrap();
    let two = Expression::Number("2".to_owned()).parse(&ctx, NumberValue::Int(2)).unwrap();
    let outer_op = operation(Operator::Slash, "0", "2")
        .parse(&ctx, &vec![NumberValue::Int(0), NumberValue::Int(2)])
        .unwrap();
    assert!(matches!(outer_op.const_fold(&ctx), Some(Ok(Value::Int(0)))));
    assert!(matches!(two.const_fold(&ctx), Some(Value::Int(2))));
    let whole = ParsedExpression::ParsedOperation(inner);
    assert!(matches!(whole.const_fold(&ctx), Some(Value::Int(6))));
}

#[test]
fn failed_operations_do_not_fold() {
    let ctx = CTContext::new();
    let parsed = operation(Operator::Slash, "1", "0")
        .parse(&ctx, &vec![NumberValue::Int(1), NumberValue::Int(0)])
        .unwrap();
    assert!(matches!(parsed.const_fold(&ctx), Some(Err(ValueError::DivisionByZero))));
    let whole = ParsedExpression::ParsedOperation(parsed);
    assert!(whole.const_fold(&ctx).is_none());
}

#[test]
fn variables_do_not_fold() {
    let ctx = CTContext::new();
    assert!(ParsedExpression::Variable(0).const_fold(&ctx).is_none());
}
