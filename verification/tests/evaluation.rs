use minilang::parser::expression::{Expression, NumberValue};
use minilang::parser::Lexer;
use minilang::types::{ArithOp, FloatTerm, Value, ValueError};

fn parse(input: &str) -> Expression {
    let mut lexer = Lexer::new();
    lexer.tokenize(input.to_owned());
    lexer.parse_expression(0).unwrap()
}

fn literal_value(text: &str) -> NumberValue {
    let n = text.parse::<f64>().unwrap();
    if n.fract() == 0.0 {
        NumberValue::Int(n as i64)
    } else {
        NumberValue::Binary64(n.to_bits())
    }
}

fn numbers(e: &Expression) -> Vec<NumberValue> {
    e.numbers().iter().map(|t| literal_value(t)).collect()
}

#[test]
fn literals_are_listed_left_to_right() {
    let e = parse("(8 + 42 / 7 * 3) / 2 - 5");
    assert_eq!(e.numbers(), vec!["8", "42", "7", "3", "2", "5"]);
}

#[test]
fn integer_expressions() {
    let e = parse("(8 + 42 / 7 * 3) / 2 - 5");
    assert!(matches!(e.evaluate(&numbers(&e)), Ok(Value::Int(8))));
    let e = parse("3.0 * 2");
    assert!(matches!(e.evaluate(&numbers(&e)), Ok(Value::Int(6))));
}

#[test]
fn evaluation_errors() {
    let e = parse("7 / (2 - 2)");
    assert!(matches!(e.evaluate(&numbers(&e)), Err(ValueError::DivisionByZero)));
    let e = parse("2.5 / 2");
    assert!(matches!(e.evaluate(&numbers(&e)), Err(ValueError::FunctionNotAvailable("div", _, _))));
}

#[test]
fn mixed_expressions_give_float_terms() {
    let e = parse("2 + 3.5");
    match e.evaluate(&numbers(&e)) {
        Ok(Value::Float(FloatTerm::Apply(ArithOp::Add, a, b))) => {
            assert_eq!(*a, FloatTerm::FromInt(2));
            assert_eq!(*b, FloatTerm::Binary64(3.5f64.to_bits()));
        }
        _ => panic!("expected a float"),
    }
}

#[test]
fn overflow_aborts_evaluation() {
    let e = parse("9223372036854775807 + 1");
    assert!(e.evaluate_checked(&numbers(&e)).is_none());
    let e = parse("1 + 1");
    assert!(e.evaluate_checked(&numbers(&e)).is_some());
}
