use minilang::parser::expression::{Expression, NumberValue};
use minilang::parser::grammar::ParseError;
use minilang::types::{ArithOp, Equality, FloatTerm, Value, ValueError};

fn literal_value(text: &str) -> NumberValue {
    let n = text.parse::<f64>().unwrap();
    if n.fract() == 0.0 {
        NumberValue::Int(n as i64)
    } else {
        NumberValue::Binary64(n.to_bits())
    }
}

fn float_of(t: &FloatTerm) -> f64 {
    match t {
        FloatTerm::Binary64(b) => f64::from_bits(*b),
        FloatTerm::FromInt(n) => *n as f64,
        FloatTerm::Apply(op, a, b) => {
            let (x, y) = (float_of(a), float_of(b));
            match op {
                ArithOp::Add => x + y,
                ArithOp::Sub => x - y,
                ArithOp::Mul => x * y,
                ArithOp::Div => x / y,
            }
        }
    }
}

fn evaluate(expression: &Expression) -> Result<Value, ValueError> {
    let numbers: Vec<NumberValue> = expression.numbers().iter().map(|t| literal_value(t)).collect();
    expression.evaluate(&numbers)
}

fn equal(a: &Value, b: &Value) -> bool {
    match a.equals(b).unwrap() {
        Equality::Decided(r) => r,
        Equality::Binary64(x, y) => float_of(&x) == float_of(&y),
    }
}

fn arithmetic_helper(input: &str, expected: &Value, expected_string: &str) -> Result<(), ParseError> {
    let mut lexer = minilang::parser::Lexer::new();
    lexer.tokenize(input.to_owned());
    let expression = lexer.parse_expression(0)?;
    assert_eq!(expression.to_string(), expected_string);
    let value = evaluate(&expression).unwrap();
    assert!(equal(&value, expected));
    Ok(())
}

fn statement_helper(input: &str, expected: &Value, expected_string: &str) -> Result<(), ParseError> {
    let mut lexer = minilang::parser::lexer::Lexer::new();
    lexer.tokenize(input.to_owned());
    let expression = lexer.parse_expression(0)?;
    assert_eq!(expression.to_string(), expected_string);
    let value = evaluate(&expression).unwrap();
    assert!(equal(&value, expected));
    Ok(())
}

#[test]
fn parser_test_expression() -> Result<(), ParseError> {
    arithmetic_helper("2 + 4 * 3", &Value::Int(14), "(+, 2, (*, 4, 3))")
}

#[test]
fn parser_test_multidigit() -> Result<(), ParseError> {
    arithmetic_helper("4500 / 50", &Value::Int(90), "(/, 4500, 50)")
}

#[test]
fn parser_test_implicit_conversion() -> Result<(), ParseError> {
    arithmetic_helper("2.5 + 3", &Value::Float(FloatTerm::Binary64(5.5f64.to_bits())), "(+, 2.5, 3)")?;
    arithmetic_helper("2 + 3.5", &Value::Float(FloatTerm::Binary64(5.5f64.to_bits())), "(+, 2, 3.5)")
}

#[test]
fn parser_test_complex_expression() -> Result<(), ParseError> {
    arithmetic_helper(
        "(8 + 42 / 7 * 3) / 2 - 5",
        &Value::Int(8),
        "(-, (/, (+, 8, (*, (/, 42, 7), 3)), 2), 5)",
    )
}

#[test]
fn lexer_test_expression() -> Result<(), ParseError> {
    statement_helper("2 + 4 * 3;", &Value::Int(14), "(+, 2, (*, 4, 3))")
}

#[test]
fn lexer_test_multidigit() -> Result<(), ParseError> {
    statement_helper("4500 / 50;", &Value::Int(90), "(/, 4500, 50)")
}

#[test]
fn lexer_test_implicit_conversion() -> Result<(), ParseError> {
    statement_helper("2.5 + 3;", &Value::Float(FloatTerm::Binary64(5.5f64.to_bits())), "(+, 2.5, 3)")?;
    statement_helper("2 + 3.5;", &Value::Float(FloatTerm::Binary64(5.5f64.to_bits())), "(+, 2, 3.5)")
}

#[test]
fn lexer_test_complex_expression() -> Result<(), ParseError> {
    statement_helper(
        "(8 + 42 / 7 * 3) / 2 - 5;",
        &Value::Int(8),
        "(-, (/, (+, 8, (*, (/, 42, 7), 3)), 2), 5)",
    )
}
