use minilang::parser::expression::{apply, NumberValue, Operator};
use minilang::types::{ArithOp, Equality, FloatTerm, Type, TypeValue, Value, ValueError};

fn as_int(v: Result<Value, ValueError>) -> i64 {
    match v {
        Ok(Value::Int(n)) => n,
        _ => panic!("not an integer"),
    }
}

fn not_available(v: Result<Value, ValueError>) -> (&'static str, TypeValue, TypeValue) {
    match v {
        Err(ValueError::FunctionNotAvailable(n, a, b)) => (n, a, b),
        _ => panic!("expected FunctionNotAvailable"),
    }
}

#[test]
fn integer_arithmetic_is_exact() {
    assert_eq!(as_int(Value::Int(7).add(&Value::Int(5))), 12);
    assert_eq!(as_int(Value::Int(7).sub(&Value::Int(5))), 2);
    assert_eq!(as_int(Value::Int(7).mul(&Value::Int(-5))), -35);
    assert_eq!(as_int(Value::Int(7).div(&Value::Int(2))), 3);
}

#[test]
fn integer_division_truncates_toward_zero() {
    assert_eq!(as_int(Value::Int(-7).div(&Value::Int(2))), -3);
    assert_eq!(as_int(Value::Int(7).div(&Value::Int(-2))), -3);
    assert_eq!(as_int(Value::Int(-7).div(&Value::Int(-2))), 3);
    assert_eq!(as_int(Value::Int(6).div(&Value::Int(-4))), -1);
}

#[test]
fn division_by_integer_zero_is_an_error() {
    assert!(matches!(Value::Int(1).div(&Value::Int(0)), Err(ValueError::DivisionByZero)));
}

#[test]
fn float_division_by_zero_is_no_error() {
    let r = Value::Float(FloatTerm::Binary64(1.0f64.to_bits()))
        .div(&Value::Float(FloatTerm::Binary64(0.0f64.to_bits())));
    match r {
        Ok(Value::Float(FloatTerm::Apply(ArithOp::Div, _, _))) => {}
        _ => panic!("expected a float division"),
    }
}

#[test]
fn mixed_division_is_not_available() {
    let (n, a, b) = not_available(Value::Int(1).div(&Value::Float(FloatTerm::Binary64(2.0f64.to_bits()))));
    assert_eq!(n, "div");
    assert_eq!(a, TypeValue::Int);
    assert_eq!(b, TypeValue::Float);
}

#[test]
fn arithmetic_on_booleans_is_not_available() {
    let (n, a, b) = not_available(Value::Bool(true).add(&Value::Int(1)));
    assert_eq!((n, a, b), ("add", TypeValue::Bool, TypeValue::Int));
    let (n, _, _) = not_available(Value::Bool(true).sub(&Value::Bool(false)));
    assert_eq!(n, "sub");
    let (n, _, _) = not_available(Value::Int(2).mul(&Value::TypeValue(Box::new(TypeValue::Type(Type::Int)))));
    assert_eq!(n, "mul");
}

#[test]
fn integer_and_float_give_a_float() {
    let r = Value::Int(2).add(&Value::Float(FloatTerm::Binary64(3.5f64.to_bits()))).unwrap();
    match r {
        Value::Float(FloatTerm::Apply(ArithOp::Add, a, b)) => {
            assert_eq!(*a, FloatTerm::FromInt(2));
            assert_eq!(*b, FloatTerm::Binary64(3.5f64.to_bits()));
        }
        _ => panic!("expected a float"),
    }
    let r = Value::Float(FloatTerm::Binary64(3.5f64.to_bits())).mul(&Value::Int(2)).unwrap();
    match r {
        Value::Float(FloatTerm::Apply(ArithOp::Mul, a, b)) => {
            assert_eq!(*a, FloatTerm::Binary64(3.5f64.to_bits()));
            assert_eq!(*b, FloatTerm::FromInt(2));
        }
        _ => panic!("expected a float"),
    }
}

#[test]
fn equals_decides_integers_and_booleans() {
    assert!(matches!(Value::Int(3).equals(&Value::Int(3)), Ok(Equality::Decided(true))));
    assert!(matches!(Value::Int(3).equals(&Value::Int(4)), Ok(Equality::Decided(false))));
    assert!(matches!(Value::Bool(true).equals(&Value::Bool(true)), Ok(Equality::Decided(true))));
    match Value::Int(3).equals(&Value::Bool(true)) {
        Err(ValueError::FunctionNotAvailable(n, a, b)) => {
            assert_eq!((n, a, b), ("equals", TypeValue::Int, TypeValue::Bool))
        }
        _ => panic!("expected an error"),
    }
}

#[test]
fn equals_is_symmetric() {
    let x = Value::Int(3);
    let y = Value::Float(FloatTerm::Binary64(3.0f64.to_bits()));
    match (x.equals(&y).unwrap(), y.equals(&x).unwrap()) {
        (Equality::Binary64(a, b), Equality::Binary64(c, d)) => {
            assert_eq!(a, d);
            assert_eq!(b, c);
        }
        _ => panic!("expected float comparisons"),
    }
    match (Value::Bool(true).equals(&Value::Int(1)), Value::Int(1).equals(&Value::Bool(true))) {
        (Err(ValueError::FunctionNotAvailable(n1, a1, b1)), Err(ValueError::FunctionNotAvailable(n2, a2, b2))) => {
            assert_eq!(n1, n2);
            assert_eq!(a1, b2);
            assert_eq!(b1, a2);
        }
        _ => panic!("expected errors"),
    }
}

#[test]
fn overflow_is_detected() {
    assert!(!Value::op_fits(ArithOp::Add, &Value::Int(i64::MAX), &Value::Int(1)));
    assert!(!Value::op_fits(ArithOp::Div, &Value::Int(i64::MIN), &Value::Int(-1)));
    assert!(Value::op_fits(ArithOp::Div, &Value::Int(i64::MIN), &Value::Int(0)));
    assert!(Value::op_fits(ArithOp::Mul, &Value::Int(3), &Value::Int(4)));
    assert!(apply(Operator::Plus, &Value::Int(i64::MAX), &Value::Int(1)).is_none());
    assert!(apply(Operator::Pipe, &Value::Int(1), &Value::Int(1)).is_none());
    assert_eq!(as_int(apply(Operator::Slash, &Value::Int(9), &Value::Int(3)).unwrap()), 3);
}

#[test]
fn types_of_values() {
    assert_eq!(Value::Int(1).get_type(), TypeValue::Int);
    assert_eq!(Value::Float(FloatTerm::FromInt(1)).get_type(), TypeValue::Float);
    assert_eq!(Value::Bool(false).get_type(), TypeValue::Bool);
    assert_eq!(Value::Function(4).get_type(), TypeValue::Function(4));
    assert_eq!(Value::TypeValue(Box::new(TypeValue::Class(2))).get_type(), TypeValue::Class(2));
    assert!(Value::Int(1).is_numerical());
    assert!(!Value::Bool(true).is_numerical());
    assert!(TypeValue::Float.is_numerical());
    assert!(!TypeValue::Type(Type::Float).is_numerical());
}

#[test]
fn copies_are_equal() {
    let t = FloatTerm::Apply(ArithOp::Sub, Box::new(FloatTerm::FromInt(1)), Box::new(FloatTerm::Binary64(7)));
    assert_eq!(t.duplicate(), t);
    assert!(matches!(Value::Int(5).duplicate(), Value::Int(5)));
    assert!(matches!(NumberValue::Int(5).to_value(), Value::Int(5)));
    assert!(matches!(NumberValue::Binary64(9).to_value(), Value::Float(FloatTerm::Binary64(9))));
}

#[test]
fn adding_and_multiplying_commute() {
    assert_eq!(as_int(Value::Int(7).add(&Value::Int(5))), as_int(Value::Int(5).add(&Value::Int(7))));
    assert_eq!(as_int(Value::Int(-3).mul(&Value::Int(4))), as_int(Value::Int(4).mul(&Value::Int(-3))));
    let half = 0.5f64.to_bits();
    match (
        Value::Int(2).add(&Value::Float(FloatTerm::Binary64(half))),
        Value::Float(FloatTerm::Binary64(half)).add(&Value::Int(2)),
    ) {
        (Ok(Value::Float(FloatTerm::Apply(ArithOp::Add, a, b))), Ok(Value::Float(FloatTerm::Apply(ArithOp::Add, c, d)))) => {
            assert_eq!(*a, *d);
            assert_eq!(*b, *c);
        }
        _ => panic!("expected float sums"),
    }
    let (n1, a1, b1) = not_available(Value::Bool(true).add(&Value::Int(1)));
    let (n2, a2, b2) = not_available(Value::Int(1).add(&Value::Bool(true)));
    assert_eq!((n1, a1), (n2, b2));
    assert_eq!(b1, a2);
}
