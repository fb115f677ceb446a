use minilang::compiler::context::{CTContext as Scopes, CTContextFrame, Definition};
use minilang::compiler::instruction::Instruction;
use minilang::compiler::Compiler;
use minilang::config::{Config, OptimizationLevel};
use minilang::parser::context::{CTContext, CTContextStack, CTVariable, NameMap};
use minilang::parser::expression::{Expression, NumberValue};
use minilang::parser::lexer::ParsedToken;
use minilang::parser::stack::Stack;
use minilang::parser::Lexer as ArithmeticLexer;
use minilang::types::{Value, ValueError};

#[test]
fn a_map_gives_back_what_was_inserted() {
    let mut m: NameMap<u32> = NameMap::new();
    assert_eq!(m.get("x"), None);
    assert_eq!(m.insert("x".to_owned(), 1), None);
    assert_eq!(m.insert("y".to_owned(), 2), None);
    assert_eq!(m.get("x"), Some(&1));
    assert_eq!(m.insert("x".to_owned(), 3), Some(1));
    assert_eq!(m.get("x"), Some(&3));
    assert_eq!(m.get("y"), Some(&2));
    assert_eq!(m.get("z"), None);
}

#[test]
fn variables_of_a_scope() {
    let mut ctx = CTContext::new();
    ctx.variables.insert("x".to_owned(), CTVariable::Value(Value::Int(6)));
    ctx.variables.insert("e".to_owned(), CTVariable::Expression(Expression::Number("1".to_owned())));
    assert!(ctx.variables.get("x").unwrap().is_constant());
    assert!(!ctx.variables.get("e").unwrap().is_constant());
}

#[test]
fn scopes_push_and_pop() {
    let mut stack = CTContextStack::new();
    assert_eq!(stack.len(), 0);
    stack.pop();
    assert_eq!(stack.len(), 0);
    let mut ctx = CTContext::new();
    ctx.variables.insert("a".to_owned(), CTVariable::Value(Value::Bool(true)));
    stack.push(CTContext::new());
    stack.push(ctx);
    assert_eq!(stack.len(), 2);
    assert!(stack.index(1).variables.get("a").is_some());
    assert!(stack.index(0).variables.get("a").is_none());
    stack.pop();
    assert_eq!(stack.len(), 1);
}

#[test]
fn identifiers_are_looked_up_from_the_outermost_scope() {
    let mut scopes = Scopes::new();
    assert!(scopes.lookup_identifier("v").is_none());
    scopes.push(CTContextFrame::new());
    scopes.push(CTContextFrame::new());
    scopes.register_variable("v".to_owned(), None);
    match scopes.lookup_identifier("v") {
        Some(Definition::VarDefinition(Some(_))) => {}
        _ => panic!("expected the variable"),
    }
    scopes.pop();
    assert!(scopes.lookup_identifier("v").is_none());
}

#[test]
fn a_byte_stack() {
    let mut s = Stack::new();
    s.push_byte(1);
    s.push_slice(&[2, 3, 4]);
    assert_eq!(s.len(), 4);
    assert_eq!(*s.index(2), 3);
    assert_eq!(s.pop(), 4);
    assert_eq!(s.pop(), 3);
    assert_eq!(s.len(), 2);
}

#[test]
fn compiling_assignments_of_numbers() {
    let tokens = vec![
        ParsedToken::SetVar("x".to_owned(), Expression::Number("4".to_owned())),
        ParsedToken::SetVar("y".to_owned(), Expression::Number("2.5".to_owned())),
    ];
    let mut compiler = Compiler::new(tokens);
    let config = Config { optimization: OptimizationLevel::Aggressive };
    compiler.compile(&config, &vec![NumberValue::Int(4), NumberValue::Binary64(2.5f64.to_bits())]);
}

#[test]
fn optimization_levels_are_ordered() {
    assert!(OptimizationLevel::Aggressive.at_least(&OptimizationLevel::Standard));
    assert!(OptimizationLevel::Standard.at_least(&OptimizationLevel::Standard));
    assert!(!OptimizationLevel::Disabled.at_least(&OptimizationLevel::Standard));
}

#[test]
fn long_data_records_its_length_modulo_256() {
    let data = vec![7u8; 300];
    let bytes = Instruction::Move { addr: 0x01020304, data: &data }.to_bytes();
    assert_eq!(bytes.len(), 306);
    assert_eq!(&bytes[..6], &[1, 4, 3, 2, 1, 44]);
    assert_eq!(Instruction::GrowStack { length: 0xdeadbeef }.to_bytes(), vec![0, 0xef, 0xbe, 0xad, 0xde]);
}

#[test]
fn strings_compare_by_their_characters() {
    assert!(minilang::parser::context::str_eq("abc", "abc"));
    assert!(!minilang::parser::context::str_eq("abc", "abd"));
    assert!(!minilang::parser::context::str_eq("ab", "abc"));
}

fn expression(input: &str) -> Expression {
    let mut lexer = ArithmeticLexer::new();
    lexer.tokenize(input.to_owned());
    lexer.parse_expression(0).unwrap()
}

#[test]
fn variables_are_reduced_to_their_value() {
    let mut var = CTVariable::Expression(expression("2 * 3 + 1"));
    let numbers = vec![NumberValue::Int(2), NumberValue::Int(3), NumberValue::Int(1)];
    assert!(var.evaluate(&numbers).is_ok());
    assert!(matches!(var, CTVariable::Value(Value::Int(7))));
    assert!(var.evaluate(&vec![]).is_ok());
    assert!(matches!(var, CTVariable::Value(Value::Int(7))));
    let mut var = CTVariable::Expression(expression("1 / 0"));
    let numbers = vec![NumberValue::Int(1), NumberValue::Int(0)];
    assert!(matches!(var.evaluate(&numbers), Err(ValueError::DivisionByZero)));
    assert!(!var.is_constant());
}
