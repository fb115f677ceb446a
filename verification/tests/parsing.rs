use minilang::parser::grammar::ParseError;
use minilang::parser::lexer::{Lexer as StatementLexer, ParsedToken};
use minilang::parser::Lexer as ArithmeticLexer;
use minilang::parser::expression::Expression;

fn arithmetic(input: &str) -> Option<Result<Expression, ParseError>> {
    let mut lexer = ArithmeticLexer::new();
    lexer.tokenize(input.to_owned());
    lexer.parse_expression_checked(0)
}

fn text(input: &str) -> String {
    arithmetic(input).unwrap().unwrap().to_string()
}

#[test]
fn operators_associate_to_the_left() {
    assert_eq!(text("1 - 2 - 3"), "(-, (-, 1, 2), 3)");
    assert_eq!(text("8 / 4 / 2"), "(/, (/, 8, 4), 2)");
    assert_eq!(text("8 / 4 * 2"), "(*, (/, 8, 4), 2)");
}

#[test]
fn products_bind_more_tightly() {
    assert_eq!(text("1 + 2 * 3 - 4 / 2"), "(-, (+, 1, (*, 2, 3)), (/, 4, 2))");
    assert_eq!(text("1 * 2 + 3 * 4"), "(+, (*, 1, 2), (*, 3, 4))");
}

#[test]
fn parentheses_group() {
    assert_eq!(text("(1 + 2) * 3"), "(*, (+, 1, 2), 3)");
    assert_eq!(text("((7))"), "7");
}

#[test]
fn parse_errors() {
    assert_eq!(arithmetic("(1 + 2").unwrap().err(), Some(ParseError::UnclosedParenthesis));
    assert_eq!(arithmetic("+ 1").unwrap().err(), Some(ParseError::InvalidToken));
    assert_eq!(arithmetic("1 2").unwrap().err(), Some(ParseError::InvalidToken));
    assert_eq!(arithmetic("").unwrap().err(), Some(ParseError::InvalidToken));
    assert_eq!(arithmetic("1 + (").unwrap().err(), Some(ParseError::InvalidToken));
}

#[test]
fn operators_without_binding_power_abort() {
    assert!(arithmetic("1 | 2").is_none());
    assert!(arithmetic("1 & 2").is_none());
    assert_eq!(arithmetic("! 2").unwrap().err(), Some(ParseError::InvalidToken));
}

#[test]
fn a_closing_parenthesis_ends_an_expression() {
    let mut lexer = ArithmeticLexer::new();
    lexer.tokenize("1 + 2) * 3".to_owned());
    assert_eq!(lexer.parse_expression(0).unwrap().to_string(), "(+, 1, 2)");
    assert_eq!(lexer.peek(), minilang::parser::expression::Token::RightParenth);
}

#[test]
fn statement_expressions_need_a_semicolon() {
    let mut lexer = StatementLexer::new();
    lexer.tokenize("1 + 2".to_owned());
    assert_eq!(lexer.parse_expression(0).err(), Some(ParseError::MissingSemicolon));
    let mut lexer = StatementLexer::new();
    lexer.tokenize("a * 2;".to_owned());
    assert_eq!(lexer.parse_expression(0).unwrap().to_string(), "(*, a, 2)");
}

fn statements(input: &str) -> Option<Result<Vec<ParsedToken>, ParseError>> {
    let mut lexer = StatementLexer::new();
    lexer.tokenize(input.to_owned());
    lexer.parse_checked()
}

#[test]
fn test_variable() {
    let parsed = statements("let x = 5 * 2;\nx = 4;\nlet y = 3 * 2;\n").unwrap().unwrap();
    assert_eq!(parsed.len(), 3);
    match &parsed[0] {
        ParsedToken::DefineVar(name, Some(e)) => {
            assert_eq!(name, "x");
            assert_eq!(e.to_string(), "(*, 5, 2)");
        }
        _ => panic!("expected a definition"),
    }
    match &parsed[1] {
        ParsedToken::SetVar(name, e) => {
            assert_eq!(name, "x");
            assert_eq!(e.to_string(), "4");
        }
        _ => panic!("expected an assignment"),
    }
    match &parsed[2] {
        ParsedToken::DefineVar(name, Some(e)) => {
            assert_eq!(name, "y");
            assert_eq!(e.to_string(), "(*, 3, 2)");
        }
        _ => panic!("expected a definition"),
    }
}

#[test]
fn statement_errors() {
    assert_eq!(statements("let x a;").unwrap().err(), Some(ParseError::EqualsExpected));
    assert_eq!(statements("let 2x = 2;").unwrap().err(), Some(ParseError::InvalidIdentifier));
    assert_eq!(statements("my_var = 2;").unwrap().err(), Some(ParseError::InvalidIdentifier));
    assert_eq!(statements("let x = 4;\nlet y = 3\nlet z = 2;").unwrap().err(), Some(ParseError::MissingSemicolon));
    assert_eq!(statements("").unwrap().unwrap().len(), 0);
}

#[test]
fn statements_that_abort() {
    assert!(statements("4;").is_none());
    assert!(statements("x = 4);").is_none());
    assert!(statements("let  x = 1;").is_none());
    assert!(statements("x = 1 | 2;").is_none());
}

#[test]
fn parsed_statements_take_every_token() {
    let mut lexer = StatementLexer::new();
    lexer.tokenize("let a = 1;\nb = (2 + a) * 3;\n".to_owned());
    let parsed = lexer.parse().unwrap();
    assert_eq!(parsed.len(), 2);
    assert_eq!(lexer.peek(), minilang::parser::expression::Token::Eof);
}

#[test]
fn identifiers_after_let_may_hold_any_letter() {
    let parsed = statements("let x\u{e9} = 1;").unwrap().unwrap();
    assert_eq!(parsed.len(), 1);
    match &parsed[0] {
        ParsedToken::DefineVar(name, Some(e)) => {
            assert_eq!(name, "x\u{e9}");
            assert_eq!(e.to_string(), "1");
        }
        _ => panic!("expected a definition"),
    }
    assert!(statements("let \u{e9}a = 1;").is_none());
    assert!(statements("\u{e9}1 = 2;").is_none());
    assert_eq!(statements("let \u{2192}a = 1;").unwrap().err(), Some(ParseError::InvalidIdentifier));
}
