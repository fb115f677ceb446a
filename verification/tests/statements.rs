use minilang::parser::lexer::Lexer;

#[test]
#[should_panic(expected = "EqualsExpected")]
fn test_equals_expected() {
    let mut lexer = Lexer::new();
    let input = "let x a;\n".to_owned();
    lexer.tokenize(input);
    lexer.parse().unwrap();
}

#[test]
#[should_panic(expected = "InvalidIdentifier")]
fn test_invalid_identifier_leading_digit() {
    let mut lexer = Lexer::new();
    let input = "let 2x = 2;\n".to_owned();
    lexer.tokenize(input);
    lexer.parse().unwrap();
}

#[test]
#[should_panic(expected = "InvalidIdentifier")]
fn test_invalid_identifier_non_alphabetic() {
    let mut lexer = Lexer::new();
    let input = "let ab} = 4;\n".to_owned();
    lexer.tokenize(input);
    lexer.parse().unwrap();
}

#[test]
#[should_panic(expected = "MissingSemicolon")]
fn test_missing_semicolon() {
    let mut lexer = Lexer::new();
    let input = "let x = 4;\nlet y = 3\nlet z = 2;\n".to_owned();
    lexer.tokenize(input);
    lexer.parse().unwrap();
}
