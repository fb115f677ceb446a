use minilang::parser::expression::{Operator, Token, TokenKind};
use minilang::parser::grammar::{chars_of, handle_char_no_token, split_words, tokenize_chars, Dialect};
use minilang::parser::lexer::Lexer as StatementLexer;
use minilang::parser::Lexer as ArithmeticLexer;

#[test]
fn words_are_split_at_every_whitespace() {
    let chars = chars_of("ab  c\td ");
    assert_eq!(split_words(&chars, 8), vec![(0, 2), (3, 3), (4, 5), (6, 7)]);
    assert_eq!(split_words(&chars_of(""), 0), vec![]);
    assert_eq!(split_words(&chars_of("xyz"), 3), vec![(0, 3)]);
    assert_eq!(split_words(&chars_of("xyz"), 5), vec![(0, 5)]);
    assert_eq!(split_words(&chars_of("a "), 3), vec![(0, 1), (2, 3)]);
}

#[test]
fn numbers_take_digits_dots_and_underscores() {
    let chars = chars_of("12.5_0+3 (.7)");
    let tokens = tokenize_chars(Dialect::Arithmetic, &chars).unwrap();
    assert_eq!(
        tokens,
        vec![
            Token::Number(0, 6),
            Token::Op(Operator::Plus),
            Token::Number(7, 8),
            Token::LeftParenth,
            Token::Number(10, 12),
            Token::RightParenth,
        ]
    );
}

#[test]
fn statements_have_identifiers_and_let() {
    let chars = chars_of("let x = y1_z*2;");
    let tokens = tokenize_chars(Dialect::Statements, &chars).unwrap();
    assert_eq!(
        tokens,
        vec![
            Token::Let,
            Token::Identifier(4, 5),
            Token::Equals,
            Token::Identifier(8, 12),
            Token::Op(Operator::Star),
            Token::Number(13, 14),
            Token::Semicolon,
        ]
    );
}

#[test]
fn the_word_after_let_is_taken_as_it_stands() {
    let chars = chars_of("let ab} = 4;");
    let tokens = tokenize_chars(Dialect::Statements, &chars).unwrap();
    assert_eq!(tokens[1], Token::Identifier(4, 7));
}

#[test]
fn inputs_that_are_refused() {
    assert!(!ArithmeticLexer::can_tokenize("2 + x"));
    assert!(!ArithmeticLexer::can_tokenize("1;"));
    assert!(ArithmeticLexer::can_tokenize("1 | 2 & !3"));
    assert!(!StatementLexer::can_tokenize("x = a}"));
    assert!(!StatementLexer::can_tokenize("let"));
    assert!(StatementLexer::can_tokenize("let ab} = 4;"));
    assert!(!StatementLexer::can_tokenize("x = \u{e9};"));
    assert!(tokenize_chars(Dialect::Arithmetic, &chars_of("#")).is_none());
}

#[test]
fn starting_a_token() {
    let mut kind = TokenKind::Nothing;
    let mut start = 0usize;
    assert_eq!(handle_char_no_token(Dialect::Arithmetic, '+', &mut kind, 3, &mut start), Some(Token::Op(Operator::Plus)));
    assert_eq!((kind, start), (TokenKind::Nothing, 0));
    assert_eq!(handle_char_no_token(Dialect::Arithmetic, '4', &mut kind, 3, &mut start), None);
    assert_eq!((kind, start), (TokenKind::Number, 3));
    let mut kind = TokenKind::Nothing;
    assert_eq!(handle_char_no_token(Dialect::Statements, 'q', &mut kind, 5, &mut start), None);
    assert_eq!((kind, start), (TokenKind::Identifier, 5));
    let mut kind = TokenKind::Nothing;
    assert_eq!(handle_char_no_token(Dialect::Arithmetic, 'q', &mut kind, 6, &mut start), None);
    assert_eq!(kind, TokenKind::Nothing);
    assert_eq!(handle_char_no_token(Dialect::Statements, ';', &mut kind, 6, &mut start), Some(Token::Semicolon));
    assert_eq!(handle_char_no_token(Dialect::Arithmetic, ';', &mut kind, 6, &mut start), None);
}

#[test]
fn next_and_peek() {
    let mut lexer = ArithmeticLexer::new();
    assert_eq!(lexer.peek(), Token::Eof);
    lexer.tokenize("1 +".to_owned());
    assert_eq!(lexer.peek(), Token::Number(0, 1));
    assert_eq!(lexer.next(), Token::Number(0, 1));
    assert_eq!(lexer.next(), Token::Op(Operator::Plus));
    assert_eq!(lexer.next(), Token::Eof);
    assert_eq!(lexer.next(), Token::Eof);
}

#[test]
fn token_spans_lie_within_the_input() {
    let input = "  (1+22) *  3.5 ";
    let tokens = tokenize_chars(Dialect::Arithmetic, &chars_of(input)).unwrap();
    for t in tokens {
        if let Token::Number(a, b) = t {
            assert!(a < b && b <= input.len());
        }
    }
}

#[test]
fn identifiers_are_checked() {
    assert!(StatementLexer::validate_identifier("abc").is_ok());
    assert!(StatementLexer::validate_identifier("_a1").is_ok());
    assert!(StatementLexer::validate_identifier("x").is_ok());
    assert!(StatementLexer::validate_identifier("a_b").is_err());
    assert!(StatementLexer::validate_identifier("1a").is_err());
    assert!(StatementLexer::validate_identifier("ab}").is_err());
}

#[test]
fn letters_and_digits_beyond_ascii_start_tokens() {
    let mut kind = TokenKind::Nothing;
    let mut start = 0usize;
    assert_eq!(handle_char_no_token(Dialect::Statements, '\u{e9}', &mut kind, 7, &mut start), None);
    assert_eq!((kind, start), (TokenKind::Identifier, 7));
    let mut kind = TokenKind::Nothing;
    assert_eq!(handle_char_no_token(Dialect::Statements, '\u{663}', &mut kind, 2, &mut start), None);
    assert_eq!((kind, start), (TokenKind::Number, 2));
    let mut kind = TokenKind::Nothing;
    assert_eq!(handle_char_no_token(Dialect::Arithmetic, '\u{b2}', &mut kind, 4, &mut start), None);
    assert_eq!((kind, start), (TokenKind::Number, 4));
    let mut kind = TokenKind::Nothing;
    assert_eq!(handle_char_no_token(Dialect::Statements, '\u{2192}', &mut kind, 9, &mut start), None);
    assert_eq!((kind, start), (TokenKind::Nothing, 4));
}

#[test]
fn identifiers_beyond_ascii_are_checked() {
    assert!(StatementLexer::validate_identifier("x\u{e9}").is_ok());
    assert!(StatementLexer::validate_identifier("_\u{3b1}\u{663}").is_ok());
    assert!(StatementLexer::validate_identifier("\u{2192}a").is_err());
    assert!(StatementLexer::validate_identifier("x\u{2192}").is_err());
}

#[test]
fn multibyte_characters_where_the_lexer_counts_bytes() {
    assert!(StatementLexer::can_tokenize("let x\u{e9} = 1;"));
    assert!(!StatementLexer::can_tokenize("x\u{e9} = 1;"));
    assert!(!StatementLexer::can_tokenize("let x =\u{a0}1;"));
    assert!(!ArithmeticLexer::can_tokenize("\u{b2}"));
    assert!(!ArithmeticLexer::can_tokenize("1\u{2003}+ 2"));
    assert!(tokenize_chars(Dialect::Statements, &chars_of("let \u{e9}a = 1;")).is_some());
}

#[test]
fn cuts_count_one_byte_per_character_from_the_word() {
    let tokens = tokenize_chars(Dialect::Statements, &chars_of("\u{e9}1 = 2;")).unwrap();
    assert_eq!(
        tokens,
        vec![Token::Identifier(0, 1), Token::Equals, Token::Number(5, 6), Token::Semicolon]
    );
    let tokens = tokenize_chars(Dialect::Arithmetic, &chars_of("\u{b2}1+3")).unwrap();
    assert_eq!(tokens, vec![Token::Number(0, 1), Token::Op(Operator::Plus), Token::Number(2, 3)]);
    assert!(ArithmeticLexer::can_tokenize("\u{b2}1+3"));
    assert!(!ArithmeticLexer::can_tokenize("\u{b2}1 "));
}

#[test]
fn a_refused_input_leaves_the_lexer_as_it_was() {
    let mut lexer = ArithmeticLexer::new();
    assert!(lexer.try_tokenize("1 + 2".to_owned()));
    assert_eq!(lexer.next(), Token::Number(0, 1));
    assert!(!lexer.try_tokenize("\u{b2}".to_owned()));
    assert_eq!(lexer.peek(), Token::Op(Operator::Plus));
    assert!(lexer.try_tokenize("7".to_owned()));
    assert_eq!(lexer.next(), Token::Number(0, 1));
    assert_eq!(lexer.next(), Token::Eof);
    let mut lexer = StatementLexer::new();
    assert!(!lexer.try_tokenize("let".to_owned()));
    assert_eq!(lexer.peek(), Token::Eof);
    assert!(lexer.try_tokenize("let x = 1;".to_owned()));
    assert_eq!(lexer.next(), Token::Let);
}
