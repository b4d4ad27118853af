use arith_lexer::lexer::{tokenize, Lexer};
use arith_lexer::token::{Position, Token, TokenType};

fn kinds_and_texts(tokens: &[Token]) -> Vec<(TokenType, String)> {
    tokens.iter().map(|t| (t.token_type, t.value.clone())).collect()
}

#[test]
fn empty_input_yields_empty_stream() {
    let tokens = tokenize(String::new());
    assert!(tokens.is_empty());

    let mut lexer = Lexer::new(String::new());
    let tokens = lexer.lex();
    assert!(tokens.is_empty());
    assert!(lexer.diagnostics.is_empty());
}

#[test]
fn whitespace_is_invisible_in_the_stream() {
    let spaced = kinds_and_texts(&tokenize("1 + 2".to_string()));
    let dense = kinds_and_texts(&tokenize("1+2".to_string()));
    assert_eq!(spaced, dense);
    assert_eq!(
        dense,
        vec![
            (TokenType::Number, "1".to_string()),
            (TokenType::Addition, "+".to_string()),
            (TokenType::Number, "2".to_string()),
        ]
    );
}

#[test]
fn digit_run_is_a_single_number_token() {
    let tokens = tokenize("123".to_string());
    assert_eq!(tokens.len(), 1);
    assert_eq!(tokens[0].token_type, TokenType::Number);
    assert_eq!(tokens[0].value, "123");
}

#[test]
fn each_operator_is_one_single_character_token() {
    let tokens = tokenize("+-*/()".to_string());
    let expected = [
        TokenType::Addition,
        TokenType::Subtraction,
        TokenType::Multiplication,
        TokenType::Division,
        TokenType::LeftParen,
        TokenType::RightParen,
    ];
    assert_eq!(tokens.len(), expected.len());
    for (token, kind) in tokens.iter().zip(expected.iter()) {
        assert_eq!(token.token_type, *kind);
        assert_eq!(token.value.chars().count(), 1);
    }
}

#[test]
fn decimal_point_is_skipped_and_reported() {
    let mut lexer = Lexer::new("1.5".to_string());
    let tokens = lexer.lex();
    assert_eq!(
        kinds_and_texts(&tokens),
        vec![
            (TokenType::Number, "1".to_string()),
            (TokenType::Number, "5".to_string()),
        ]
    );
    assert_eq!(lexer.diagnostics, vec!['.']);
}

#[test]
fn newline_advances_line_and_resets_column() {
    let tokens = tokenize("1\n+2".to_string());
    assert_eq!(tokens.len(), 3);
    assert_eq!(tokens[0].token_type, TokenType::Number);
    assert_eq!(tokens[0].position, Position { line: 0, start: 0, end: 1 });
    assert_eq!(tokens[1].token_type, TokenType::Addition);
    assert_eq!(tokens[1].position, Position { line: 1, start: 0, end: 1 });
    assert_eq!(tokens[2].token_type, TokenType::Number);
    assert_eq!(tokens[2].position, Position { line: 1, start: 1, end: 2 });
}

#[test]
fn column_range_covers_exactly_the_matched_text() {
    let tokens = tokenize("12 + 3".to_string());
    assert_eq!(tokens.len(), 3);
    assert_eq!(tokens[0].position, Position { line: 0, start: 0, end: 2 });
    assert_eq!(tokens[1].position, Position { line: 0, start: 3, end: 4 });
    assert_eq!(tokens[2].position, Position { line: 0, start: 5, end: 6 });
}

#[test]
fn blanks_alone_produce_nothing() {
    let mut lexer = Lexer::new(" \t\r".to_string());
    let tokens = lexer.lex();
    assert!(tokens.is_empty());
    assert!(lexer.diagnostics.is_empty());
}

#[test]
fn tab_separates_numbers_and_counts_one_column() {
    let tokens = tokenize("1\t2".to_string());
    assert_eq!(tokens.len(), 2);
    assert_eq!(tokens[0].position, Position { line: 0, start: 0, end: 1 });
    assert_eq!(tokens[1].position, Position { line: 0, start: 2, end: 3 });
}

#[test]
fn full_expression_in_order() {
    let kinds: Vec<TokenType> = tokenize("(1+2)*34".to_string())
        .iter()
        .map(|t| t.token_type)
        .collect();
    assert_eq!(
        kinds,
        vec![
            TokenType::LeftParen,
            TokenType::Number,
            TokenType::Addition,
            TokenType::Number,
            TokenType::RightParen,
            TokenType::Multiplication,
            TokenType::Number,
        ]
    );
}

#[test]
fn non_ascii_characters_count_one_column_each() {
    let mut lexer = Lexer::new("\u{e9}+1".to_string());
    let tokens = lexer.lex();
    assert_eq!(lexer.diagnostics, vec!['\u{e9}']);
    assert_eq!(tokens.len(), 2);
    assert_eq!(tokens[0].token_type, TokenType::Addition);
    assert_eq!(tokens[0].position, Position { line: 0, start: 1, end: 2 });
    assert_eq!(tokens[1].token_type, TokenType::Number);
    assert_eq!(tokens[1].position, Position { line: 0, start: 2, end: 3 });
}

#[test]
fn only_ascii_digits_form_numbers() {
    // An Arabic-Indic digit is numeric in Unicode but not a decimal digit
    // of this grammar: it is skipped and reported.
    let mut lexer = Lexer::new("\u{661}".to_string());
    let tokens = lexer.lex();
    assert!(tokens.is_empty());
    assert_eq!(lexer.diagnostics, vec!['\u{661}']);
}

#[test]
fn unrecognized_characters_never_stop_the_scan() {
    let mut lexer = Lexer::new("a1#2?".to_string());
    let tokens = lexer.lex();
    assert_eq!(
        kinds_and_texts(&tokens),
        vec![
            (TokenType::Number, "1".to_string()),
            (TokenType::Number, "2".to_string()),
        ]
    );
    assert_eq!(lexer.diagnostics, vec!['a', '#', '?']);
}

#[test]
fn peek_returns_sentinel_at_end_of_input() {
    let lexer = Lexer::new(String::new());
    assert_eq!(lexer.peek(), '\0');

    let lexer = Lexer::new("7".to_string());
    assert_eq!(lexer.peek(), '7');
}

#[test]
fn character_class_checks() {
    let lexer = Lexer::new(String::new());
    assert!(lexer.check_is_whitespace(' '));
    assert!(lexer.check_is_whitespace('\t'));
    assert!(lexer.check_is_whitespace('\r'));
    assert!(!lexer.check_is_whitespace('\n'));
    assert!(!lexer.check_is_whitespace('x'));
    assert!(lexer.check_is_digit('0'));
    assert!(lexer.check_is_digit('9'));
    assert!(!lexer.check_is_digit('a'));
    assert!(!lexer.check_is_digit('\u{661}'));
}

#[test]
fn lexer_consumes_the_whole_input() {
    let mut lexer = Lexer::new("12*(3".to_string());
    let tokens = lexer.lex();
    assert_eq!(lexer.index, 5);
    assert_eq!(tokens.len(), 4);

    // Scanning again from the end adds nothing.
    let again = lexer.lex();
    assert_eq!(again.len(), 4);
}
