use lang::lexer::scan;
use lang::TokenType;

fn token_types(input: &str) -> Vec<TokenType> {
    scan(input).unwrap().into_iter().map(|t| t.token_type).collect()
}

#[test]
fn test_numbers() {
    assert_eq!(token_types("42"), vec![TokenType::Number(42), TokenType::Eof]);
    assert_eq!(
        token_types("123 456"),
        vec![TokenType::Number(123), TokenType::Number(456), TokenType::Eof]
    );
}

#[test]
fn test_strings() {
    let tokens = scan("\"hello\"").unwrap();
    assert_eq!(tokens[0].token_type, TokenType::String("hello".to_string()));
}

#[test]
fn test_arithmetic_operators() {
    assert_eq!(
        token_types("+ - * /"),
        vec![TokenType::Plus, TokenType::Minus, TokenType::Star, TokenType::Slash, TokenType::Eof]
    );
}

#[test]
fn test_comparison_operators() {
    assert_eq!(
        token_types("> >= < <= !="),
        vec![
            TokenType::Greater,
            TokenType::GreaterEqual,
            TokenType::Less,
            TokenType::LessEqual,
            TokenType::BangEqual,
            TokenType::Eof
        ]
    );
}

#[test]
fn test_logical_operators() {
    assert_eq!(
        token_types("! and or"),
        vec![TokenType::Bang, TokenType::And, TokenType::Or, TokenType::Eof]
    );
}

#[test]
fn test_parentheses() {
    assert_eq!(
        token_types("(1 + 2)"),
        vec![
            TokenType::LeftParen,
            TokenType::Number(1),
            TokenType::Plus,
            TokenType::Number(2),
            TokenType::RightParen,
            TokenType::Eof
        ]
    );
}

#[test]
fn test_whitespace_ignored() {
    assert_eq!(
        token_types("1\n+\t2  *   3"),
        vec![
            TokenType::Number(1),
            TokenType::Plus,
            TokenType::Number(2),
            TokenType::Star,
            TokenType::Number(3),
            TokenType::Eof
        ]
    );
}

#[test]
fn test_line_column_tracking() {
    let tokens = scan("1\n2").unwrap();
    assert_eq!(tokens[0].line, 1);
    assert_eq!(tokens[0].column, 1);
    assert_eq!(tokens[1].line, 2);
    assert_eq!(tokens[1].column, 1);
}

#[test]
fn test_unexpected_character() {
    let result = scan("@");
    assert!(result.is_err());
    assert!(result.unwrap_err().message.contains("Unexpected Token"));
}

#[test]
fn test_complex_expression() {
    assert_eq!(
        token_types("(1 + 2) * 3 >= 9 and !false"),
        vec![
            TokenType::LeftParen,
            TokenType::Number(1),
            TokenType::Plus,
            TokenType::Number(2),
            TokenType::RightParen,
            TokenType::Star,
            TokenType::Number(3),
            TokenType::GreaterEqual,
            TokenType::Number(9),
            TokenType::And,
            TokenType::Bang,
            TokenType::Eof
        ]
    );
}

#[test]
fn test_multiline_string_position() {
    let tokens = scan("\"hello\nworld\"").unwrap();
    assert_eq!(tokens[0].token_type, TokenType::String("hello\nworld".to_string()));
    assert_eq!(tokens[0].line, 1);
    assert_eq!(tokens[0].column, 1);
}

#[test]
fn test_multiple_tokens_per_line() {
    let tokens = scan("1 + 2").unwrap();
    assert_eq!(tokens[0].column, 1);
    assert_eq!(tokens[1].column, 3);
    assert_eq!(tokens[2].column, 5);
}

#[test]
fn test_tab_column_tracking() {
    let tokens = scan("\t1").unwrap();
    assert_eq!(tokens[0].line, 1);
    assert_eq!(tokens[0].column, 5);
}

#[test]
fn test_error_position_multiline() {
    let result = scan("\"unterminated\nstring");
    assert!(result.is_err());
    let err = result.unwrap_err();
    assert_eq!(err.line, 1);
    assert_eq!(err.column, 1);
}
