use lang::lexer::scan;
use lang::parser::Parser;
use lang::{BinaryOp, Expr, SyntaxError, Token, TokenType, UnaryOp};

fn kinds(input: &str) -> Vec<TokenType> {
    scan(input).unwrap().into_iter().map(|t| t.token_type).collect()
}

fn parse_text(input: &str) -> Result<Expr, SyntaxError> {
    let mut parser = Parser::new(scan(input).unwrap());
    parser.parse()
}

fn is_number(e: &Expr, n: i32) -> bool {
    matches!(e, Expr::Number(m) if *m == n)
}

#[test]
fn blanks_between_tokens_keep_kinds() {
    assert_eq!(kinds(" ( 1\t+\n2 ) *\r\n3 "), kinds("(1+2)*3"));
    assert_eq!(kinds("  !=  and\n\tor "), kinds("!=and or"));
}

#[test]
fn blanks_only_give_end_of_input() {
    let tokens = scan(" \t\n").unwrap();
    assert_eq!(tokens.len(), 1);
    assert_eq!(tokens[0].token_type, TokenType::Eof);
    assert_eq!(tokens[0].line, 2);
    assert_eq!(tokens[0].column, 0);
}

#[test]
fn empty_source_gives_end_of_input() {
    let tokens = scan("").unwrap();
    assert_eq!(tokens.len(), 1);
    assert_eq!(tokens[0].token_type, TokenType::Eof);
    assert_eq!(tokens[0].line, 1);
    assert_eq!(tokens[0].column, 0);
    assert_eq!(tokens[0].lexeme, "");
}

#[test]
fn two_character_operators_win() {
    assert_eq!(kinds("!="), vec![TokenType::BangEqual, TokenType::Eof]);
    assert_eq!(kinds(">="), vec![TokenType::GreaterEqual, TokenType::Eof]);
    assert_eq!(kinds("<="), vec![TokenType::LessEqual, TokenType::Eof]);
    assert_eq!(kinds("! 1"), vec![TokenType::Bang, TokenType::Number(1), TokenType::Eof]);
    let tokens = scan("!=").unwrap();
    assert_eq!(tokens[0].lexeme, "!=");
}

#[test]
fn lone_equals_is_unexpected() {
    let err = scan("=").unwrap_err();
    assert_eq!(err.message, "Unexpected Token: =");
}

#[test]
fn tab_advances_column_by_four() {
    let tokens = scan("\t\t1").unwrap();
    assert_eq!(tokens[0].column, 9);
    let tokens = scan("1\t2").unwrap();
    assert_eq!(tokens[1].column, 6);
}

#[test]
fn newline_resets_column() {
    let tokens = scan("1\n  2\n3").unwrap();
    assert_eq!((tokens[0].line, tokens[0].column), (1, 1));
    assert_eq!((tokens[1].line, tokens[1].column), (2, 3));
    assert_eq!((tokens[2].line, tokens[2].column), (3, 1));
    assert_eq!((tokens[3].line, tokens[3].column), (3, 1));
}

#[test]
fn unterminated_string_is_invalid() {
    let err = scan("1 +\n  \"abc\ndef").unwrap_err();
    assert!(err.message.contains("Invalid String"));
    assert_eq!(err.line, 2);
    assert_eq!(err.column, 3);
}

#[test]
fn unexpected_character_message() {
    let err = scan("1 @").unwrap_err();
    assert_eq!(err.message, "Unexpected Token: @");
    assert_eq!((err.line, err.column), (1, 3));
}

#[test]
fn string_token_keeps_quotes_in_lexeme() {
    let tokens = scan("\"hi\"").unwrap();
    assert_eq!(tokens[0].token_type, TokenType::String("hi".to_string()));
    assert_eq!(tokens[0].lexeme, "\"hi\"");
    let tokens = scan("\"\"").unwrap();
    assert_eq!(tokens[0].token_type, TokenType::String(String::new()));
}

#[test]
fn largest_number_is_read() {
    assert_eq!(kinds("2147483647"), vec![TokenType::Number(2147483647), TokenType::Eof]);
    assert_eq!(kinds("007"), vec![TokenType::Number(7), TokenType::Eof]);
}

#[test]
fn number_out_of_range_fails() {
    let err = scan("1 + 2147483648").unwrap_err();
    assert_eq!(err.message, "Invalid Number");
    assert_eq!((err.line, err.column), (1, 5));
}

#[test]
fn other_words_are_dropped() {
    assert_eq!(kinds("foo 1 _x9 andor"), vec![TokenType::Number(1), TokenType::Eof]);
    assert_eq!(kinds("true false"), vec![TokenType::Eof]);
}

#[test]
fn number_runs_stop_at_letters() {
    assert_eq!(kinds("12ab"), vec![TokenType::Number(12), TokenType::Eof]);
}

#[test]
fn multiplication_binds_tighter() {
    let expr = parse_text("2 + 3 * 4").unwrap();
    match expr {
        Expr::Binary { left, operator: BinaryOp::Add, right } => {
            assert!(is_number(&left, 2));
            match *right {
                Expr::Binary { left, operator: BinaryOp::Mul, right } => {
                    assert!(is_number(&left, 3));
                    assert!(is_number(&right, 4));
                }
                _ => panic!("Expected Mul on the right"),
            }
        }
        _ => panic!("Expected Add at top"),
    }
}

#[test]
fn subtraction_and_division_fold_left() {
    let expr = parse_text("8 / 4 / 2 - 1").unwrap();
    match expr {
        Expr::Binary { left, operator: BinaryOp::Sub, right } => {
            assert!(is_number(&right, 1));
            match *left {
                Expr::Binary { left, operator: BinaryOp::Div, right } => {
                    assert!(is_number(&right, 2));
                    assert!(matches!(*left, Expr::Binary { operator: BinaryOp::Div, .. }));
                }
                _ => panic!("Expected Div on the left"),
            }
        }
        _ => panic!("Expected Sub at top"),
    }
}

#[test]
fn addition_nests_to_the_left() {
    let expr = parse_text("1 + 2 + 3").unwrap();
    match expr {
        Expr::Binary { left, operator: BinaryOp::Add, right } => {
            assert!(is_number(&right, 3));
            match *left {
                Expr::Binary { left, operator: BinaryOp::Add, right } => {
                    assert!(is_number(&left, 1));
                    assert!(is_number(&right, 2));
                }
                _ => panic!("Expected Add on the left"),
            }
        }
        _ => panic!("Expected Add at top"),
    }
}

#[test]
fn grouping_is_kept() {
    let expr = parse_text("(1 + 2) * 3").unwrap();
    match expr {
        Expr::Binary { left, operator: BinaryOp::Mul, right } => {
            assert!(is_number(&right, 3));
            match *left {
                Expr::Grouping(inner) => match *inner {
                    Expr::Binary { left, operator: BinaryOp::Add, right } => {
                        assert!(is_number(&left, 1));
                        assert!(is_number(&right, 2));
                    }
                    _ => panic!("Expected Add in the group"),
                },
                _ => panic!("Expected Grouping"),
            }
        }
        _ => panic!("Expected Mul at top"),
    }
}

#[test]
fn double_negation_nests() {
    let expr = parse_text("--5").unwrap();
    match expr {
        Expr::Unary { operator: UnaryOp::Negate, operand } => match *operand {
            Expr::Unary { operator: UnaryOp::Negate, operand } => assert!(is_number(&operand, 5)),
            _ => panic!("Expected inner Negate"),
        },
        _ => panic!("Expected Negate"),
    }
    let expr = parse_text("!-1").unwrap();
    match expr {
        Expr::Unary { operator: UnaryOp::Not, operand } => {
            assert!(matches!(*operand, Expr::Unary { operator: UnaryOp::Negate, .. }))
        }
        _ => panic!("Expected Not"),
    }
}

#[test]
fn string_literal_parses() {
    let expr = parse_text("\"hi\"").unwrap();
    match expr {
        Expr::String(s) => assert_eq!(s, "hi"),
        _ => panic!("Expected String"),
    }
}

#[test]
fn missing_close_paren_fails() {
    let err = parse_text("(1 + 2").unwrap_err();
    assert!(err.message.contains("Expected ')'"));
    assert_eq!((err.line, err.column), (1, 6));
}

#[test]
fn empty_input_fails_at_end() {
    let err = parse_text("").unwrap_err();
    assert!(err.message.contains("Unexpected end of input"));
    let eof = Token { token_type: TokenType::Eof, lexeme: String::new(), line: 3, column: 7 };
    let mut parser = Parser::new(vec![eof]);
    let err = parser.parse().unwrap_err();
    assert_eq!(err.message, "Unexpected end of input");
    assert_eq!((err.line, err.column), (3, 7));
}

#[test]
fn unexpected_token_names_its_kind() {
    let err = parse_text("1 + *").unwrap_err();
    assert_eq!(err.message, "Unexpected token: Star");
    assert_eq!((err.line, err.column), (1, 5));
    let err = parse_text(")").unwrap_err();
    assert_eq!(err.message, "Unexpected token: RightParen");
}

#[test]
fn comparison_stops_the_parse() {
    let expr = parse_text("1 > 2").unwrap();
    assert!(is_number(&expr, 1));
}

#[test]
fn token_type_names_and_shapes() {
    assert_eq!(TokenType::GreaterEqual.name(), "GreaterEqual");
    assert_eq!(TokenType::Number(3).shape(), TokenType::Number(9).shape());
    assert_ne!(TokenType::Plus.shape(), TokenType::Minus.shape());
}
