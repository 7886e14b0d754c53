use lang::lexer;
use lang::parser::Parser;
use lang::{BinaryOp, Expr, UnaryOp};

fn parse_expr(input: &str) -> Expr {
    let tokens = lexer::scan(input).unwrap();
    let mut parser = Parser::new(tokens);
    parser.parse().unwrap()
}

#[test]
fn test_number() {
    let expr = parse_expr("42");
    assert!(matches!(expr, Expr::Number(42)));
}

#[test]
fn test_addition() {
    let expr = parse_expr("1 + 2");
    match expr {
        Expr::Binary { operator: BinaryOp::Add, .. } => {}
        _ => panic!("Expected Binary Add"),
    }
}

#[test]
fn test_multiplication() {
    let expr = parse_expr("3 * 4");
    match expr {
        Expr::Binary { operator: BinaryOp::Mul, .. } => {}
        _ => panic!("Expected Binary Mul"),
    }
}

#[test]
fn test_precedence() {
    // 2 + 3 * 4 parses as 2 + (3 * 4)
    let expr = parse_expr("2 + 3 * 4");
    match expr {
        Expr::Binary { operator: BinaryOp::Add, right, .. } => match *right {
            Expr::Binary { operator: BinaryOp::Mul, .. } => {}
            _ => panic!("Expected Mul as right operand"),
        },
        _ => panic!("Expected Binary Add at top"),
    }
}

#[test]
fn test_grouping() {
    // (1 + 2) * 3 has the Add inside a Grouping
    let expr = parse_expr("(1 + 2) * 3");
    match expr {
        Expr::Binary { operator: BinaryOp::Mul, left, .. } => match *left {
            Expr::Grouping(inner) => match *inner {
                Expr::Binary { operator: BinaryOp::Add, .. } => {}
                _ => panic!("Expected Add inside grouping"),
            },
            _ => panic!("Expected Grouping as left operand"),
        },
        _ => panic!("Expected Binary Mul at top"),
    }
}

#[test]
fn test_unary_negation() {
    let expr = parse_expr("-5");
    match expr {
        Expr::Unary { operator: UnaryOp::Negate, operand } => {
            assert!(matches!(*operand, Expr::Number(5)));
        }
        _ => panic!("Expected Unary Negate"),
    }
}

#[test]
fn test_left_associativity() {
    // 1 + 2 + 3 parses as (1 + 2) + 3
    let expr = parse_expr("1 + 2 + 3");
    match expr {
        Expr::Binary { operator: BinaryOp::Add, left, right } => {
            match *left {
                Expr::Binary { operator: BinaryOp::Add, .. } => {}
                _ => panic!("Expected Add as left operand"),
            }
            assert!(matches!(*right, Expr::Number(3)));
        }
        _ => panic!("Expected Binary Add at top"),
    }
}
