//! Front end of a small expression language: a scanner that turns source text
//! into positioned tokens, and a recursive-descent parser that turns tokens
//! into an expression tree.
use vstd::prelude::*;

pub mod lexer;
pub mod parser;

verus! {

/// The kind of a token, with the literal value it carries, if any.
#[derive(Debug, Clone, PartialEq)]
pub enum TokenType {
    Plus,
    Minus,
    Star,
    Slash,
    Bang,
    BangEqual,
    EqualEqual,
    Greater,
    GreaterEqual,
    Less,
    LessEqual,
    And,
    Or,
    String(String),
    Number(i32),
    True,
    False,
    LeftParen,
    RightParen,
    Eof,
}

/// The mathematical value of a `TokenType`: a string literal is a sequence of characters.
pub enum TokenKind {
    Plus,
    Minus,
    Star,
    Slash,
    Bang,
    BangEqual,
    EqualEqual,
    Greater,
    GreaterEqual,
    Less,
    LessEqual,
    And,
    Or,
    Str(Seq<char>),
    Number(i32),
    True,
    False,
    LeftParen,
    RightParen,
    Eof,
}

impl View for TokenType {
    type V = TokenKind;

    open spec fn view(&self) -> TokenKind {
        match self {
            TokenType::Plus => TokenKind::Plus,
            TokenType::Minus => TokenKind::Minus,
            TokenType::Star => TokenKind::Star,
            TokenType::Slash => TokenKind::Slash,
            TokenType::Bang => TokenKind::Bang,
            TokenType::BangEqual => TokenKind::BangEqual,
            TokenType::EqualEqual => TokenKind::EqualEqual,
            TokenType::Greater => TokenKind::Greater,
            TokenType::GreaterEqual => TokenKind::GreaterEqual,
            TokenType::Less => TokenKind::Less,
            TokenType::LessEqual => TokenKind::LessEqual,
            TokenType::And => TokenKind::And,
            TokenType::Or => TokenKind::Or,
            TokenType::String(s) => TokenKind::Str(s@),
            TokenType::Number(n) => TokenKind::Number(*n),
            TokenType::True => TokenKind::True,
            TokenType::False => TokenKind::False,
            TokenType::LeftParen => TokenKind::LeftParen,
            TokenType::RightParen => TokenKind::RightParen,
            TokenType::Eof => TokenKind::Eof,
        }
    }
}

/// One lexical unit: its kind, the exact source text it was built from, and
/// the 1-based line and column of its first character.
#[derive(Debug)]
pub struct Token {
    pub token_type: TokenType,
    pub lexeme: String,
    pub line: u32,
    pub column: u32,
}

/// The mathematical value of a `Token`.
pub struct TokenView {
    pub kind: TokenKind,
    pub lexeme: Seq<char>,
    pub line: int,
    pub column: int,
}

impl View for Token {
    type V = TokenView;

    open spec fn view(&self) -> TokenView {
        TokenView {
            kind: self.token_type@,
            lexeme: self.lexeme@,
            line: self.line as int,
            column: self.column as int,
        }
    }
}

/// The views of a sequence of tokens, element by element.
pub open spec fn tokens_view(ts: Seq<Token>) -> Seq<TokenView> {
    ts.map_values(|t: Token| t@)
}

#[derive(Debug, Clone, Copy, PartialEq, Eq, Structural)]
pub enum UnaryOp {
    Negate,
    Not,
}

#[derive(Debug, Clone, Copy, PartialEq, Eq, Structural)]
pub enum BinaryOp {
    // Arithmetic
    Add,
    Sub,
    Mul,
    Div,
    // Comparison
    Less,
    LessEqual,
    Greater,
    GreaterEqual,
    Equal,
    NotEqual,
    // Logical
    And,
    Or,
}

/// A node of the expression tree; each node owns its children.
#[allow(inconsistent_fields)]
#[derive(Debug)]
pub enum Expr {
    Number(i32),
    String(String),
    Bool(bool),
    Unary { operator: UnaryOp, operand: Box<Expr> },
    Binary { left: Box<Expr>, operator: BinaryOp, right: Box<Expr> },
    Grouping(Box<Expr>),
}

/// The mathematical value of an `Expr`.
pub enum ExprView {
    Number(i32),
    Str(Seq<char>),
    Bool(bool),
    Unary(UnaryOp, Box<ExprView>),
    Binary(Box<ExprView>, BinaryOp, Box<ExprView>),
    Grouping(Box<ExprView>),
}

impl View for Expr {
    type V = ExprView;

    open spec fn view(&self) -> ExprView
        decreases self,
    {
        match self {
            Expr::Number(n) => ExprView::Number(*n),
            Expr::String(s) => ExprView::Str(s@),
            Expr::Bool(b) => ExprView::Bool(*b),
            Expr::Unary { operator, operand } => ExprView::Unary(
                *operator,
                Box::new((**operand).view()),
            ),
            Expr::Binary { left, operator, right } => ExprView::Binary(
                Box::new((**left).view()),
                *operator,
                Box::new((**right).view()),
            ),
            Expr::Grouping(inner) => ExprView::Grouping(Box::new((**inner).view())),
        }
    }
}

/// A failure of the scanner or of the parser, with the 1-based line and
/// column where it was detected.
#[derive(Debug)]
pub struct SyntaxError {
    pub message: String,
    pub line: u32,
    pub column: u32,
}

/// The mathematical value of a `SyntaxError`.
pub struct ErrorView {
    pub message: Seq<char>,
    pub line: int,
    pub column: int,
}

impl View for SyntaxError {
    type V = ErrorView;

    open spec fn view(&self) -> ErrorView {
        ErrorView { message: self.message@, line: self.line as int, column: self.column as int }
    }
}

impl SyntaxError {
    pub(crate) fn new(message: String, line: u32, column: u32) -> (r: SyntaxError)
        ensures
            r@ == (ErrorView { message: message@, line: line as int, column: column as int }),
    {
        SyntaxError { message, line, column }
    }
}

} // verus!
