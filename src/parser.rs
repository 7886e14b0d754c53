//! The parser: tokens to an expression tree, by recursive descent.
//!
//! ```text
//! expression := term
//! term       := factor ( ( '+' | '-' ) factor )*
//! factor     := unary  ( ( '*' | '/' ) unary  )*
//! unary      := ( '-' | '!' ) unary | primary
//! primary    := NUMBER | STRING | 'true' | 'false' | '(' expression ')'
//! ```
use vstd::prelude::*;
use vstd::string::*;

use crate::{
    tokens_view, BinaryOp, ErrorView, Expr, ExprView, SyntaxError, Token, TokenKind, TokenType,
    TokenView, UnaryOp,
};

verus! {

/// What parsing from an index yields: an expression and the index after it, or an error.
pub type Parsed = Result<(ExprView, int), ErrorView>;

/// A number for each variant of `TokenKind`, ignoring any literal value.
pub open spec fn kind_shape(k: TokenKind) -> int {
    match k {
        TokenKind::Plus => 0,
        TokenKind::Minus => 1,
        TokenKind::Star => 2,
        TokenKind::Slash => 3,
        TokenKind::Bang => 4,
        TokenKind::BangEqual => 5,
        TokenKind::EqualEqual => 6,
        TokenKind::Greater => 7,
        TokenKind::GreaterEqual => 8,
        TokenKind::Less => 9,
        TokenKind::LessEqual => 10,
        TokenKind::And => 11,
        TokenKind::Or => 12,
        TokenKind::Str(_) => 13,
        TokenKind::Number(_) => 14,
        TokenKind::True => 15,
        TokenKind::False => 16,
        TokenKind::LeftParen => 17,
        TokenKind::RightParen => 18,
        TokenKind::Eof => 19,
    }
}

/// The name of a variant of `TokenKind`. The parser reports only kinds
/// without a literal value, so no value is shown.
pub open spec fn kind_name(k: TokenKind) -> Seq<char> {
    match k {
        TokenKind::Plus => "Plus"@,
        TokenKind::Minus => "Minus"@,
        TokenKind::Star => "Star"@,
        TokenKind::Slash => "Slash"@,
        TokenKind::Bang => "Bang"@,
        TokenKind::BangEqual => "BangEqual"@,
        TokenKind::EqualEqual => "EqualEqual"@,
        TokenKind::Greater => "Greater"@,
        TokenKind::GreaterEqual => "GreaterEqual"@,
        TokenKind::Less => "Less"@,
        TokenKind::LessEqual => "LessEqual"@,
        TokenKind::And => "And"@,
        TokenKind::Or => "Or"@,
        TokenKind::Str(_) => "String"@,
        TokenKind::Number(_) => "Number"@,
        TokenKind::True => "True"@,
        TokenKind::False => "False"@,
        TokenKind::LeftParen => "LeftParen"@,
        TokenKind::RightParen => "RightParen"@,
        TokenKind::Eof => "Eof"@,
    }
}

impl TokenType {
    /// The variant of this token type as a number, ignoring any literal value.
    pub fn shape(&self) -> (r: u8)
        ensures
            r == kind_shape(self@),
    {
        match self {
            TokenType::Plus => 0,
            TokenType::Minus => 1,
            TokenType::Star => 2,
            TokenType::Slash => 3,
            TokenType::Bang => 4,
            TokenType::BangEqual => 5,
            TokenType::EqualEqual => 6,
            TokenType::Greater => 7,
            TokenType::GreaterEqual => 8,
            TokenType::Less => 9,
            TokenType::LessEqual => 10,
            TokenType::And => 11,
            TokenType::Or => 12,
            TokenType::String(_) => 13,
            TokenType::Number(_) => 14,
            TokenType::True => 15,
            TokenType::False => 16,
            TokenType::LeftParen => 17,
            TokenType::RightParen => 18,
            TokenType::Eof => 19,
        }
    }

    /// The name of the variant of this token type.
    pub fn name(&self) -> (r: &'static str)
        ensures
            r@ == kind_name(self@),
    {
        match self {
            TokenType::Plus => "Plus",
            TokenType::Minus => "Minus",
            TokenType::Star => "Star",
            TokenType::Slash => "Slash",
            TokenType::Bang => "Bang",
            TokenType::BangEqual => "BangEqual",
            TokenType::EqualEqual => "EqualEqual",
            TokenType::Greater => "Greater",
            TokenType::GreaterEqual => "GreaterEqual",
            TokenType::Less => "Less",
            TokenType::LessEqual => "LessEqual",
            TokenType::And => "And",
            TokenType::Or => "Or",
            TokenType::String(_) => "String",
            TokenType::Number(_) => "Number",
            TokenType::True => "True",
            TokenType::False => "False",
            TokenType::LeftParen => "LeftParen",
            TokenType::RightParen => "RightParen",
            TokenType::Eof => "Eof",
        }
    }
}

/// A sequence of tokens that the parser accepts: non-empty, ending with end of input.
pub open spec fn valid_tokens(ts: Seq<TokenView>) -> bool {
    ts.len() > 0 && ts.last().kind is Eof
}

/// The error with message `m`, placed at token `i`.
pub open spec fn token_error(ts: Seq<TokenView>, i: int, m: Seq<char>) -> ErrorView {
    ErrorView { message: m, line: ts[i].line, column: ts[i].column }
}

pub open spec fn additive_op(k: TokenKind) -> Option<BinaryOp> {
    match k {
        TokenKind::Plus => Some(BinaryOp::Add),
        TokenKind::Minus => Some(BinaryOp::Sub),
        _ => None,
    }
}

pub open spec fn multiplicative_op(k: TokenKind) -> Option<BinaryOp> {
    match k {
        TokenKind::Star => Some(BinaryOp::Mul),
        TokenKind::Slash => Some(BinaryOp::Div),
        _ => None,
    }
}

pub open spec fn prefix_op(k: TokenKind) -> Option<UnaryOp> {
    match k {
        TokenKind::Minus => Some(UnaryOp::Negate),
        TokenKind::Bang => Some(UnaryOp::Not),
        _ => None,
    }
}

pub open spec fn binary(left: ExprView, op: BinaryOp, right: ExprView) -> ExprView {
    ExprView::Binary(Box::new(left), op, Box::new(right))
}

/// `expression := term`
pub open spec fn parse_expression(ts: Seq<TokenView>, i: int) -> Parsed
    decreases ts.len() - i, 5nat,
{
    parse_term(ts, i)
}

/// `term := factor ( ( '+' | '-' ) factor )*`
///
/// An operand always takes at least one token, so the tests `i < j <= ts.len()`
/// here and below always pass; they make the descent visibly well-founded.
pub open spec fn parse_term(ts: Seq<TokenView>, i: int) -> Parsed
    decreases ts.len() - i, 4nat,
{
    match parse_factor(ts, i) {
        Ok((left, j)) => if i < j <= ts.len() {
            term_rest(ts, j, left)
        } else {
            Ok((left, j))
        },
        Err(e) => Err(e),
    }
}

/// The operators and operands of a term from index `j`, folded to the left onto `left`.
pub open spec fn term_rest(ts: Seq<TokenView>, j: int, left: ExprView) -> Parsed
    decreases ts.len() - j, 3nat,
{
    if 0 <= j < ts.len() {
        match additive_op(ts[j].kind) {
            Some(op) => match parse_factor(ts, j + 1) {
                Ok((right, k)) => if j < k <= ts.len() {
                    term_rest(ts, k, binary(left, op, right))
                } else {
                    Ok((binary(left, op, right), k))
                },
                Err(e) => Err(e),
            },
            None => Ok((left, j)),
        }
    } else {
        Ok((left, j))
    }
}

/// `factor := unary ( ( '*' | '/' ) unary )*`
pub open spec fn parse_factor(ts: Seq<TokenView>, i: int) -> Parsed
    decreases ts.len() - i, 2nat,
{
    match parse_unary(ts, i) {
        Ok((left, j)) => if i < j <= ts.len() {
            factor_rest(ts, j, left)
        } else {
            Ok((left, j))
        },
        Err(e) => Err(e),
    }
}

/// The operators and operands of a factor from index `j`, folded to the left onto `left`.
pub open spec fn factor_rest(ts: Seq<TokenView>, j: int, left: ExprView) -> Parsed
    decreases ts.len() - j, 1nat,
{
    if 0 <= j < ts.len() {
        match multiplicative_op(ts[j].kind) {
            Some(op) => match parse_unary(ts, j + 1) {
                Ok((right, k)) => if j < k <= ts.len() {
                    factor_rest(ts, k, binary(left, op, right))
                } else {
                    Ok((binary(left, op, right), k))
                },
                Err(e) => Err(e),
            },
            None => Ok((left, j)),
        }
    } else {
        Ok((left, j))
    }
}

/// `unary := ( '-' | '!' ) unary | primary`
pub open spec fn parse_unary(ts: Seq<TokenView>, i: int) -> Parsed
    decreases ts.len() - i, 1nat,
{
    if 0 <= i < ts.len() {
        match prefix_op(ts[i].kind) {
            Some(op) => match parse_unary(ts, i + 1) {
                Ok((operand, j)) => Ok((ExprView::Unary(op, Box::new(operand)), j)),
                Err(e) => Err(e),
            },
            None => parse_primary(ts, i),
        }
    } else {
        parse_primary(ts, i)
    }
}

/// `primary := NUMBER | STRING | 'true' | 'false' | '(' expression ')'`
pub open spec fn parse_primary(ts: Seq<TokenView>, i: int) -> Parsed
    decreases ts.len() - i, 0nat,
{
    if !(0 <= i < ts.len()) || ts[i].kind is Eof {
        Err(token_error(ts, i, "Unexpected end of input"@))
    } else {
        match ts[i].kind {
            TokenKind::Number(n) => Ok((ExprView::Number(n), i + 1)),
            TokenKind::Str(s) => Ok((ExprView::Str(s), i + 1)),
            TokenKind::True => Ok((ExprView::Bool(true), i + 1)),
            TokenKind::False => Ok((ExprView::Bool(false), i + 1)),
            TokenKind::LeftParen => match parse_expression(ts, i + 1) {
                Ok((inner, j)) => if 0 <= j < ts.len() && ts[j].kind is RightParen {
                    Ok((ExprView::Grouping(Box::new(inner)), j + 1))
                } else {
                    Err(token_error(ts, j, "Expected ')' after expression"@))
                },
                Err(e) => Err(e),
            },
            k => Err(token_error(ts, i, "Unexpected token: "@ + kind_name(k))),
        }
    }
}

/// A cursor over a sequence of tokens.
pub struct Parser {
    tokens: Vec<Token>,
    current: usize,
}

impl Parser {
    /// The views of the tokens being parsed.
    pub closed spec fn token_views(&self) -> Seq<TokenView> {
        tokens_view(self.tokens@)
    }

    /// The index of the next token to read.
    pub closed spec fn position(&self) -> int {
        self.current as int
    }

    pub open spec fn well_formed(&self) -> bool {
        valid_tokens(self.token_views()) && 0 <= self.position() < self.token_views().len()
    }

    /// `r` is what `p` says: the same expression with the cursor after it, or the same error.
    pub open spec fn yields(&self, r: Result<Expr, SyntaxError>, p: Parsed) -> bool {
        match p {
            Ok((e, j)) => r is Ok && r->Ok_0@ == e && self.position() == j,
            Err(x) => r is Err && r->Err_0@ == x,
        }
    }

    proof fn lemma_view_index(&self, i: int)
        requires
            0 <= i < self.tokens.len(),
        ensures
            self.token_views()[i] == self.tokens@[i]@,
            self.token_views().len() == self.tokens.len(),
    {
    }

    pub fn new(tokens: Vec<Token>) -> (r: Self)
        ensures
            r.token_views() == tokens_view(tokens@),
            r.position() == 0,
    {
        Parser { tokens, current: 0 }
    }

    /// Parses one expression from the cursor on; tokens after it are left unread.
    pub fn parse(&mut self) -> (r: Result<Expr, SyntaxError>)
        requires
            old(self).well_formed(),
        ensures
            final(self).well_formed(),
            final(self).token_views() == old(self).token_views(),
            final(self).yields(r, parse_expression(old(self).token_views(), old(self).position())),
    {
        self.expression()
    }

    fn expression(&mut self) -> (r: Result<Expr, SyntaxError>)
        requires
            old(self).well_formed(),
        ensures
            final(self).well_formed(),
            final(self).tokens == old(self).tokens,
            final(self).yields(r, parse_expression(old(self).token_views(), old(self).position())),
            r is Ok ==> final(self).current > old(self).current,
        decreases old(self).tokens.len() - old(self).current, 5nat,
    {
        self.term()
    }

    fn term(&mut self) -> (r: Result<Expr, SyntaxError>)
        requires
            old(self).well_formed(),
        ensures
            final(self).well_formed(),
            final(self).tokens == old(self).tokens,
            final(self).yields(r, parse_term(old(self).token_views(), old(self).position())),
            r is Ok ==> final(self).current > old(self).current,
        decreases old(self).tokens.len() - old(self).current, 4nat,
    {
        let ghost ts = self.token_views();
        let ghost i = self.position();
        let mut expr = match self.factor() {
            Ok(e) => e,
            Err(e) => return Err(e),
        };
        loop
            invariant
                self.well_formed(),
                self.tokens == old(self).tokens,
                self.token_views() == ts,
                i == old(self).current,
                ts == old(self).token_views(),
                i < self.current,
                parse_term(ts, i) == term_rest(ts, self.position(), expr@),
            ensures
                self.well_formed(),
                self.tokens == old(self).tokens,
                i < self.current,
                parse_term(ts, i) == Parsed::Ok((expr@, self.position())),
            decreases self.tokens.len() - self.current,
        {
            let ghost j = self.position();
            let operators = [TokenType::Plus, TokenType::Minus];
            proof {
                self.lemma_view_index(j);
                assert(operators@[0]@ is Plus && operators@[1]@ is Minus && operators@.len() == 2);
            }
            if !self.match_tokens(&operators) {
                assert(!self.check_spec(0 + kind_shape(TokenKind::Plus)));
                assert(!self.check_spec(0 + kind_shape(TokenKind::Minus)));
                break;
            }
            let operator = match self.previous().token_type {
                TokenType::Plus => BinaryOp::Add,
                _ => BinaryOp::Sub,
            };
            let right = match self.factor() {
                Ok(e) => e,
                Err(e) => return Err(e),
            };
            expr = Expr::Binary { left: Box::new(expr), operator, right: Box::new(right) };
        }
        Ok(expr)
    }

    fn factor(&mut self) -> (r: Result<Expr, SyntaxError>)
        requires
            old(self).well_formed(),
        ensures
            final(self).well_formed(),
            final(self).tokens == old(self).tokens,
            final(self).yields(r, parse_factor(old(self).token_views(), old(self).position())),
            r is Ok ==> final(self).current > old(self).current,
        decreases old(self).tokens.len() - old(self).current, 2nat,
    {
        let ghost ts = self.token_views();
        let ghost i = self.position();
        let mut expr = match self.unary() {
            Ok(e) => e,
            Err(e) => return Err(e),
        };
        loop
            invariant
                self.well_formed(),
                self.tokens == old(self).tokens,
                self.token_views() == ts,
                i == old(self).current,
                ts == old(self).token_views(),
                i < self.current,
                parse_factor(ts, i) == factor_rest(ts, self.position(), expr@),
            ensures
                self.well_formed(),
                self.tokens == old(self).tokens,
                i < self.current,
                parse_factor(ts, i) == Parsed::Ok((expr@, self.position())),
            decreases self.tokens.len() - self.current,
        {
            let ghost j = self.position();
            let operators = [TokenType::Star, TokenType::Slash];
            proof {
                self.lemma_view_index(j);
                assert(operators@[0]@ is Star && operators@[1]@ is Slash && operators@.len() == 2);
            }
            if !self.match_tokens(&operators) {
                assert(!self.check_spec(0 + kind_shape(TokenKind::Star)));
                assert(!self.check_spec(0 + kind_shape(TokenKind::Slash)));
                break;
            }
            let operator = match self.previous().token_type {
                TokenType::Star => BinaryOp::Mul,
                _ => BinaryOp::Div,
            };
            let right = match self.unary() {
                Ok(e) => e,
                Err(e) => return Err(e),
            };
            expr = Expr::Binary { left: Box::new(expr), operator, right: Box::new(right) };
        }
        Ok(expr)
    }

    fn unary(&mut self) -> (r: Result<Expr, SyntaxError>)
        requires
            old(self).well_formed(),
        ensures
            final(self).well_formed(),
            final(self).tokens == old(self).tokens,
            final(self).yields(r, parse_unary(old(self).token_views(), old(self).position())),
            r is Ok ==> final(self).current > old(self).current,
        decreases old(self).tokens.len() - old(self).current, 1nat,
    {
        let ghost i = self.position();
        proof {
            self.lemma_view_index(i);
        }
        if self.match_tokens(&[TokenType::Minus, TokenType::Bang]) {
            let operator = match self.previous().token_type {
                TokenType::Minus => UnaryOp::Negate,
                _ => UnaryOp::Not,
            };
            let operand = match self.unary() {
                Ok(e) => e,
                Err(e) => return Err(e),
            };
            return Ok(Expr::Unary { operator, operand: Box::new(operand) });
        }
        self.primary()
    }

    fn primary(&mut self) -> (r: Result<Expr, SyntaxError>)
        requires
            old(self).well_formed(),
        ensures
            final(self).well_formed(),
            final(self).tokens == old(self).tokens,
            final(self).yields(r, parse_primary(old(self).token_views(), old(self).position())),
            r is Ok ==> final(self).current > old(self).current,
        decreases old(self).tokens.len() - old(self).current, 0nat,
    {
        let ghost i = self.position();
        proof {
            self.lemma_view_index(i);
        }
        if self.is_at_end() {
            return Err(self.error("Unexpected end of input"));
        }
        let token = &self.tokens[self.current];
        match &token.token_type {
            TokenType::Number(n) => {
                let val = *n;
                self.advance();
                Ok(Expr::Number(val))
            },
            TokenType::String(s) => {
                let val = s.clone();
                self.advance();
                Ok(Expr::String(val))
            },
            TokenType::True => {
                self.advance();
                Ok(Expr::Bool(true))
            },
            TokenType::False => {
                self.advance();
                Ok(Expr::Bool(false))
            },
            TokenType::LeftParen => {
                self.advance();
                let expr = match self.expression() {
                    Ok(e) => e,
                    Err(e) => return Err(e),
                };
                proof {
                    self.lemma_view_index(self.position());
                }
                match self.consume(TokenType::RightParen, "Expected ')' after expression") {
                    Ok(()) => Ok(Expr::Grouping(Box::new(expr))),
                    Err(e) => Err(e),
                }
            },
            other => {
                let message = String::from_str("Unexpected token: ").concat(other.name());
                Err(self.error(message.as_str()))
            },
        }
    }

    /// Reads the next token if it has the variant of one of `types`.
    fn match_tokens(&mut self, types: &[TokenType]) -> (r: bool)
        requires
            old(self).well_formed(),
        ensures
            final(self).well_formed(),
            final(self).tokens == old(self).tokens,
            r == exists|k: int| 0 <= k < types@.len() && old(self).check_spec(kind_shape(types@[k]@)),
            final(self).current == if r { old(self).current + 1 } else { old(self).current as int },
    {
        let mut k: usize = 0;
        while k < types.len()
            invariant
                self == old(self),
                self.well_formed(),
                k <= types@.len(),
                forall|m: int| 0 <= m < k ==> !self.check_spec(#[trigger] kind_shape(types@[m]@)),
            decreases types.len() - k,
        {
            if self.check(&types[k]) {
                self.advance();
                return true;
            }
            k += 1;
        }
        false
    }

    /// Whether the next token is not the end of input and has variant `shape`.
    spec fn check_spec(&self, shape: int) -> bool {
        !(self.tokens@[self.current as int]@.kind is Eof)
            && kind_shape(self.tokens@[self.current as int]@.kind) == shape
    }

    fn check(&self, token_type: &TokenType) -> (r: bool)
        requires
            self.well_formed(),
        ensures
            r == self.check_spec(kind_shape(token_type@)),
    {
        if self.is_at_end() {
            return false;
        }
        self.tokens[self.current].token_type.shape() == token_type.shape()
    }

    /// Moves past the next token, unless it is the end of input.
    fn advance(&mut self)
        requires
            old(self).well_formed(),
        ensures
            final(self).well_formed(),
            final(self).tokens == old(self).tokens,
            final(self).current == if old(self).tokens@[old(self).current as int]@.kind is Eof {
                old(self).current as int
            } else {
                old(self).current + 1
            },
    {
        proof {
            self.lemma_view_index(self.current as int);
            self.lemma_view_index(self.tokens.len() - 1);
        }
        if !self.is_at_end() {
            self.current += 1;
        }
    }

    fn is_at_end(&self) -> (r: bool)
        requires
            self.well_formed(),
        ensures
            r == self.tokens@[self.current as int]@.kind is Eof,
    {
        proof {
            self.lemma_view_index(self.current as int);
        }
        matches!(self.peek().token_type, TokenType::Eof)
    }

    fn peek(&self) -> (r: &Token)
        requires
            self.well_formed(),
        ensures
            *r == self.tokens@[self.current as int],
    {
        proof {
            self.lemma_view_index(self.current as int);
        }
        &self.tokens[self.current]
    }

    fn previous(&self) -> (r: &Token)
        requires
            self.well_formed(),
            self.current > 0,
        ensures
            *r == self.tokens@[self.current - 1],
    {
        proof {
            self.lemma_view_index(self.current as int);
        }
        &self.tokens[self.current - 1]
    }

    /// Reads the next token if it has the variant of `token_type`; otherwise
    /// fails with `message` at the token found.
    fn consume(&mut self, token_type: TokenType, message: &str) -> (r: Result<(), SyntaxError>)
        requires
            old(self).well_formed(),
        ensures
            final(self).well_formed(),
            final(self).tokens == old(self).tokens,
            old(self).check_spec(kind_shape(token_type@)) ==> r is Ok && final(self).current
                == old(self).current + 1,
            !old(self).check_spec(kind_shape(token_type@)) ==> r is Err && r->Err_0@
                == token_error(old(self).token_views(), old(self).position(), message@),
    {
        if self.check(&token_type) {
            self.advance();
            return Ok(());
        }
        Err(self.error(message))
    }

    /// The error with `message`, placed at the next token.
    fn error(&self, message: &str) -> (r: SyntaxError)
        requires
            self.well_formed(),
        ensures
            r@ == token_error(self.token_views(), self.position(), message@),
    {
        proof {
            self.lemma_view_index(self.current as int);
        }
        let token = self.peek();
        SyntaxError::new(String::from_str(message), token.line, token.column)
    }
}

} // verus!
