//! The scanner: source text to positioned tokens.
use vstd::prelude::*;
use vstd::string::*;

use crate::{tokens_view, ErrorView, SyntaxError, Token, TokenKind, TokenType, TokenView};

verus! {

/// Longest source, in characters, whose positions fit in `u32`: a tab
/// advances the column by 4.
pub const MAX_SOURCE_LEN: usize = 0x3fff_ffff;

pub open spec fn is_digit(c: char) -> bool {
    '0' <= c && c <= '9'
}

pub open spec fn is_word_start(c: char) -> bool {
    ('a' <= c && c <= 'z') || ('A' <= c && c <= 'Z') || c == '_'
}

pub open spec fn is_word_char(c: char) -> bool {
    is_word_start(c) || is_digit(c)
}

pub open spec fn is_blank(c: char) -> bool {
    c == ' ' || c == '\r' || c == '\t' || c == '\n'
}

/// The (line, column) reached after reading `c` at (line, column) `p`.
pub open spec fn next_position(p: (int, int), c: char) -> (int, int) {
    if c == '\n' {
        (p.0 + 1, 0)
    } else if c == '\t' {
        (p.0, p.1 + 4)
    } else {
        (p.0, p.1 + 1)
    }
}

/// The (line, column) reached after reading the first `i` characters of `s`:
/// line 1, column 0 at the start.
pub open spec fn position(s: Seq<char>, i: int) -> (int, int)
    decreases i,
{
    if i <= 0 {
        (1, 0)
    } else {
        next_position(position(s, i - 1), s[i - 1])
    }
}

/// The end of the run of digits that starts at `j`.
pub open spec fn digits_end(s: Seq<char>, j: int) -> int
    decreases s.len() - j,
{
    if 0 <= j < s.len() && is_digit(s[j]) {
        digits_end(s, j + 1)
    } else {
        j
    }
}

/// The end of the run of word characters that starts at `j`.
pub open spec fn word_end(s: Seq<char>, j: int) -> int
    decreases s.len() - j,
{
    if 0 <= j < s.len() && is_word_char(s[j]) {
        word_end(s, j + 1)
    } else {
        j
    }
}

/// The index of the first `"` at or after `j`, or the length of `s` if there is none.
pub open spec fn quote_from(s: Seq<char>, j: int) -> int
    decreases s.len() - j,
{
    if 0 <= j < s.len() && s[j] != '"' {
        quote_from(s, j + 1)
    } else {
        j
    }
}

/// The decimal value of a sequence of digits.
pub open spec fn digits_value(d: Seq<char>) -> int
    decreases d.len(),
{
    if d.len() == 0 {
        0
    } else {
        10 * digits_value(d.drop_last()) + (d.last() as int - '0' as int)
    }
}

/// What reading one token at a position yields.
pub enum Lexed {
    /// Nothing is emitted; reading goes on at the index.
    Skip(int),
    /// A token of the kind is emitted; reading goes on at the index.
    Emit(TokenKind, int),
    /// Scanning fails with the message.
    Fail(Seq<char>),
}

/// What reading the token that starts at index `i` of `s` yields.
pub open spec fn step(s: Seq<char>, i: int) -> Lexed {
    let c = s[i];
    let then_eq = i + 1 < s.len() && s[i + 1] == '=';
    if c == '(' {
        Lexed::Emit(TokenKind::LeftParen, i + 1)
    } else if c == ')' {
        Lexed::Emit(TokenKind::RightParen, i + 1)
    } else if c == '+' {
        Lexed::Emit(TokenKind::Plus, i + 1)
    } else if c == '-' {
        Lexed::Emit(TokenKind::Minus, i + 1)
    } else if c == '*' {
        Lexed::Emit(TokenKind::Star, i + 1)
    } else if c == '/' {
        Lexed::Emit(TokenKind::Slash, i + 1)
    } else if c == '!' {
        if then_eq {
            Lexed::Emit(TokenKind::BangEqual, i + 2)
        } else {
            Lexed::Emit(TokenKind::Bang, i + 1)
        }
    } else if c == '>' {
        if then_eq {
            Lexed::Emit(TokenKind::GreaterEqual, i + 2)
        } else {
            Lexed::Emit(TokenKind::Greater, i + 1)
        }
    } else if c == '<' {
        if then_eq {
            Lexed::Emit(TokenKind::LessEqual, i + 2)
        } else {
            Lexed::Emit(TokenKind::Less, i + 1)
        }
    } else if is_blank(c) {
        Lexed::Skip(i + 1)
    } else if c == '"' {
        let q = quote_from(s, i + 1);
        if q < s.len() {
            Lexed::Emit(TokenKind::Str(s.subrange(i + 1, q)), q + 1)
        } else {
            Lexed::Fail("Invalid String"@)
        }
    } else if is_digit(c) {
        let e = digits_end(s, i + 1);
        let v = digits_value(s.subrange(i, e));
        if v <= i32::MAX {
            Lexed::Emit(TokenKind::Number(v as i32), e)
        } else {
            Lexed::Fail("Invalid Number"@)
        }
    } else if is_word_start(c) {
        let e = word_end(s, i + 1);
        let w = s.subrange(i, e);
        if w == seq!['a', 'n', 'd'] {
            Lexed::Emit(TokenKind::And, e)
        } else if w == seq!['o', 'r'] {
            Lexed::Emit(TokenKind::Or, e)
        } else {
            Lexed::Skip(e)
        }
    } else {
        Lexed::Fail("Unexpected Token: "@.push(c))
    }
}

/// The token of kind `k` read from index `i` to index `e` of `s`, placed at its first character.
pub open spec fn token_at(s: Seq<char>, i: int, e: int, k: TokenKind) -> TokenView {
    TokenView {
        kind: k,
        lexeme: s.subrange(i, e),
        line: position(s, i).0,
        column: position(s, i).1 + 1,
    }
}

/// The error with message `m` for the token that starts at index `i` of `s`.
pub open spec fn error_at(s: Seq<char>, i: int, m: Seq<char>) -> ErrorView {
    ErrorView { message: m, line: position(s, i).0, column: position(s, i).1 + 1 }
}

/// The end-of-input token of `s`, placed where reading stopped.
pub open spec fn eof_token(s: Seq<char>) -> TokenView {
    TokenView {
        kind: TokenKind::Eof,
        lexeme: Seq::empty(),
        line: position(s, s.len() as int).0,
        column: position(s, s.len() as int).1,
    }
}

/// The index at which reading goes on after the token at index `i`.
pub open spec fn step_end(s: Seq<char>, i: int) -> int {
    match step(s, i) {
        Lexed::Skip(e) => e,
        Lexed::Emit(_, e) => e,
        Lexed::Fail(_) => s.len() as int,
    }
}

/// Scanning `s` from index `i`, with the tokens `acc` already emitted.
pub open spec fn scan_from(s: Seq<char>, i: int, acc: Seq<TokenView>) -> Result<Seq<TokenView>, ErrorView>
    decreases s.len() - i,
    via scan_from_decreases
{
    if i < 0 || i >= s.len() {
        Ok(acc.push(eof_token(s)))
    } else {
        match step(s, i) {
            Lexed::Skip(e) => scan_from(s, e, acc),
            Lexed::Emit(k, e) => scan_from(s, e, acc.push(token_at(s, i, e, k))),
            Lexed::Fail(m) => Err(error_at(s, i, m)),
        }
    }
}

#[via_fn]
proof fn scan_from_decreases(s: Seq<char>, i: int, acc: Seq<TokenView>) {
    if 0 <= i < s.len() {
        lemma_step_advances(s, i);
    }
}

/// The result of scanning all of `s`.
pub open spec fn scan_spec(s: Seq<char>) -> Result<Seq<TokenView>, ErrorView> {
    scan_from(s, 0, Seq::empty())
}

proof fn lemma_run_ends(s: Seq<char>, j: int)
    requires
        0 <= j <= s.len(),
    ensures
        j <= digits_end(s, j) <= s.len(),
        j <= word_end(s, j) <= s.len(),
        j <= quote_from(s, j) <= s.len(),
    decreases s.len() - j,
{
    if j < s.len() {
        lemma_run_ends(s, j + 1);
    }
}

/// Reading a token moves forward and stays within the source.
pub proof fn lemma_step_advances(s: Seq<char>, i: int)
    requires
        0 <= i < s.len(),
    ensures
        i < step_end(s, i) <= s.len(),
{
    lemma_run_ends(s, i + 1);
}

/// Lines and columns stay within what `i` characters can reach.
pub proof fn lemma_position_bounds(s: Seq<char>, i: int)
    requires
        0 <= i,
    ensures
        1 <= position(s, i).0 <= i + 1,
        0 <= position(s, i).1 <= 4 * i,
    decreases i,
{
    if i > 0 {
        lemma_position_bounds(s, i - 1);
    }
}


/// The kinds of a sequence of tokens, without lexemes or positions.
pub open spec fn kinds(ts: Seq<TokenView>) -> Seq<TokenKind> {
    ts.map_values(|t: TokenView| t.kind)
}

/// Whether every character of `w` is a blank.
pub open spec fn all_blank(w: Seq<char>) -> bool {
    forall|k: int| 0 <= k < w.len() ==> is_blank(#[trigger] w[k])
}

/// `a`, read in a text, matches `b`, read at the same place in that text with
/// `n` characters taken off its front: same outcome, with ends `n` apart.
pub open spec fn same_step(a: Lexed, b: Lexed, n: int) -> bool {
    match (a, b) {
        (Lexed::Skip(e1), Lexed::Skip(e2)) => e1 == e2 + n,
        (Lexed::Emit(k1, e1), Lexed::Emit(k2, e2)) => k1 == k2 && e1 == e2 + n,
        (Lexed::Fail(m1), Lexed::Fail(m2)) => m1 == m2,
        _ => false,
    }
}

/// `a` and `b` are the same outcome of scanning, up to lexemes and positions.
pub open spec fn same_scan(
    a: Result<Seq<TokenView>, ErrorView>,
    b: Result<Seq<TokenView>, ErrorView>,
) -> bool {
    match (a, b) {
        (Ok(x), Ok(y)) => kinds(x) == kinds(y),
        (Err(x), Err(y)) => x.message == y.message,
        _ => false,
    }
}

proof fn lemma_runs_shift(w: Seq<char>, s: Seq<char>, j: int)
    requires
        0 <= j <= s.len(),
    ensures
        digits_end(w + s, w.len() + j) == w.len() + digits_end(s, j),
        word_end(w + s, w.len() + j) == w.len() + word_end(s, j),
        quote_from(w + s, w.len() + j) == w.len() + quote_from(s, j),
    decreases s.len() - j,
{
    let t = w + s;
    if j < s.len() {
        assert(t[w.len() + j] == s[j]);
        lemma_runs_shift(w, s, j + 1);
    }
}

/// Reading a token does not depend on what stands before it.
proof fn lemma_step_shift(w: Seq<char>, s: Seq<char>, i: int)
    requires
        0 <= i < s.len(),
    ensures
        same_step(step(w + s, w.len() + i), step(s, i), w.len() as int),
{
    let t = w + s;
    let n = w.len() as int;
    assert(t[n + i] == s[i]);
    if i + 1 < s.len() {
        assert(t[n + i + 1] == s[i + 1]);
    }
    lemma_runs_shift(w, s, i + 1);
    lemma_run_ends(s, i + 1);
    let q = quote_from(s, i + 1);
    if q < s.len() {
        assert(t.subrange(n + i + 1, n + q) =~= s.subrange(i + 1, q));
    }
    let d = digits_end(s, i + 1);
    assert(t.subrange(n + i, n + d) =~= s.subrange(i, d));
    let e = word_end(s, i + 1);
    assert(t.subrange(n + i, n + e) =~= s.subrange(i, e));
}

proof fn lemma_scan_shift(
    w: Seq<char>,
    s: Seq<char>,
    i: int,
    acc1: Seq<TokenView>,
    acc2: Seq<TokenView>,
)
    requires
        0 <= i <= s.len(),
        kinds(acc1) == kinds(acc2),
    ensures
        same_scan(scan_from(w + s, w.len() + i, acc1), scan_from(s, i, acc2)),
    decreases s.len() - i,
{
    let t = w + s;
    let n = w.len() as int;
    if i == s.len() {
        assert(kinds(acc1.push(eof_token(t))) =~= kinds(acc1).push(TokenKind::Eof));
        assert(kinds(acc2.push(eof_token(s))) =~= kinds(acc2).push(TokenKind::Eof));
    } else {
        lemma_step_shift(w, s, i);
        lemma_step_advances(s, i);
        match step(s, i) {
            Lexed::Skip(e) => {
                lemma_scan_shift(w, s, e, acc1, acc2);
            },
            Lexed::Emit(k, e) => {
                let a1 = acc1.push(token_at(t, n + i, n + e, k));
                let a2 = acc2.push(token_at(s, i, e, k));
                assert(kinds(a1) =~= kinds(acc1).push(k));
                assert(kinds(a2) =~= kinds(acc2).push(k));
                lemma_scan_shift(w, s, e, a1, a2);
            },
            Lexed::Fail(m) => {},
        }
    }
}

proof fn lemma_skip_blanks(t: Seq<char>, k: int, m: int, acc: Seq<TokenView>)
    requires
        0 <= k <= m <= t.len(),
        forall|j: int| k <= j < m ==> is_blank(#[trigger] t[j]),
    ensures
        scan_from(t, k, acc) == scan_from(t, m, acc),
    decreases m - k,
{
    if k < m {
        assert(is_blank(t[k]));
        lemma_skip_blanks(t, k + 1, m, acc);
    }
}

/// Scanning `s` from index `i` comes to index `p` exactly, at the end of a
/// token or of a run of blanks, without failing on the way.
pub open spec fn reaches(s: Seq<char>, i: int, p: int) -> bool
    decreases s.len() - i,
    via reaches_decreases
{
    if i == p {
        true
    } else if 0 <= i < p && i < s.len() {
        match step(s, i) {
            Lexed::Skip(e) => reaches(s, e, p),
            Lexed::Emit(_, e) => reaches(s, e, p),
            Lexed::Fail(_) => false,
        }
    } else {
        false
    }
}

#[via_fn]
proof fn reaches_decreases(s: Seq<char>, i: int, p: int) {
    if 0 <= i < s.len() {
        lemma_step_advances(s, i);
    }
}

/// Whether reading a run in `t` stops at `p` wherever it stops at `p` in `s`.
spec fn stops_alike(s: Seq<char>, t: Seq<char>, p: int) -> bool {
    p == t.len() || is_blank(t[p]) || (p < s.len() && t[p] == s[p])
}

proof fn lemma_prefix_runs(s: Seq<char>, t: Seq<char>, j: int, p: int)
    requires
        0 <= j <= p <= s.len(),
        p <= t.len(),
        forall|k: int| 0 <= k < p ==> s[k] == t[k],
        stops_alike(s, t, p),
    ensures
        digits_end(s, j) <= p ==> digits_end(t, j) == digits_end(s, j),
        word_end(s, j) <= p ==> word_end(t, j) == word_end(s, j),
        quote_from(s, j) < p ==> quote_from(t, j) == quote_from(s, j),
    decreases p - j,
{
    lemma_run_ends(s, j);
    if j < s.len() {
        lemma_run_ends(s, j + 1);
    }
    if j < p {
        assert(s[j] == t[j]);
        lemma_prefix_runs(s, t, j + 1, p);
    }
}

/// A token of `s` that ends by `p` is read alike in `t`, which agrees with
/// `s` before `p` and stops runs alike at `p`.
proof fn lemma_prefix_step(s: Seq<char>, t: Seq<char>, i: int, p: int)
    requires
        0 <= i < p <= s.len(),
        p <= t.len(),
        forall|k: int| 0 <= k < p ==> s[k] == t[k],
        stops_alike(s, t, p),
        !(step(s, i) is Fail),
        step_end(s, i) <= p,
    ensures
        step(t, i) == step(s, i),
{
    assert(s[i] == t[i]);
    if i + 1 < p {
        assert(s[i + 1] == t[i + 1]);
    }
    lemma_prefix_runs(s, t, i + 1, p);
    lemma_run_ends(s, i + 1);
    let q = quote_from(s, i + 1);
    if q < s.len() && q + 1 <= p {
        assert(t.subrange(i + 1, q) =~= s.subrange(i + 1, q));
    }
    let d = digits_end(s, i + 1);
    if d <= p {
        assert(t.subrange(i, d) =~= s.subrange(i, d));
    }
    let e = word_end(s, i + 1);
    if e <= p {
        assert(t.subrange(i, e) =~= s.subrange(i, e));
    }
}

proof fn lemma_insert_blanks(
    a: Seq<char>,
    w: Seq<char>,
    b: Seq<char>,
    i: int,
    acc1: Seq<TokenView>,
    acc2: Seq<TokenView>,
)
    requires
        all_blank(w),
        0 <= i <= a.len(),
        reaches(a + b, i, a.len() as int),
        kinds(acc1) == kinds(acc2),
    ensures
        same_scan(scan_from(a + w + b, i, acc1), scan_from(a + b, i, acc2)),
    decreases a.len() - i,
{
    let s = a + b;
    let t = a + w + b;
    let p = a.len() as int;
    if i == p {
        assert forall|j: int| p <= j < p + w.len() implies is_blank(#[trigger] t[j]) by {
            assert(t[j] == w[j - p]);
        }
        lemma_skip_blanks(t, p, p + w.len(), acc1);
        assert(t == (a + w) + b);
        lemma_scan_shift(a + w, b, 0, acc1, acc2);
        lemma_scan_shift(a, b, 0, acc2, acc2);
    } else {
        assert forall|k: int| 0 <= k < p implies s[k] == t[k] by {
            assert(s[k] == a[k] && t[k] == a[k]);
        }
        if w.len() > 0 {
            assert(t[p] == w[0]);
        } else if p < s.len() {
            assert(t[p] == b[0] && s[p] == b[0]);
        }
        lemma_step_advances(s, i);
        let e0 = step_end(s, i);
        assert(reaches(s, e0, p));
        assert(e0 <= p);
        lemma_prefix_step(s, t, i, p);
        match step(s, i) {
            Lexed::Skip(e) => {
                lemma_insert_blanks(a, w, b, e, acc1, acc2);
            },
            Lexed::Emit(k, e) => {
                let a1 = acc1.push(token_at(t, i, e, k));
                let a2 = acc2.push(token_at(s, i, e, k));
                assert(kinds(a1) =~= kinds(acc1).push(k));
                assert(kinds(a2) =~= kinds(acc2).push(k));
                lemma_insert_blanks(a, w, b, e, a1, a2);
            },
            Lexed::Fail(m) => {},
        }
    }
}

/// Blanks put where a token or a run of blanks ends change no token kind
/// and no error message: only positions move.
pub proof fn lemma_blanks_between_tokens(a: Seq<char>, w: Seq<char>, b: Seq<char>)
    requires
        all_blank(w),
        reaches(a + b, 0, a.len() as int),
    ensures
        same_scan(scan_spec(a + w + b), scan_spec(a + b)),
{
    lemma_insert_blanks(a, w, b, 0, Seq::empty(), Seq::empty());
}

/// A `!`, `>` or `<` followed by `=` is read as one two-character operator.
pub proof fn lemma_two_char_operator(s: Seq<char>, i: int)
    requires
        0 <= i,
        i + 1 < s.len(),
        s[i] == '!' || s[i] == '>' || s[i] == '<',
        s[i + 1] == '=',
    ensures
        step(s, i) == Lexed::Emit(
            if s[i] == '!' {
                TokenKind::BangEqual
            } else if s[i] == '>' {
                TokenKind::GreaterEqual
            } else {
                TokenKind::LessEqual
            },
            i + 2,
        ),
{
}

/// A tab moves the column on by exactly 4 and keeps the line.
pub proof fn lemma_tab_advances_column(s: Seq<char>, i: int)
    requires
        0 <= i < s.len(),
        s[i] == '\t',
    ensures
        position(s, i + 1) == (position(s, i).0, position(s, i).1 + 4),
{
}

/// A newline moves to the next line and resets the column to 0.
pub proof fn lemma_newline_resets_column(s: Seq<char>, i: int)
    requires
        0 <= i < s.len(),
        s[i] == '\n',
    ensures
        position(s, i + 1) == (position(s, i).0 + 1, 0int),
{
}

/// A `"` with no `"` after it fails with "Invalid String", placed at the
/// opening quote, whatever lines the rest spans.
pub proof fn lemma_unterminated_string(s: Seq<char>, i: int)
    requires
        0 <= i < s.len(),
        s[i] == '"',
        forall|k: int| i < k < s.len() ==> s[k] != '"',
    ensures
        step(s, i) == Lexed::Fail("Invalid String"@),
        error_at(s, i, "Invalid String"@) == (ErrorView {
            message: "Invalid String"@,
            line: position(s, i).0,
            column: position(s, i).1 + 1,
        }),
{
    lemma_no_quote(s, i + 1);
}

proof fn lemma_no_quote(s: Seq<char>, j: int)
    requires
        0 <= j <= s.len(),
        forall|k: int| j <= k < s.len() ==> s[k] != '"',
    ensures
        quote_from(s, j) == s.len(),
    decreases s.len() - j,
{
    if j < s.len() {
        lemma_no_quote(s, j + 1);
    }
}

/// Relies on `String::push`: appends one character at the end.
#[verifier::external_body]
fn push_char(s: &mut String, c: char)
    ensures
        final(s)@ == old(s)@.push(c),
{
    s.push(c)
}

/// The characters of `chars` from index `from` to index `to`, as a string.
fn collect(chars: &Vec<char>, from: usize, to: usize) -> (r: String)
    requires
        from <= to <= chars.len(),
    ensures
        r@ == chars@.subrange(from as int, to as int),
{
    let mut r = String::new();
    let mut k: usize = from;
    while k < to
        invariant
            from <= k <= to <= chars.len(),
            r@ == chars@.subrange(from as int, k as int),
        decreases to - k,
    {
        push_char(&mut r, chars[k]);
        k += 1;
        assert(r@ =~= chars@.subrange(from as int, k as int));
    }
    r
}

/// Collects the characters of `source` in order.
fn chars_of(source: &str) -> (r: Vec<char>)
    ensures
        r@ == source@,
{
    let mut out: Vec<char> = Vec::new();
    for c in it: source.chars()
        invariant
            out@ == it.seq().take(it.index() as int),
    {
        out.push(c);
    }
    out
}

fn is_digit_char(c: char) -> (r: bool)
    ensures
        r == is_digit(c),
{
    '0' <= c && c <= '9'
}

fn is_word_start_char(c: char) -> (r: bool)
    ensures
        r == is_word_start(c),
{
    ('a' <= c && c <= 'z') || ('A' <= c && c <= 'Z') || c == '_'
}

fn is_word_part_char(c: char) -> (r: bool)
    ensures
        r == is_word_char(c),
{
    is_word_start_char(c) || is_digit_char(c)
}

struct Lexer {
    chars: Vec<char>,
    tokens: Vec<Token>,
    /// Index of the next character to read.
    current: usize,
    /// Index of the first character of the token being read.
    start: usize,
    line: u32,
    column: u32,
    token_start_line: u32,
    token_start_column: u32,
}

impl Lexer {
    spec fn source(&self) -> Seq<char> {
        self.chars@
    }

    spec fn well_formed(&self) -> bool {
        &&& self.chars.len() <= MAX_SOURCE_LEN
        &&& self.start <= self.current <= self.chars.len()
        &&& position(self.chars@, self.current as int) == (self.line as int, self.column as int)
        &&& self.token_start_line == position(self.chars@, self.start as int).0
        &&& self.token_start_column == position(self.chars@, self.start as int).1 + 1
    }

    /// The error with `message`, placed at the start of the current token.
    fn new_error(&self, message: String) -> (r: SyntaxError)
        requires
            self.well_formed(),
        ensures
            r@ == error_at(self.source(), self.start as int, message@),
    {
        SyntaxError::new(message, self.token_start_line, self.token_start_column)
    }

    /// Reads the next character if it is `ch`.
    fn consume_if(&mut self, ch: char) -> (r: bool)
        requires
            old(self).well_formed(),
        ensures
            final(self).well_formed(),
            r == (old(self).current < old(self).chars.len() && old(self).chars@[old(self).current as int] == ch),
            final(self).current == if r { old(self).current + 1 } else { old(self).current as int },
            final(self).chars == old(self).chars,
            final(self).tokens == old(self).tokens,
            final(self).start == old(self).start,
    {
        if self.current < self.chars.len() && self.chars[self.current] == ch {
            self.consume();
            true
        } else {
            false
        }
    }

    /// Moves the line and column past `character`.
    fn track_line_column(&mut self, character: char)
        requires
            old(self).line < u32::MAX,
            old(self).column <= u32::MAX - 4,
        ensures
            (final(self).line as int, final(self).column as int) == next_position(
                (old(self).line as int, old(self).column as int),
                character,
            ),
            final(self).chars == old(self).chars,
            final(self).tokens == old(self).tokens,
            final(self).current == old(self).current,
            final(self).start == old(self).start,
            final(self).token_start_line == old(self).token_start_line,
            final(self).token_start_column == old(self).token_start_column,
    {
        if character == '\n' {
            self.line += 1;
            self.column = 0;
        } else if character == '\t' {
            self.column += 4;
        } else {
            self.column += 1;
        }
    }

    /// Reads the next character, if there is one.
    fn consume(&mut self) -> (r: Option<char>)
        requires
            old(self).well_formed(),
        ensures
            final(self).well_formed(),
            old(self).current < old(self).chars.len() ==> r == Some(old(self).chars@[old(self).current as int])
                && final(self).current == old(self).current + 1,
            old(self).current >= old(self).chars.len() ==> r is None && final(self).current == old(self).current,
            final(self).chars == old(self).chars,
            final(self).tokens == old(self).tokens,
            final(self).start == old(self).start,
    {
        if self.current >= self.chars.len() {
            return None;
        }
        let character = self.chars[self.current];
        proof {
            lemma_position_bounds(self.chars@, self.current as int);
        }
        self.track_line_column(character);
        self.current += 1;
        Some(character)
    }

    /// Reads one token, or one run of blanks or of an unreserved word, and
    /// emits what it stands for. `Ok(false)` when the source is used up.
    fn next_token(&mut self) -> (r: Result<bool, SyntaxError>)
        requires
            old(self).well_formed(),
        ensures
            final(self).well_formed(),
            final(self).chars == old(self).chars,
            old(self).current >= old(self).chars.len() ==> r == Ok::<bool, SyntaxError>(false)
                && final(self).current == old(self).current
                && final(self).tokens@ == old(self).tokens@,
            old(self).current < old(self).chars.len() ==> match step(
                old(self).source(),
                old(self).current as int,
            ) {
                Lexed::Skip(e) => r == Ok::<bool, SyntaxError>(true) && final(self).current == e
                    && tokens_view(final(self).tokens@) == tokens_view(old(self).tokens@),
                Lexed::Emit(k, e) => r == Ok::<bool, SyntaxError>(true) && final(self).current == e
                    && tokens_view(final(self).tokens@) == tokens_view(old(self).tokens@).push(
                    token_at(old(self).source(), old(self).current as int, e, k),
                ),
                Lexed::Fail(m) => r is Err && r->Err_0@ == error_at(
                    old(self).source(),
                    old(self).current as int,
                    m,
                ),
            },
    {
        let ghost s = self.chars@;
        let ghost i = self.current as int;
        proof {
            lemma_position_bounds(s, i);
        }
        self.start = self.current;
        self.token_start_line = self.line;
        self.token_start_column = self.column + 1;

        let character = match self.consume() {
            Some(character) => character,
            None => return Ok(false),
        };
        assert(character == s[i]);

        if character == '(' {
            self.add_token(TokenType::LeftParen);
        } else if character == ')' {
            self.add_token(TokenType::RightParen);
        } else if character == '+' {
            self.add_token(TokenType::Plus);
        } else if character == '-' {
            self.add_token(TokenType::Minus);
        } else if character == '*' {
            self.add_token(TokenType::Star);
        } else if character == '/' {
            self.add_token(TokenType::Slash);
        } else if character == '!' {
            if self.consume_if('=') {
                self.add_token(TokenType::BangEqual);
            } else {
                self.add_token(TokenType::Bang);
            }
        } else if character == '>' {
            if self.consume_if('=') {
                self.add_token(TokenType::GreaterEqual);
            } else {
                self.add_token(TokenType::Greater);
            }
        } else if character == '<' {
            if self.consume_if('=') {
                self.add_token(TokenType::LessEqual);
            } else {
                self.add_token(TokenType::Less);
            }
        } else if character == ' ' || character == '\r' || character == '\t' || character == '\n' {
        } else if character == '"' {
            while self.current < self.chars.len() && self.chars[self.current] != '"'
                invariant
                    self.well_formed(),
                    self.chars == old(self).chars,
                    self.chars@ == s,
                    self.start == i,
                    i + 1 <= self.current,
                    quote_from(s, i + 1) == quote_from(s, self.current as int),
                    self.tokens@ == old(self).tokens@,
                decreases s.len() - self.current,
            {
                self.consume();
            }
            if self.current >= self.chars.len() {
                return Err(self.new_error(String::from_str("Invalid String")));
            }
            self.consume();
            let value = collect(&self.chars, self.start + 1, self.current - 1);
            self.add_token(TokenType::String(value));
        } else if is_digit_char(character) {
            let mut value: u64 = (character as u32 - '0' as u32) as u64;
            proof {
                assert(s.subrange(i, i + 1).drop_last() =~= Seq::<char>::empty());
                assert(digits_value(Seq::<char>::empty()) == 0);
                assert(digits_value(s.subrange(i, i + 1)) == s[i] as int - '0' as int);
            }
            while self.current < self.chars.len() && is_digit_char(self.chars[self.current])
                invariant
                    self.well_formed(),
                    self.chars == old(self).chars,
                    self.chars@ == s,
                    self.start == i,
                    i + 1 <= self.current,
                    digits_end(s, i + 1) == digits_end(s, self.current as int),
                    digits_value(s.subrange(i, self.current as int)) >= 0,
                    value == if digits_value(s.subrange(i, self.current as int)) <= i32::MAX {
                        digits_value(s.subrange(i, self.current as int))
                    } else {
                        i32::MAX + 1
                    },
                    self.tokens@ == old(self).tokens@,
                decreases s.len() - self.current,
            {
                let d = self.chars[self.current];
                proof {
                    assert(s.subrange(i, self.current + 1).drop_last() =~= s.subrange(i, self.current as int));
                }
                if value <= i32::MAX as u64 {
                    value = value * 10 + (d as u32 - '0' as u32) as u64;
                    if value > i32::MAX as u64 {
                        value = i32::MAX as u64 + 1;
                    }
                }
                self.consume();
            }
            if value > i32::MAX as u64 {
                return Err(self.new_error(String::from_str("Invalid Number")));
            }
            self.add_token(TokenType::Number(value as i32));
        } else if is_word_start_char(character) {
            while self.current < self.chars.len() && is_word_part_char(self.chars[self.current])
                invariant
                    self.well_formed(),
                    self.chars == old(self).chars,
                    self.chars@ == s,
                    self.start == i,
                    i + 1 <= self.current,
                    word_end(s, i + 1) == word_end(s, self.current as int),
                    self.tokens@ == old(self).tokens@,
                decreases s.len() - self.current,
            {
                self.consume();
            }
            let n = self.current - self.start;
            let st = self.start;
            let ghost w = s.subrange(i, self.current as int);
            if n == 3 && self.chars[st] == 'a' && self.chars[st + 1] == 'n' && self.chars[st + 2] == 'd' {
                assert(w =~= seq!['a', 'n', 'd']);
                self.add_token(TokenType::And);
            } else if n == 2 && self.chars[st] == 'o' && self.chars[st + 1] == 'r' {
                assert(w =~= seq!['o', 'r']);
                self.add_token(TokenType::Or);
            } else {
                assert(w != seq!['a', 'n', 'd']) by {
                    if w == seq!['a', 'n', 'd'] {
                        assert(w.len() == 3 && w[0] == 'a' && w[1] == 'n' && w[2] == 'd');
                    }
                }
                assert(w != seq!['o', 'r']) by {
                    if w == seq!['o', 'r'] {
                        assert(w.len() == 2 && w[0] == 'o' && w[1] == 'r');
                    }
                }
            }
        } else {
            let mut message = String::from_str("Unexpected Token: ");
            push_char(&mut message, character);
            return Err(self.new_error(message));
        }
        Ok(true)
    }

    /// Emits a token of `token_type` made of the characters read since the token's start.
    fn add_token(&mut self, token_type: TokenType)
        requires
            old(self).well_formed(),
        ensures
            final(self).well_formed(),
            tokens_view(final(self).tokens@) == tokens_view(old(self).tokens@).push(
                token_at(old(self).source(), old(self).start as int, old(self).current as int, token_type@),
            ),
            final(self).chars == old(self).chars,
            final(self).current == old(self).current,
            final(self).start == old(self).start,
    {
        let lexeme = collect(&self.chars, self.start, self.current);
        let token = Token {
            token_type,
            lexeme,
            column: self.token_start_column,
            line: self.token_start_line,
        };
        self.tokens.push(token);
        proof {
            assert(tokens_view(self.tokens@) =~= tokens_view(old(self).tokens@).push(token@));
        }
    }
}

/// Scans the whole of `source_code` into tokens, ending with one
/// end-of-input token; fails at the first unterminated string, number that
/// does not fit in `i32`, or unexpected character.
pub fn scan(source_code: &str) -> (r: Result<Vec<Token>, SyntaxError>)
    requires
        source_code@.len() <= MAX_SOURCE_LEN,
    ensures
        match r {
            Ok(tokens) => scan_spec(source_code@) == Ok::<Seq<TokenView>, ErrorView>(
                tokens_view(tokens@),
            ),
            Err(e) => scan_spec(source_code@) == Err::<Seq<TokenView>, ErrorView>(e@),
        },
{
    let chars = chars_of(source_code);
    let ghost s = chars@;
    let mut lexer = Lexer {
        chars,
        tokens: Vec::new(),
        current: 0,
        start: 0,
        line: 1,
        column: 0,
        token_start_line: 1,
        token_start_column: 1,
    };
    assert(tokens_view(lexer.tokens@) =~= Seq::<TokenView>::empty());

    loop
        invariant
            lexer.well_formed(),
            lexer.chars@ == s,
            s == source_code@,
            scan_spec(s) == scan_from(s, lexer.current as int, tokens_view(lexer.tokens@)),
        ensures
            lexer.well_formed(),
            lexer.chars@ == s,
            lexer.current == s.len(),
            scan_spec(s) == scan_from(s, lexer.current as int, tokens_view(lexer.tokens@)),
        decreases s.len() - lexer.current,
    {
        let ghost before = lexer.current;
        match lexer.next_token() {
            Ok(true) => {},
            Ok(false) => break,
            Err(error) => return Err(error),
        }
        proof {
            lemma_step_advances(s, before as int);
        }
    }

    let eof = Token {
        token_type: TokenType::Eof,
        lexeme: String::new(),
        line: lexer.line,
        column: lexer.column,
    };
    let ghost before = lexer.tokens@;
    lexer.tokens.push(eof);
    assert(tokens_view(lexer.tokens@) =~= tokens_view(before).push(eof_token(s)));
    Ok(lexer.tokens)
}

} // verus!
