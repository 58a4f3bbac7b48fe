use vstd::prelude::*;
use crate::error::{LexError, UserDefinedError};
use crate::text::{char_is_alphanumeric, push_char, unicode_alphanumeric};

verus! {

/// Keywords.
#[derive(Debug, PartialEq, Eq, Structural, Clone, Copy)]
pub enum Keyword {
    If,
    Then,
    Else,
    While,
    Do,
    Skip,
    End,
}

/// Operators.
#[derive(Debug, PartialEq, Eq, Structural, Clone, Copy)]
pub enum Operator {
    Assign,
    Add,
    Sub,
    Mul,
    Equ,
    Leq,
    Not,
    And,
    Semicolon,
}

/// Delimiters.
#[derive(Debug, PartialEq, Eq, Structural, Clone, Copy)]
pub enum Delimiter {
    LParen,
    RParen,
}

/// Identifiers.
#[derive(Debug, PartialEq, Eq)]
pub enum Identifier {
    Variable(String),
}

/// Literals.
#[derive(Debug, PartialEq, Eq, Structural, Clone, Copy)]
pub enum Literal {
    True,
    False,
    Int(i64),
}

/// Tokens; `End` marks the end of the input.
#[derive(Debug, PartialEq, Eq)]
pub enum Token {
    Kw(Keyword),
    Op(Operator),
    Del(Delimiter),
    Idf(Identifier),
    Lit(Literal),
    End,
}

/// A token with its identifier taken by its characters.
pub enum TokenV {
    Kw(Keyword),
    Op(Operator),
    Del(Delimiter),
    Idf(Seq<char>),
    Lit(Literal),
    End,
}

impl View for Token {
    type V = TokenV;

    open spec fn view(&self) -> TokenV {
        match self {
            Token::Kw(k) => TokenV::Kw(*k),
            Token::Op(o) => TokenV::Op(*o),
            Token::Del(d) => TokenV::Del(*d),
            Token::Idf(Identifier::Variable(s)) => TokenV::Idf(s@),
            Token::Lit(l) => TokenV::Lit(*l),
            Token::End => TokenV::End,
        }
    }
}

/// The views of a sequence of tokens.
pub open spec fn tokens_view(ts: Seq<Token>) -> Seq<TokenV> {
    ts.map_values(|t: Token| t@)
}

/// `cs[i] == c`, with `i` inside `cs`.
pub open spec fn at(cs: Seq<char>, i: int, c: char) -> bool {
    0 <= i < cs.len() && cs[i] == c
}

pub open spec fn is_digit(c: char) -> bool {
    '0' <= c <= '9'
}

/// Characters that continue an identifier: `_` and the alphanumeric ones
/// (for ASCII, the letters and digits).
pub open spec fn is_ident_char(c: char) -> bool {
    if (c as int) < 128 {
        'a' <= c <= 'z' || 'A' <= c <= 'Z' || '0' <= c <= '9' || c == '_'
    } else {
        unicode_alphanumeric(c)
    }
}

/// Characters that start an identifier.
pub open spec fn is_ident_start(c: char) -> bool {
    'a' <= c <= 'z' || 'A' <= c <= 'Z'
}

pub open spec fn is_blank(c: char) -> bool {
    c == '\n' || c == '\t' || c == '\r' || c == ' '
}

/// The number of consecutive digits of `cs` from `i` on.
pub open spec fn digit_run(cs: Seq<char>, i: int) -> nat
    decreases cs.len() - i,
{
    if 0 <= i < cs.len() && is_digit(cs[i]) {
        1 + digit_run(cs, i + 1)
    } else {
        0
    }
}

/// The number of consecutive identifier characters of `cs` from `i` on.
pub open spec fn ident_run(cs: Seq<char>, i: int) -> nat
    decreases cs.len() - i,
{
    if 0 <= i < cs.len() && is_ident_char(cs[i]) {
        1 + ident_run(cs, i + 1)
    } else {
        0
    }
}

/// The value of the decimal digits `cs[start..end]`.
pub open spec fn digits_value(cs: Seq<char>, start: int, end: int) -> int
    decreases end - start,
{
    if end <= start {
        0
    } else {
        digits_value(cs, start, end - 1) * 10 + (cs[end - 1] as int - '0' as int)
    }
}

/// What the lexer does at position `p`.
pub enum LexStep {
    /// Emit a token and move on by the given number of characters.
    Emit(TokenV, int),
    /// Move on by one character.
    Blank,
    /// A character that starts no token.
    Bad(char),
    /// An integer literal too large for `i64`.
    Overflow,
}

/// The word `w` stands at position `p` as a whole word: no identifier
/// character follows it.
pub open spec fn kw_at(cs: Seq<char>, p: int, w: Seq<char>) -> bool {
    &&& p + w.len() <= cs.len()
    &&& forall|i: int| 0 <= i < w.len() ==> #[trigger] cs[p + i] == w[i]
    &&& (p + w.len() == cs.len() || !is_ident_char(cs[p + w.len()]))
}

/// The step of the lexer at position `p` of `cs`: the first rule that
/// matches there, in the order of the grammar's token table.
pub open spec fn lex_step(cs: Seq<char>, p: int) -> LexStep {
    if p < 0 || p >= cs.len() {
        LexStep::Blank
    } else if at(cs, p, ':') && at(cs, p + 1, '=') {
        LexStep::Emit(TokenV::Op(Operator::Assign), 2)
    } else if at(cs, p, '<') && at(cs, p + 1, '=') {
        LexStep::Emit(TokenV::Op(Operator::Leq), 2)
    } else if cs[p] == '=' {
        LexStep::Emit(TokenV::Op(Operator::Equ), 1)
    } else if cs[p] == '+' {
        LexStep::Emit(TokenV::Op(Operator::Add), 1)
    } else if cs[p] == '-' {
        LexStep::Emit(TokenV::Op(Operator::Sub), 1)
    } else if cs[p] == '*' {
        LexStep::Emit(TokenV::Op(Operator::Mul), 1)
    } else if cs[p] == '!' {
        LexStep::Emit(TokenV::Op(Operator::Not), 1)
    } else if cs[p] == '&' {
        LexStep::Emit(TokenV::Op(Operator::And), 1)
    } else if cs[p] == ';' {
        LexStep::Emit(TokenV::Op(Operator::Semicolon), 1)
    } else if cs[p] == '(' {
        LexStep::Emit(TokenV::Del(Delimiter::LParen), 1)
    } else if cs[p] == ')' {
        LexStep::Emit(TokenV::Del(Delimiter::RParen), 1)
    } else if kw_at(cs, p, seq!['i', 'f']) {
        LexStep::Emit(TokenV::Kw(Keyword::If), 2)
    } else if kw_at(cs, p, seq!['t', 'h', 'e', 'n']) {
        LexStep::Emit(TokenV::Kw(Keyword::Then), 4)
    } else if kw_at(cs, p, seq!['e', 'l', 's', 'e']) {
        LexStep::Emit(TokenV::Kw(Keyword::Else), 4)
    } else if kw_at(cs, p, seq!['w', 'h', 'i', 'l', 'e']) {
        LexStep::Emit(TokenV::Kw(Keyword::While), 5)
    } else if kw_at(cs, p, seq!['d', 'o']) {
        LexStep::Emit(TokenV::Kw(Keyword::Do), 2)
    } else if kw_at(cs, p, seq!['s', 'k', 'i', 'p']) {
        LexStep::Emit(TokenV::Kw(Keyword::Skip), 4)
    } else if kw_at(cs, p, seq!['e', 'n', 'd']) {
        LexStep::Emit(TokenV::Kw(Keyword::End), 3)
    } else if kw_at(cs, p, seq!['t', 'r', 'u', 'e']) {
        LexStep::Emit(TokenV::Lit(Literal::True), 4)
    } else if kw_at(cs, p, seq!['f', 'a', 'l', 's', 'e']) {
        LexStep::Emit(TokenV::Lit(Literal::False), 5)
    } else if is_digit(cs[p]) {
        let n: int = 1 + digit_run(cs, p + 1) as int;
        let v = digits_value(cs, p, p + n);
        if v > i64::MAX {
            LexStep::Overflow
        } else {
            LexStep::Emit(TokenV::Lit(Literal::Int(v as i64)), n)
        }
    } else if is_ident_start(cs[p]) {
        let n: int = 1 + ident_run(cs, p + 1) as int;
        LexStep::Emit(TokenV::Idf(cs.subrange(p, p + n)), n)
    } else if is_blank(cs[p]) {
        LexStep::Blank
    } else {
        LexStep::Bad(cs[p])
    }
}

/// What lexing a whole input comes to.
pub enum LexOutcome {
    /// The tokens, ending with `End`.
    Done(Seq<TokenV>),
    /// The tokens before an unknown character, and that character.
    Failed(Seq<TokenV>, char),
    /// The lexer stops with a panic (see `LexStep::Overflow`).
    Panics,
}

/// `ts` followed by the tokens of `o`.
pub open spec fn after(ts: Seq<TokenV>, o: LexOutcome) -> LexOutcome {
    match o {
        LexOutcome::Done(us) => LexOutcome::Done(ts + us),
        LexOutcome::Failed(us, c) => LexOutcome::Failed(ts + us, c),
        LexOutcome::Panics => LexOutcome::Panics,
    }
}

/// Lexing `cs` from position `p` on.
pub open spec fn lex_from(cs: Seq<char>, p: int) -> LexOutcome
    decreases cs.len() - p,
{
    match lex_step(cs, p) {
        LexStep::Bad(c) => LexOutcome::Failed(seq![], c),
        LexStep::Overflow => LexOutcome::Panics,
        LexStep::Blank => {
            if 0 <= p && p + 1 < cs.len() {
                lex_from(cs, p + 1)
            } else {
                LexOutcome::Done(seq![TokenV::End])
            }
        },
        LexStep::Emit(t, k) => {
            if 0 <= p && 1 <= k && p + k < cs.len() {
                after(seq![t], lex_from(cs, p + k))
            } else {
                LexOutcome::Done(seq![t, TokenV::End])
            }
        },
    }
}

/// Lexing the whole of `cs`.
pub open spec fn lex_spec(cs: Seq<char>) -> LexOutcome {
    lex_from(cs, 0)
}

proof fn lemma_digits_monotone(cs: Seq<char>, start: int, e1: int, e2: int)
    requires
        start <= e1 <= e2 <= cs.len(),
        forall|i: int| start <= i < e2 ==> is_digit(#[trigger] cs[i]),
    ensures
        0 <= digits_value(cs, start, e1) <= digits_value(cs, start, e2),
    decreases e2 - e1,
{
    if e1 < e2 {
        lemma_digits_monotone(cs, start, e1, e2 - 1);
        assert(is_digit(cs[e2 - 1]));
    } else {
        lemma_digits_nonneg(cs, start, e1);
    }
}

proof fn lemma_digits_nonneg(cs: Seq<char>, start: int, e: int)
    requires
        start <= e <= cs.len(),
        forall|i: int| start <= i < e ==> is_digit(#[trigger] cs[i]),
    ensures
        0 <= digits_value(cs, start, e),
    decreases e - start,
{
    if start < e {
        lemma_digits_nonneg(cs, start, e - 1);
        assert(is_digit(cs[e - 1]));
    }
}

proof fn lemma_digit_run(cs: Seq<char>, i: int)
    requires
        0 <= i <= cs.len(),
    ensures
        i + digit_run(cs, i) <= cs.len(),
        forall|j: int| i <= j < i + digit_run(cs, i) ==> is_digit(#[trigger] cs[j]),
        i + digit_run(cs, i) < cs.len() ==> !is_digit(cs[i + digit_run(cs, i)]),
    decreases cs.len() - i,
{
    if i < cs.len() && is_digit(cs[i]) {
        lemma_digit_run(cs, i + 1);
    }
}

proof fn lemma_ident_run(cs: Seq<char>, i: int)
    requires
        0 <= i <= cs.len(),
    ensures
        i + ident_run(cs, i) <= cs.len(),
        forall|j: int| i <= j < i + ident_run(cs, i) ==> is_ident_char(#[trigger] cs[j]),
        i + ident_run(cs, i) < cs.len() ==> !is_ident_char(cs[i + ident_run(cs, i)]),
    decreases cs.len() - i,
{
    if i < cs.len() && is_ident_char(cs[i]) {
        lemma_ident_run(cs, i + 1);
    }
}

fn char_at(chars: &[char], i: usize, c: char) -> (r: bool)
    ensures
        r == at(chars@, i as int, c),
{
    i < chars.len() && chars[i] == c
}

fn word_at(chars: &[char], p: usize, w: &[char]) -> (r: bool)
    ensures
        r == kw_at(chars@, p as int, w@),
{
    if !letters_at(chars, p, w) {
        return false;
    }
    let len = chars.len();
    let wl = w.len();
    assert(p + wl <= len);
    let e = p + wl;
    e == len || !(char_is_alphanumeric(chars[e]) || chars[e] == '_')
}

fn letters_at(chars: &[char], p: usize, w: &[char]) -> (r: bool)
    ensures
        r == (p + w@.len() <= chars@.len() && forall|i: int|
            0 <= i < w@.len() ==> #[trigger] chars@[p + i] == w@[i]),
{
    if p > chars.len() || w.len() > chars.len() - p {
        return false;
    }
    let len = chars.len();
    let mut i: usize = 0;
    while i < w.len()
        invariant
            len == chars@.len(),
            p + w@.len() <= chars@.len(),
            i <= w@.len(),
            forall|j: int| 0 <= j < i ==> #[trigger] chars@[p + j] == w@[j],
        decreases w.len() - i,
    {
        if chars[p + i] != w[i] {
            assert(chars@[p + i as int] != w@[i as int]);
            return false;
        }
        i = i + 1;
    }
    true
}

/// Reads the decimal integer at the start of `chars`; returns its value
/// and the number of digits read. A slice that does not start with a
/// digit reads as `(0, 0)`.
pub fn lex_int(chars: &[char]) -> (r: (i64, usize))
    requires
        digits_value(chars@, 0, digit_run(chars@, 0) as int) <= i64::MAX,
    ensures
        r.1 == digit_run(chars@, 0),
        r.0 == digits_value(chars@, 0, r.1 as int),
{
    lex_int_at(chars, 0)
}

fn lex_int_at(chars: &[char], p: usize) -> (r: (i64, usize))
    requires
        p <= chars@.len(),
        digits_value(chars@, p as int, p + digit_run(chars@, p as int)) <= i64::MAX,
    ensures
        r.1 == digit_run(chars@, p as int),
        r.0 == digits_value(chars@, p as int, p + r.1),
{
    let ghost cs = chars@;
    proof {
        lemma_digit_run(cs, p as int);
    }
    let ghost n = digit_run(cs, p as int);
    let len = chars.len();
    let mut skip_len: usize = 0;
    let mut value: i64 = 0;
    while p + skip_len < len && '0' <= chars[p + skip_len] && chars[p + skip_len] <= '9'
        invariant
            len == cs.len(),
            cs == chars@,
            p + n <= cs.len(),
            forall|j: int| p <= j < p + n ==> is_digit(#[trigger] cs[j]),
            p + n < cs.len() ==> !is_digit(cs[p + n]),
            digits_value(cs, p as int, p + n) <= i64::MAX,
            skip_len <= n,
            value == digits_value(cs, p as int, p + skip_len),
        decreases n - skip_len,
    {
        assert(skip_len < n);
        proof {
            lemma_digits_monotone(cs, p as int, p + skip_len + 1, p + n);
            lemma_digits_nonneg(cs, p as int, p + skip_len);
        }
        let d = (chars[p + skip_len] as u32 - '0' as u32) as i64;
        assert(digits_value(cs, p as int, p + skip_len + 1) == value * 10 + d);
        value = value * 10 + d;
        skip_len = skip_len + 1;
    }
    (value, skip_len)
}

/// Reads the identifier that starts at position `p`; returns its text and
/// its length.
fn lex_idef(chars: &[char], p: usize) -> (r: (String, usize))
    requires
        p < chars@.len(),
        is_ident_start(chars@[p as int]),
    ensures
        r.1 == 1 + ident_run(chars@, p + 1),
        r.0@ == chars@.subrange(p as int, p + r.1),
{
    let ghost cs = chars@;
    proof {
        lemma_ident_run(cs, p + 1);
    }
    let ghost n = 1 + ident_run(cs, p + 1);
    let len = chars.len();
    let mut skip_len: usize = 0;
    let mut var_name = String::new();
    while p + skip_len < len && (char_is_alphanumeric(chars[p + skip_len]) || chars[p + skip_len]
        == '_')
        invariant
            cs == chars@,
            len == cs.len(),
            p + n <= cs.len(),
            is_ident_start(cs[p as int]),
            forall|j: int| p + 1 <= j < p + n ==> is_ident_char(#[trigger] cs[j]),
            p + n < cs.len() ==> !is_ident_char(cs[p + n]),
            skip_len <= n,
            var_name@ == cs.subrange(p as int, p + skip_len),
        decreases n - skip_len,
    {
        assert(skip_len < n) by {
            if skip_len == n {
                assert(is_ident_char(cs[p + n]));
            }
        }
        push_char(&mut var_name, chars[p + skip_len]);
        skip_len = skip_len + 1;
        assert(var_name@ =~= cs.subrange(p as int, p + skip_len));
    }
    assert(skip_len == n) by {
        if skip_len < n {
            if skip_len == 0 {
                assert(is_ident_start(cs[p as int]));
            } else {
                assert(is_ident_char(cs[p + skip_len]));
            }
        }
    }
    (var_name, skip_len)
}

/// Whether the digits from `p` on have a value beyond `i64::MAX`.
fn digits_too_large(chars: &[char], p: usize) -> (r: bool)
    requires
        p < chars@.len(),
        is_digit(chars@[p as int]),
    ensures
        r == (digits_value(chars@, p as int, p + 1 + digit_run(chars@, p + 1)) > i64::MAX),
{
    let ghost cs = chars@;
    proof {
        lemma_digit_run(cs, p + 1);
    }
    let ghost n = 1 + digit_run(cs, p + 1);
    let len = chars.len();
    let mut k: usize = 0;
    let mut value: u64 = 0;
    while p + k < len && '0' <= chars[p + k] && chars[p + k] <= '9'
        invariant
            cs == chars@,
            len == cs.len(),
            p + n <= cs.len(),
            n == 1 + digit_run(cs, p + 1),
            forall|j: int| p <= j < p + n ==> is_digit(#[trigger] cs[j]),
            p + n < cs.len() ==> !is_digit(cs[p + n]),
            k <= n,
            value == digits_value(cs, p as int, p + k),
            value <= i64::MAX,
        decreases n - k,
    {
        assert(k < n);
        let d = (chars[p + k] as u32 - '0' as u32) as u64;
        assert(digits_value(cs, p as int, p + k + 1) == value * 10 + d);
        if value > (9223372036854775807u64 - d) / 10 {
            proof {
                lemma_digits_monotone(cs, p as int, p + k + 1, p + n);
            }
            assert(value * 10 + d > i64::MAX) by (nonlinear_arith)
                requires value > (9223372036854775807u64 - d) / 10, d < 10;
            return true;
        }
        assert(value * 10 + d <= i64::MAX) by (nonlinear_arith)
            requires value <= (9223372036854775807u64 - d) / 10, d < 10;
        value = value * 10 + d;
        k = k + 1;
    }
    assert(k == n) by {
        if k < n {
            assert(is_digit(cs[p + k]));
        }
    }
    false
}

/// The lexer's step in executable form.
enum Scan {
    Emit(Token, usize),
    Blank,
    Bad(char),
    Overflow,
}

impl Scan {
    spec fn matches(&self, s: LexStep) -> bool {
        match (self, s) {
            (Scan::Emit(t, k), LexStep::Emit(tv, kv)) => t@ == tv && k == kv,
            (Scan::Blank, LexStep::Blank) => true,
            (Scan::Bad(c), LexStep::Bad(cv)) => *c == cv,
            (Scan::Overflow, LexStep::Overflow) => true,
            _ => false,
        }
    }
}

fn scan(chars: &[char], p: usize) -> (r: Scan)
    requires
        p <= chars@.len(),
    ensures
        r.matches(lex_step(chars@, p as int)),
        r matches Scan::Emit(_, k) ==> 1 <= k && p + k <= chars@.len(),
{
    let ghost cs = chars@;
    if p >= chars.len() {
        return Scan::Blank;
    }
    let c = chars[p];
    if char_at(chars, p, ':') && char_at(chars, p + 1, '=') {
        Scan::Emit(Token::Op(Operator::Assign), 2)
    } else if char_at(chars, p, '<') && char_at(chars, p + 1, '=') {
        Scan::Emit(Token::Op(Operator::Leq), 2)
    } else if c == '=' {
        Scan::Emit(Token::Op(Operator::Equ), 1)
    } else if c == '+' {
        Scan::Emit(Token::Op(Operator::Add), 1)
    } else if c == '-' {
        Scan::Emit(Token::Op(Operator::Sub), 1)
    } else if c == '*' {
        Scan::Emit(Token::Op(Operator::Mul), 1)
    } else if c == '!' {
        Scan::Emit(Token::Op(Operator::Not), 1)
    } else if c == '&' {
        Scan::Emit(Token::Op(Operator::And), 1)
    } else if c == ';' {
        Scan::Emit(Token::Op(Operator::Semicolon), 1)
    } else if c == '(' {
        Scan::Emit(Token::Del(Delimiter::LParen), 1)
    } else if c == ')' {
        Scan::Emit(Token::Del(Delimiter::RParen), 1)
    } else if word_at(chars, p, &['i', 'f']) {
        Scan::Emit(Token::Kw(Keyword::If), 2)
    } else if word_at(chars, p, &['t', 'h', 'e', 'n']) {
        Scan::Emit(Token::Kw(Keyword::Then), 4)
    } else if word_at(chars, p, &['e', 'l', 's', 'e']) {
        Scan::Emit(Token::Kw(Keyword::Else), 4)
    } else if word_at(chars, p, &['w', 'h', 'i', 'l', 'e']) {
        Scan::Emit(Token::Kw(Keyword::While), 5)
    } else if word_at(chars, p, &['d', 'o']) {
        Scan::Emit(Token::Kw(Keyword::Do), 2)
    } else if word_at(chars, p, &['s', 'k', 'i', 'p']) {
        Scan::Emit(Token::Kw(Keyword::Skip), 4)
    } else if word_at(chars, p, &['e', 'n', 'd']) {
        Scan::Emit(Token::Kw(Keyword::End), 3)
    } else if word_at(chars, p, &['t', 'r', 'u', 'e']) {
        Scan::Emit(Token::Lit(Literal::True), 4)
    } else if word_at(chars, p, &['f', 'a', 'l', 's', 'e']) {
        Scan::Emit(Token::Lit(Literal::False), 5)
    } else if '0' <= c && c <= '9' {
        proof {
            lemma_digit_run(cs, p + 1);
            lemma_digits_monotone(cs, p as int, p as int, p + 1 + digit_run(cs, p + 1));
        }
        if digits_too_large(chars, p) {
            Scan::Overflow
        } else {
            let (v, n) = lex_int_at(chars, p);
            Scan::Emit(Token::Lit(Literal::Int(v)), n)
        }
    } else if ('a' <= c && c <= 'z') || ('A' <= c && c <= 'Z') {
        proof {
            lemma_ident_run(cs, p + 1);
        }
        let (name, n) = lex_idef(chars, p);
        Scan::Emit(Token::Idf(Identifier::Variable(name)), n)
    } else if c == '\n' || c == '\t' || c == '\r' || c == ' ' {
        Scan::Blank
    } else {
        Scan::Bad(c)
    }
}

} // verus!

verus! {

/// How the lexer's loop ended.
enum LexStop {
    Finished,
    Unknown(char),
    Panicked,
}

/// Appends to `tokens` what lexing `chars` yields, as `lex_spec` states it.
fn lex_into(chars: &[char], tokens: &mut Vec<Token>) -> (r: LexStop)
    ensures
        match lex_spec(chars@) {
            LexOutcome::Done(ts) => r is Finished && tokens_view(final(tokens)@) == tokens_view(
                old(tokens)@,
            ) + ts,
            LexOutcome::Failed(ts, c) => r == LexStop::Unknown(c) && tokens_view(final(tokens)@)
                == tokens_view(old(tokens)@) + ts,
            LexOutcome::Panics => r is Panicked,
        },
{
    let ghost cs = chars@;
    let ghost start = tokens_view(tokens@);
    let len = chars.len();
    let mut p: usize = 0;
    let ghost mut emitted: Seq<TokenV> = seq![];
    loop
        invariant
            cs == chars@,
            len == cs.len(),
            p <= len,
            lex_spec(cs) == after(emitted, lex_from(cs, p as int)),
            tokens_view(tokens@) == start + emitted,
            start == tokens_view(old(tokens)@),
        decreases len - p,
    {
        let ghost before = tokens@;
        match scan(chars, p) {
            Scan::Emit(t, k) => {
                let ghost tv = t@;
                tokens.push(t);
                assert(tokens_view(tokens@) =~= tokens_view(before).push(tv));
                if k < len - p {
                    proof {
                        assert(after(emitted, after(seq![tv], lex_from(cs, p + k))) == after(
                            emitted + seq![tv],
                            lex_from(cs, p + k),
                        )) by {
                            assert(emitted + (seq![tv] + Seq::<TokenV>::empty()) =~= emitted
                                + seq![tv] + Seq::<TokenV>::empty());
                            match lex_from(cs, p + k) {
                                LexOutcome::Done(us) => {
                                    assert(emitted + (seq![tv] + us) =~= emitted + seq![tv] + us);
                                },
                                LexOutcome::Failed(us, c) => {
                                    assert(emitted + (seq![tv] + us) =~= emitted + seq![tv] + us);
                                },
                                LexOutcome::Panics => {},
                            }
                        }
                        emitted = emitted + seq![tv];
                    }
                    p = p + k;
                } else {
                    assert(lex_from(cs, p as int) == LexOutcome::Done(seq![tv, TokenV::End]));
                    let ghost mid = tokens@;
                    tokens.push(Token::End);
                    assert(tokens_view(tokens@) =~= tokens_view(mid).push(TokenV::End));
                    assert(tokens_view(tokens@) =~= start + (emitted + seq![tv, TokenV::End]));
                    return LexStop::Finished;
                }
            },
            Scan::Blank => {
                if p < len && 1 < len - p {
                    p = p + 1;
                } else {
                    assert(lex_from(cs, p as int) == LexOutcome::Done(seq![TokenV::End]));
                    tokens.push(Token::End);
                    assert(tokens_view(tokens@) =~= tokens_view(before).push(TokenV::End));
                    assert(tokens_view(tokens@) =~= start + (emitted + seq![TokenV::End]));
                    return LexStop::Finished;
                }
            },
            Scan::Bad(c) => {
                assert(lex_from(cs, p as int) == LexOutcome::Failed(seq![], c));
                assert(emitted + Seq::<TokenV>::empty() =~= emitted);
                return LexStop::Unknown(c);
            },
            Scan::Overflow => {
                return LexStop::Panicked;
            },
        }
    }
}

/// Lexes `chars` and appends the tokens to `tokens`, ending them with
/// `Token::End`. On a character that starts no token it stops there,
/// with the tokens before it appended, and returns that character as a
/// `LexError::UnidentifiedToken`. Blanks (space, tab, newline, carriage
/// return) separate tokens and yield none.
///
/// The inputs on which the lexer cannot go on (an integer literal beyond
/// `i64::MAX`) are left out; `lex` reports them.
pub fn parse_tokens(chars: &[char], tokens: &mut Vec<Token>) -> (r: Result<(), UserDefinedError>)
    requires
        !(lex_spec(chars@) is Panics),
    ensures
        match lex_spec(chars@) {
            LexOutcome::Done(ts) => r is Ok && tokens_view(final(tokens)@) == tokens_view(
                old(tokens)@,
            ) + ts,
            LexOutcome::Failed(ts, c) => r matches Err(
                UserDefinedError::Lex(LexError::UnidentifiedToken(d)),
            ) && d == c && tokens_view(final(tokens)@) == tokens_view(old(tokens)@) + ts,
            LexOutcome::Panics => false,
        },
{
    match lex_into(chars, tokens) {
        LexStop::Finished => Ok(()),
        LexStop::Unknown(c) => Err(UserDefinedError::Lex(LexError::UnidentifiedToken(c))),
        LexStop::Panicked => Err(UserDefinedError::Lex(LexError::UnidentifiedToken(' '))),
    }
}

/// Lexes `chars` into a fresh vector of tokens. Returns `None` exactly on
/// the inputs that `parse_tokens` leaves out, and otherwise what
/// `parse_tokens` gives: the tokens, or the error.
pub fn lex(chars: &[char]) -> (r: Option<Result<Vec<Token>, UserDefinedError>>)
    ensures
        match lex_spec(chars@) {
            LexOutcome::Done(ts) => r matches Some(Ok(v)) && tokens_view(v@) == ts,
            LexOutcome::Failed(_, c) => r matches Some(
                Err(UserDefinedError::Lex(LexError::UnidentifiedToken(d))),
            ) && d == c,
            LexOutcome::Panics => r is None,
        },
{
    let mut scratch: Vec<Token> = Vec::new();
    if let LexStop::Panicked = lex_into(chars, &mut scratch) {
        return None;
    }
    let mut tokens: Vec<Token> = Vec::new();
    assert(tokens_view(tokens@) =~= Seq::<TokenV>::empty());
    match parse_tokens(chars, &mut tokens) {
        Ok(()) => {
            proof {
                if let LexOutcome::Done(ts) = lex_spec(chars@) {
                    assert(tokens_view(tokens@) =~= ts);
                }
            }
            Some(Ok(tokens))
        },
        Err(e) => Some(Err(e)),
    }
}

/// Lexing that succeeds ends with `End`, and `End` nowhere else.
pub proof fn law_lexing_ends_with_end(cs: Seq<char>)
    ensures
        lex_spec(cs) matches LexOutcome::Done(ts) ==> {
            &&& ts.len() > 0
            &&& ts.last() == TokenV::End
            &&& forall|i: int| 0 <= i < ts.len() - 1 ==> ts[i] != TokenV::End
        },
{
    lemma_lex_from_ends_with_end(cs, 0);
}

proof fn lemma_lex_from_ends_with_end(cs: Seq<char>, p: int)
    ensures
        lex_from(cs, p) matches LexOutcome::Done(ts) ==> {
            &&& ts.len() > 0
            &&& ts.last() == TokenV::End
            &&& forall|i: int| 0 <= i < ts.len() - 1 ==> ts[i] != TokenV::End
        },
    decreases cs.len() - p,
{
    match lex_step(cs, p) {
        LexStep::Blank => {
            if 0 <= p && p + 1 < cs.len() {
                lemma_lex_from_ends_with_end(cs, p + 1);
            }
        },
        LexStep::Emit(t, k) => {
            if 0 <= p && 1 <= k && p + k < cs.len() {
                lemma_lex_from_ends_with_end(cs, p + k);
                if let LexOutcome::Done(us) = lex_from(cs, p + k) {
                    let ts = seq![t] + us;
                    assert forall|i: int| 0 <= i < ts.len() - 1 implies ts[i] != TokenV::End by {
                        if i > 0 {
                            assert(ts[i] == us[i - 1]);
                        }
                    }
                }
            }
        },
        _ => {},
    }
}

proof fn lemma_digit_run_shift(x: Seq<char>, cs: Seq<char>, i: int)
    requires
        0 <= i <= cs.len(),
    ensures
        digit_run(x + cs, i + x.len()) == digit_run(cs, i),
    decreases cs.len() - i,
{
    if i < cs.len() {
        assert((x + cs)[i + x.len()] == cs[i]);
        lemma_digit_run_shift(x, cs, i + 1);
    }
}

proof fn lemma_ident_run_shift(x: Seq<char>, cs: Seq<char>, i: int)
    requires
        0 <= i <= cs.len(),
    ensures
        ident_run(x + cs, i + x.len()) == ident_run(cs, i),
    decreases cs.len() - i,
{
    if i < cs.len() {
        assert((x + cs)[i + x.len()] == cs[i]);
        lemma_ident_run_shift(x, cs, i + 1);
    }
}

proof fn lemma_digits_value_shift(x: Seq<char>, cs: Seq<char>, start: int, end: int)
    requires
        0 <= start <= end <= cs.len(),
    ensures
        digits_value(x + cs, start + x.len(), end + x.len()) == digits_value(cs, start, end),
    decreases end - start,
{
    if start < end {
        lemma_digits_value_shift(x, cs, start, end - 1);
        assert((x + cs)[end - 1 + x.len()] == cs[end - 1]);
    }
}

proof fn lemma_kw_at_shift(x: Seq<char>, cs: Seq<char>, p: int, w: Seq<char>)
    requires
        0 <= p < cs.len(),
    ensures
        kw_at(x + cs, p + x.len(), w) == kw_at(cs, p, w),
{
    if p + w.len() < cs.len() {
        assert((x + cs)[p + x.len() + w.len()] == cs[p + w.len()]);
    }
    if kw_at(cs, p, w) {
        assert forall|i: int| 0 <= i < w.len() implies #[trigger] (x + cs)[p + x.len() + i] == w[i] by {
            assert(cs[p + i] == w[i]);
        }
    }
    if kw_at(x + cs, p + x.len(), w) {
        assert forall|i: int| 0 <= i < w.len() implies #[trigger] cs[p + i] == w[i] by {
            assert((x + cs)[p + x.len() + i] == w[i]);
        }
    }
}

proof fn lemma_lex_step_shift(x: Seq<char>, cs: Seq<char>, p: int)
    requires
        0 <= p < cs.len(),
    ensures
        lex_step(x + cs, p + x.len()) == lex_step(cs, p),
{
    let ys = x + cs;
    let q = p + x.len();
    assert(ys[q] == cs[p]);
    if p + 1 < cs.len() {
        assert(ys[q + 1] == cs[p + 1]);
    }
    lemma_kw_at_shift(x, cs, p, seq!['i', 'f']);
    lemma_kw_at_shift(x, cs, p, seq!['t', 'h', 'e', 'n']);
    lemma_kw_at_shift(x, cs, p, seq!['e', 'l', 's', 'e']);
    lemma_kw_at_shift(x, cs, p, seq!['w', 'h', 'i', 'l', 'e']);
    lemma_kw_at_shift(x, cs, p, seq!['d', 'o']);
    lemma_kw_at_shift(x, cs, p, seq!['s', 'k', 'i', 'p']);
    lemma_kw_at_shift(x, cs, p, seq!['e', 'n', 'd']);
    lemma_kw_at_shift(x, cs, p, seq!['t', 'r', 'u', 'e']);
    lemma_kw_at_shift(x, cs, p, seq!['f', 'a', 'l', 's', 'e']);
    lemma_digit_run(cs, p + 1);
    lemma_digit_run_shift(x, cs, p + 1);
    lemma_ident_run(cs, p + 1);
    lemma_ident_run_shift(x, cs, p + 1);
    let n = 1 + digit_run(cs, p + 1);
    if is_digit(cs[p]) && p + n <= cs.len() {
        lemma_digits_value_shift(x, cs, p, p + n);
    }
    let m = 1 + ident_run(cs, p + 1);
    if p + m <= cs.len() {
        assert(ys.subrange(q, q + m) =~= cs.subrange(p, p + m));
    }
}

proof fn lemma_lex_from_shift(x: Seq<char>, cs: Seq<char>, p: int)
    requires
        0 <= p < cs.len(),
    ensures
        lex_from(x + cs, p + x.len()) == lex_from(cs, p),
    decreases cs.len() - p,
{
    lemma_lex_step_shift(x, cs, p);
    match lex_step(cs, p) {
        LexStep::Blank => {
            if p + 1 < cs.len() {
                lemma_lex_from_shift(x, cs, p + 1);
            }
        },
        LexStep::Emit(t, k) => {
            if 1 <= k && p + k < cs.len() {
                lemma_lex_from_shift(x, cs, p + k);
            }
        },
        _ => {},
    }
}

/// Blanks before a program change nothing: lexing a blank followed by
/// `cs` is lexing `cs`.
pub proof fn law_leading_blank_ignored(c: char, cs: Seq<char>)
    requires
        is_blank(c),
    ensures
        lex_spec(seq![c] + cs) == lex_spec(cs),
{
    let ys = seq![c] + cs;
    assert(ys[0] == c);
    assert(lex_step(ys, 0) == LexStep::Blank) by {
        if kw_at(ys, 0, seq!['i', 'f']) { assert(ys[0int + 0int] == 'i'); }
        if kw_at(ys, 0, seq!['t', 'h', 'e', 'n']) { assert(ys[0int + 0int] == 't'); }
        if kw_at(ys, 0, seq!['e', 'l', 's', 'e']) { assert(ys[0int + 0int] == 'e'); }
        if kw_at(ys, 0, seq!['w', 'h', 'i', 'l', 'e']) { assert(ys[0int + 0int] == 'w'); }
        if kw_at(ys, 0, seq!['d', 'o']) { assert(ys[0int + 0int] == 'd'); }
        if kw_at(ys, 0, seq!['s', 'k', 'i', 'p']) { assert(ys[0int + 0int] == 's'); }
        if kw_at(ys, 0, seq!['e', 'n', 'd']) { assert(ys[0int + 0int] == 'e'); }
        if kw_at(ys, 0, seq!['t', 'r', 'u', 'e']) { assert(ys[0int + 0int] == 't'); }
        if kw_at(ys, 0, seq!['f', 'a', 'l', 's', 'e']) { assert(ys[0int + 0int] == 'f'); }
    }
    if cs.len() > 0 {
        lemma_lex_from_shift(seq![c], cs, 0);
    }
}

/// A token that is no negative integer literal.
pub open spec fn literal_nonneg(t: TokenV) -> bool {
    match t {
        TokenV::Lit(Literal::Int(v)) => v >= 0,
        _ => true,
    }
}

/// The lexer reads integer literals as digits only: no literal it produces
/// is negative.
pub proof fn law_lexed_literals_nonnegative(cs: Seq<char>, ts: Seq<TokenV>)
    requires
        lex_spec(cs) == LexOutcome::Done(ts),
    ensures
        forall|i: int| 0 <= i < ts.len() ==> literal_nonneg(#[trigger] ts[i]),
{
    lemma_lex_from_nonneg(cs, 0, ts);
}

proof fn lemma_step_nonneg(cs: Seq<char>, p: int)
    ensures
        lex_step(cs, p) matches LexStep::Emit(t, _) ==> literal_nonneg(t),
{
    if 0 <= p < cs.len() && is_digit(cs[p]) {
        lemma_digit_run(cs, p + 1);
        let n: int = 1 + digit_run(cs, p + 1) as int;
        lemma_digits_nonneg(cs, p, p + n);
    }
}

proof fn lemma_lex_from_nonneg(cs: Seq<char>, p: int, ts: Seq<TokenV>)
    requires
        lex_from(cs, p) == LexOutcome::Done(ts),
    ensures
        forall|i: int| 0 <= i < ts.len() ==> literal_nonneg(#[trigger] ts[i]),
    decreases cs.len() - p,
{
    lemma_step_nonneg(cs, p);
    match lex_step(cs, p) {
        LexStep::Blank => {
            if 0 <= p && p + 1 < cs.len() {
                lemma_lex_from_nonneg(cs, p + 1, ts);
            }
        },
        LexStep::Emit(t, k) => {
            if 0 <= p && 1 <= k && p + k < cs.len() {
                let us = lex_from(cs, p + k)->Done_0;
                lemma_lex_from_nonneg(cs, p + k, us);
                assert forall|i: int| 0 <= i < ts.len() implies literal_nonneg(#[trigger] ts[i]) by {
                    if i > 0 {
                        assert(ts[i] == us[i - 1]);
                    }
                }
            } else {
                assert forall|i: int| 0 <= i < ts.len() implies literal_nonneg(#[trigger] ts[i]) by {}
            }
        },
        _ => {},
    }
}

/// An ASCII letter, lower or upper case.
pub open spec fn is_ascii_letter(c: char) -> bool {
    'a' <= c <= 'z' || 'A' <= c <= 'Z'
}

/// The words that are keywords or boolean literals.
pub open spec fn reserved(w: Seq<char>) -> bool {
    ||| w == seq!['i', 'f']
    ||| w == seq!['t', 'h', 'e', 'n']
    ||| w == seq!['e', 'l', 's', 'e']
    ||| w == seq!['w', 'h', 'i', 'l', 'e']
    ||| w == seq!['d', 'o']
    ||| w == seq!['s', 'k', 'i', 'p']
    ||| w == seq!['e', 'n', 'd']
    ||| w == seq!['t', 'r', 'u', 'e']
    ||| w == seq!['f', 'a', 'l', 's', 'e']
}

/// `cs[p..n]` is a whole word: a letter followed by identifier characters,
/// with no identifier character after it.
pub open spec fn word_run(cs: Seq<char>, p: int, n: int) -> bool {
    &&& 0 <= p < n <= cs.len()
    &&& is_ascii_letter(cs[p])
    &&& forall|i: int| p < i < n ==> is_ident_char(#[trigger] cs[i])
    &&& (n == cs.len() || !is_ident_char(cs[n]))
}

proof fn lemma_word_run_length(cs: Seq<char>, p: int, n: int)
    requires
        word_run(cs, p, n),
    ensures
        n == p + 1 + ident_run(cs, p + 1),
{
    lemma_ident_run(cs, p + 1);
    let m = p + 1 + ident_run(cs, p + 1);
    if m < n {
        assert(is_ident_char(cs[m]));
    }
    if m > n {
        assert(is_ident_char(cs[n]));
    }
}

proof fn lemma_not_keyword_here(cs: Seq<char>, p: int, n: int, k: Seq<char>)
    requires
        word_run(cs, p, n),
        k.len() >= 1,
        forall|i: int| 0 <= i < k.len() ==> is_ascii_letter(#[trigger] k[i]),
        cs.subrange(p, n) != k,
    ensures
        !kw_at(cs, p, k),
{
    if kw_at(cs, p, k) {
        let e = p + k.len();
        if e < n {
            assert(is_ident_char(cs[e]));
        }
        if e > n {
            assert(cs[p + (n - p)] == k[n - p]);
            assert(is_ident_char(cs[n]));
        }
        assert(cs.subrange(p, n) =~= k) by {
            assert forall|i: int| 0 <= i < k.len() implies cs.subrange(p, n)[i] == k[i] by {
                assert(cs[p + i] == k[i]);
            }
        }
    }
}

/// A letter starts an identifier: where a letter (lower or upper case)
/// stands at `p` followed by identifier characters up to `n`, and the word
/// `cs[p..n]` is not a keyword, the lexer reads exactly that word as one
/// identifier and goes on after it.
pub proof fn law_letters_start_identifiers(cs: Seq<char>, p: int, n: int)
    requires
        word_run(cs, p, n),
        !reserved(cs.subrange(p, n)),
    ensures
        lex_step(cs, p) == LexStep::Emit(TokenV::Idf(cs.subrange(p, n)), n - p),
        lex_from(cs, p) == if n < cs.len() {
            after(seq![TokenV::Idf(cs.subrange(p, n))], lex_from(cs, n))
        } else {
            LexOutcome::Done(seq![TokenV::Idf(cs.subrange(p, n)), TokenV::End])
        },
{
    lemma_word_run_length(cs, p, n);
    lemma_not_keyword_here(cs, p, n, seq!['i', 'f']);
    lemma_not_keyword_here(cs, p, n, seq!['t', 'h', 'e', 'n']);
    lemma_not_keyword_here(cs, p, n, seq!['e', 'l', 's', 'e']);
    lemma_not_keyword_here(cs, p, n, seq!['w', 'h', 'i', 'l', 'e']);
    lemma_not_keyword_here(cs, p, n, seq!['d', 'o']);
    lemma_not_keyword_here(cs, p, n, seq!['s', 'k', 'i', 'p']);
    lemma_not_keyword_here(cs, p, n, seq!['e', 'n', 'd']);
    lemma_not_keyword_here(cs, p, n, seq!['t', 'r', 'u', 'e']);
    lemma_not_keyword_here(cs, p, n, seq!['f', 'a', 'l', 's', 'e']);
    assert(lex_step(cs, p) == LexStep::Emit(TokenV::Idf(cs.subrange(p, n)), n - p));
}

proof fn lemma_no_keyword_at_non_letter(cs: Seq<char>, p: int)
    requires
        0 <= p < cs.len(),
        !is_ascii_letter(cs[p]),
    ensures
        !kw_at(cs, p, seq!['i', 'f']),
        !kw_at(cs, p, seq!['t', 'h', 'e', 'n']),
        !kw_at(cs, p, seq!['e', 'l', 's', 'e']),
        !kw_at(cs, p, seq!['w', 'h', 'i', 'l', 'e']),
        !kw_at(cs, p, seq!['d', 'o']),
        !kw_at(cs, p, seq!['s', 'k', 'i', 'p']),
        !kw_at(cs, p, seq!['e', 'n', 'd']),
        !kw_at(cs, p, seq!['t', 'r', 'u', 'e']),
        !kw_at(cs, p, seq!['f', 'a', 'l', 's', 'e']),
{
    if kw_at(cs, p, seq!['i', 'f']) { assert(cs[p + 0] == 'i'); }
    if kw_at(cs, p, seq!['t', 'h', 'e', 'n']) { assert(cs[p + 0] == 't'); }
    if kw_at(cs, p, seq!['e', 'l', 's', 'e']) { assert(cs[p + 0] == 'e'); }
    if kw_at(cs, p, seq!['w', 'h', 'i', 'l', 'e']) { assert(cs[p + 0] == 'w'); }
    if kw_at(cs, p, seq!['d', 'o']) { assert(cs[p + 0] == 'd'); }
    if kw_at(cs, p, seq!['s', 'k', 'i', 'p']) { assert(cs[p + 0] == 's'); }
    if kw_at(cs, p, seq!['e', 'n', 'd']) { assert(cs[p + 0] == 'e'); }
    if kw_at(cs, p, seq!['t', 'r', 'u', 'e']) { assert(cs[p + 0] == 't'); }
    if kw_at(cs, p, seq!['f', 'a', 'l', 's', 'e']) { assert(cs[p + 0] == 'f'); }
}

/// A run of decimal digits is one integer literal with the value that
/// the digits denote in base ten, where it fits in `i64`.
pub proof fn law_digits_make_literals(cs: Seq<char>, p: int, n: int)
    requires
        0 <= p < n <= cs.len(),
        forall|i: int| p <= i < n ==> is_digit(#[trigger] cs[i]),
        n == cs.len() || !is_digit(cs[n]),
        digits_value(cs, p, n) <= i64::MAX,
    ensures
        lex_step(cs, p) == LexStep::Emit(TokenV::Lit(Literal::Int(digits_value(cs, p, n) as i64)), n - p),
        n == p + 1 ==> digits_value(cs, p, n) == cs[p] as int - '0' as int,
        n > p + 1 ==> digits_value(cs, p, n) == 10 * digits_value(cs, p, n - 1) + (cs[n - 1] as int - '0' as int),
{
    lemma_digit_run(cs, p + 1);
    let m = p + 1 + digit_run(cs, p + 1);
    if m < n {
        assert(is_digit(cs[m]));
    }
    if m > n {
        assert(is_digit(cs[n]));
    }
    assert(digits_value(cs, p, p) == 0);
    lemma_no_keyword_at_non_letter(cs, p);
    lemma_digits_nonneg(cs, p, n);
}

/// The symbols of the token table: each lexes as its operator or
/// delimiter (`:=` and `<=` as two characters).
pub proof fn law_symbol_tokens(cs: Seq<char>, p: int)
    requires
        0 <= p < cs.len(),
    ensures
        at(cs, p, ':') && at(cs, p + 1, '=') ==> lex_step(cs, p) == LexStep::Emit(TokenV::Op(Operator::Assign), 2),
        at(cs, p, '<') && at(cs, p + 1, '=') ==> lex_step(cs, p) == LexStep::Emit(TokenV::Op(Operator::Leq), 2),
        cs[p] == '=' ==> lex_step(cs, p) == LexStep::Emit(TokenV::Op(Operator::Equ), 1),
        cs[p] == '+' ==> lex_step(cs, p) == LexStep::Emit(TokenV::Op(Operator::Add), 1),
        cs[p] == '-' ==> lex_step(cs, p) == LexStep::Emit(TokenV::Op(Operator::Sub), 1),
        cs[p] == '*' ==> lex_step(cs, p) == LexStep::Emit(TokenV::Op(Operator::Mul), 1),
        cs[p] == '!' ==> lex_step(cs, p) == LexStep::Emit(TokenV::Op(Operator::Not), 1),
        cs[p] == '&' ==> lex_step(cs, p) == LexStep::Emit(TokenV::Op(Operator::And), 1),
        cs[p] == ';' ==> lex_step(cs, p) == LexStep::Emit(TokenV::Op(Operator::Semicolon), 1),
        cs[p] == '(' ==> lex_step(cs, p) == LexStep::Emit(TokenV::Del(Delimiter::LParen), 1),
        cs[p] == ')' ==> lex_step(cs, p) == LexStep::Emit(TokenV::Del(Delimiter::RParen), 1),
        is_blank(cs[p]) ==> lex_step(cs, p) == LexStep::Blank,
{
    if !is_ascii_letter(cs[p]) {
        lemma_no_keyword_at_non_letter(cs, p);
    }
}

} // verus!
