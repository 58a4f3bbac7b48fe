use vstd::prelude::*;
use crate::error::{SyntaxError, UserDefinedError};
use crate::lexer::{Delimiter, Identifier, Keyword, Literal, Operator, Token};

verus! {

/// Arithmetic expressions.
#[derive(Debug, PartialEq)]
pub enum AExpression {
    Int(i64),
    Var(String),
    Add(Box<AExpression>, Box<AExpression>),
    Sub(Box<AExpression>, Box<AExpression>),
    Mul(Box<AExpression>, Box<AExpression>),
}

/// Boolean expressions.
#[derive(Debug, PartialEq)]
pub enum BExpression {
    True,
    False,
    Equ(AExpression, AExpression),
    Leq(AExpression, AExpression),
    Not(Box<BExpression>),
    And(Box<BExpression>, Box<BExpression>),
}

/// Statements.
#[derive(Debug, PartialEq)]
pub enum Statement {
    Assign(String, AExpression),
    Skip,
    Sequence(Box<Statement>, Box<Statement>),
    If(BExpression, Box<Statement>, Box<Statement>),
    While(BExpression, Box<Statement>),
}

impl Clone for AExpression {
    /// A copy equal to `self`.
    fn clone(&self) -> (r: Self)
        ensures
            r == *self,
        decreases self,
    {
        match self {
            AExpression::Int(i) => AExpression::Int(*i),
            AExpression::Var(s) => AExpression::Var(s.clone()),
            AExpression::Add(l, r) => AExpression::Add(
                Box::new((**l).clone()),
                Box::new((**r).clone()),
            ),
            AExpression::Sub(l, r) => AExpression::Sub(
                Box::new((**l).clone()),
                Box::new((**r).clone()),
            ),
            AExpression::Mul(l, r) => AExpression::Mul(
                Box::new((**l).clone()),
                Box::new((**r).clone()),
            ),
        }
    }
}

impl Clone for BExpression {
    /// A copy equal to `self`.
    fn clone(&self) -> (r: Self)
        ensures
            r == *self,
        decreases self,
    {
        match self {
            BExpression::True => BExpression::True,
            BExpression::False => BExpression::False,
            BExpression::Equ(l, r) => BExpression::Equ(l.clone(), r.clone()),
            BExpression::Leq(l, r) => BExpression::Leq(l.clone(), r.clone()),
            BExpression::Not(b) => BExpression::Not(Box::new((**b).clone())),
            BExpression::And(l, r) => BExpression::And(
                Box::new((**l).clone()),
                Box::new((**r).clone()),
            ),
        }
    }
}

impl Clone for Statement {
    /// A copy equal to `self`.
    fn clone(&self) -> (r: Self)
        ensures
            r == *self,
        decreases self,
    {
        match self {
            Statement::Assign(v, e) => Statement::Assign(v.clone(), e.clone()),
            Statement::Skip => Statement::Skip,
            Statement::Sequence(a, b) => Statement::Sequence(
                Box::new((**a).clone()),
                Box::new((**b).clone()),
            ),
            Statement::If(c, a, b) => Statement::If(
                c.clone(),
                Box::new((**a).clone()),
                Box::new((**b).clone()),
            ),
            Statement::While(c, b) => Statement::While(c.clone(), Box::new((**b).clone())),
        }
    }
}

/// What a parse function comes to: `Some(Ok((value, consumed)))`,
/// `Some(Err(error))`, or `None` where parsing panics (negating the
/// literal `i64::MIN`).
pub type Parsed<T> = Option<Result<(T, int), SyntaxError>>;

/// An executable parse result agrees with what the specification says.
pub open spec fn agrees<T>(r: Result<(T, usize), UserDefinedError>, s: Parsed<T>) -> bool {
    match s {
        Some(Ok((v, n))) => r matches Ok((w, m)) && w == v && m == n,
        Some(Err(e)) => r matches Err(UserDefinedError::Syntax(f)) && f == e,
        None => false,
    }
}

/// The tokens of `input` from position `i` on.
pub open spec fn from(input: Seq<Token>, i: int) -> Seq<Token> {
    input.subrange(i, input.len() as int)
}

pub open spec fn tok_at(input: Seq<Token>, i: int, t: Token) -> bool {
    0 <= i < input.len() && input[i] == t
}

// ---------------------------------------------------------------------
// Arithmetic expressions
// ---------------------------------------------------------------------

/// The negation of a factor: the negated literal for a literal (`None`
/// where that overflows), and `0 - f` otherwise.
pub open spec fn negated(f: AExpression) -> Option<AExpression> {
    match f {
        AExpression::Int(i) => if i == i64::MIN {
            None
        } else {
            Some(AExpression::Int((-i) as i64))
        },
        _ => Some(AExpression::Sub(Box::new(AExpression::Int(0)), Box::new(f))),
    }
}

/// `Factor ::= '-' Factor | '(' AExpr ')' | Int | Ident`
pub open spec fn factor_spec(input: Seq<Token>) -> Parsed<AExpression>
    decreases input.len(), 0int, 0int,
{
    if input.len() == 0 {
        Some(Err(SyntaxError::UndefinedEnd))
    } else {
        match input[0] {
            Token::Lit(Literal::Int(i)) => Some(Ok((AExpression::Int(i), 1))),
            Token::Idf(Identifier::Variable(s)) => Some(Ok((AExpression::Var(s), 1))),
            Token::Op(Operator::Sub) => {
                if input.len() < 2 {
                    Some(Err(SyntaxError::UndefinedEnd))
                } else {
                    match factor_spec(from(input, 1)) {
                        None => None,
                        Some(Err(_)) => Some(Err(SyntaxError::UndefinedEnd)),
                        Some(Ok((f, k))) => match negated(f) {
                            None => None,
                            Some(g) => Some(Ok((g, k + 1))),
                        },
                    }
                }
            },
            Token::Del(Delimiter::LParen) => {
                if input.len() < 2 {
                    Some(Err(SyntaxError::UndefinedEnd))
                } else {
                    match aexpr_spec(from(input, 1)) {
                        None => None,
                        Some(Err(e)) => Some(Err(e)),
                        Some(Ok((e, c))) => if tok_at(input, 1 + c, Token::Del(Delimiter::RParen)) {
                            Some(Ok((e, c + 2)))
                        } else {
                            Some(Err(SyntaxError::UndefinedEnd))
                        },
                    }
                }
            },
            _ => Some(Err(SyntaxError::NoMatch)),
        }
    }
}

/// `Term ::= Factor ('*' Factor)*`, left associative.
pub open spec fn term_spec(input: Seq<Token>) -> Parsed<AExpression>
    decreases input.len(), 1int, 0int,
{
    match factor_spec(input) {
        None => None,
        Some(Err(e)) => Some(Err(e)),
        Some(Ok((left, c))) => term_rest_spec(input, left, c),
    }
}

/// The `('*' Factor)*` part of a term, after `left` read up to position `c`.
pub open spec fn term_rest_spec(input: Seq<Token>, left: AExpression, c: int) -> Parsed<AExpression>
    decreases input.len(), 0int, input.len() - c,
{
    if 0 <= c && tok_at(input, c, Token::Op(Operator::Mul)) {
        match factor_spec(from(input, c + 1)) {
            None => None,
            Some(Err(e)) => Some(Err(e)),
            Some(Ok((right, k))) => if 0 <= k && c + 1 + k <= input.len() {
                term_rest_spec(
                    input,
                    AExpression::Mul(Box::new(left), Box::new(right)),
                    c + 1 + k,
                )
            } else {
                None
            },
        }
    } else {
        Some(Ok((left, c)))
    }
}

/// `AExpr ::= Term (('+' | '-') Term)*`, left associative.
pub open spec fn aexpr_spec(input: Seq<Token>) -> Parsed<AExpression>
    decreases input.len(), 2int, 0int,
{
    match term_spec(input) {
        None => None,
        Some(Err(e)) => Some(Err(e)),
        Some(Ok((left, c))) => aexpr_rest_spec(input, left, c),
    }
}

/// The `(('+' | '-') Term)*` part of an arithmetic expression.
pub open spec fn aexpr_rest_spec(input: Seq<Token>, left: AExpression, c: int) -> Parsed<
    AExpression,
>
    decreases input.len(), 1int, input.len() - c,
{
    if 0 <= c && (tok_at(input, c, Token::Op(Operator::Add)) || tok_at(
        input,
        c,
        Token::Op(Operator::Sub),
    )) {
        match term_spec(from(input, c + 1)) {
            None => None,
            Some(Err(e)) => Some(Err(e)),
            Some(Ok((right, k))) => if 0 <= k && c + 1 + k <= input.len() {
                let e = if input[c] == Token::Op(Operator::Add) {
                    AExpression::Add(Box::new(left), Box::new(right))
                } else {
                    AExpression::Sub(Box::new(left), Box::new(right))
                };
                aexpr_rest_spec(input, e, c + 1 + k)
            } else {
                None
            },
        }
    } else {
        Some(Ok((left, c)))
    }
}

// ---------------------------------------------------------------------
// Boolean expressions
// ---------------------------------------------------------------------

/// `BFactor ::= '(' BExpr ')' | 'true' | 'false'`
pub open spec fn bfactor_spec(input: Seq<Token>) -> Parsed<BExpression>
    decreases input.len(), 0int, 0int,
{
    if input.len() == 0 {
        Some(Err(SyntaxError::UndefinedEnd))
    } else {
        match input[0] {
            Token::Lit(Literal::True) => Some(Ok((BExpression::True, 1))),
            Token::Lit(Literal::False) => Some(Ok((BExpression::False, 1))),
            Token::Del(Delimiter::LParen) => {
                if input.len() < 2 {
                    Some(Err(SyntaxError::UndefinedEnd))
                } else {
                    match bexpr_spec(from(input, 1)) {
                        None => None,
                        Some(Err(e)) => Some(Err(e)),
                        Some(Ok((e, c))) => if tok_at(input, 1 + c, Token::Del(Delimiter::RParen)) {
                            Some(Ok((e, c + 2)))
                        } else {
                            Some(Err(SyntaxError::UndefinedEnd))
                        },
                    }
                }
            },
            _ => Some(Err(SyntaxError::NoMatch)),
        }
    }
}

/// The relational comparison `l op r` once `l` is read up to `cl`.
pub open spec fn relation_spec(input: Seq<Token>, left: AExpression, cl: int) -> Parsed<BExpression>
{
    if input.len() < cl + 2 {
        Some(Err(SyntaxError::UndefinedEnd))
    } else {
        match aexpr_spec(from(input, cl + 1)) {
            None => None,
            Some(Ok((right, cr))) => Some(
                Ok(
                    (
                        if input[cl] == Token::Op(Operator::Equ) {
                            BExpression::Equ(left, right)
                        } else {
                            BExpression::Leq(left, right)
                        },
                        cl + 1 + cr,
                    ),
                ),
            ),
            Some(Err(_)) => Some(Err(SyntaxError::UndefinedEnd)),
        }
    }
}

/// `BComp ::= '!' BComp | AExpr ('=' | '<=') AExpr | BFactor`: a
/// comparison is tried first, and the boolean factor where no comparison
/// parses.
pub open spec fn bcomp_spec(input: Seq<Token>) -> Parsed<BExpression>
    decreases input.len(), 1int, 0int,
{
    if input.len() == 0 {
        Some(Err(SyntaxError::UndefinedEnd))
    } else if input[0] == Token::Op(Operator::Not) {
        if input.len() < 2 {
            Some(Err(SyntaxError::UndefinedEnd))
        } else {
            match bcomp_spec(from(input, 1)) {
                None => None,
                Some(Err(e)) => Some(Err(e)),
                Some(Ok((b, c))) => Some(Ok((BExpression::Not(Box::new(b)), c + 1))),
            }
        }
    } else {
        match aexpr_spec(input) {
            None => None,
            Some(Err(_)) => bfactor_spec(input),
            Some(Ok((left, cl))) => {
                if 0 <= cl < input.len() {
                    if input[cl] == Token::Op(Operator::Equ) || input[cl] == Token::Op(
                        Operator::Leq,
                    ) {
                        relation_spec(input, left, cl)
                    } else {
                        bfactor_spec(input)
                    }
                } else {
                    Some(Err(SyntaxError::UndefinedEnd))
                }
            },
        }
    }
}

/// `BExpr ::= BComp ('&' BComp)*`, left associative.
pub open spec fn bexpr_spec(input: Seq<Token>) -> Parsed<BExpression>
    decreases input.len(), 2int, 0int,
{
    match bcomp_spec(input) {
        None => None,
        Some(Err(e)) => Some(Err(e)),
        Some(Ok((left, c))) => bexpr_rest_spec(input, left, c),
    }
}

/// The `('&' BComp)*` part of a boolean expression.
pub open spec fn bexpr_rest_spec(input: Seq<Token>, left: BExpression, c: int) -> Parsed<BExpression>
    decreases input.len(), 1int, input.len() - c,
{
    if 0 <= c && tok_at(input, c, Token::Op(Operator::And)) {
        match bcomp_spec(from(input, c + 1)) {
            None => None,
            Some(Err(e)) => Some(Err(e)),
            Some(Ok((right, k))) => if 0 <= k && c + 1 + k <= input.len() {
                bexpr_rest_spec(
                    input,
                    BExpression::And(Box::new(left), Box::new(right)),
                    c + 1 + k,
                )
            } else {
                None
            },
        }
    } else {
        Some(Ok((left, c)))
    }
}

// ---------------------------------------------------------------------
// Statements
// ---------------------------------------------------------------------

/// `Ident ':=' AExpr`
pub open spec fn assign_spec(input: Seq<Token>) -> Parsed<Statement> {
    if input.len() == 0 {
        Some(Err(SyntaxError::InvalidAssign))
    } else {
        match input[0] {
            Token::Idf(Identifier::Variable(name)) => {
                if tok_at(input, 1, Token::Op(Operator::Assign)) {
                    if input.len() < 3 {
                        Some(Err(SyntaxError::UndefinedEnd))
                    } else {
                        match aexpr_spec(from(input, 2)) {
                            None => None,
                            Some(Err(e)) => Some(Err(e)),
                            Some(Ok((e, c))) => Some(Ok((Statement::Assign(name, e), c + 2))),
                        }
                    }
                } else {
                    Some(Err(SyntaxError::InvalidAssign))
                }
            },
            _ => Some(Err(SyntaxError::InvalidAssign)),
        }
    }
}

/// The error for a missing keyword at position `i`: `missing` where some
/// other token stands there, `UndefinedEnd` where the input has ended.
pub open spec fn missing_kw(input: Seq<Token>, i: int, missing: SyntaxError) -> SyntaxError {
    if 0 <= i < input.len() {
        missing
    } else {
        SyntaxError::UndefinedEnd
    }
}

/// `'if' BExpr 'then' Stmt 'else' Stmt 'end'`, with `input[0]` the `if`.
pub open spec fn if_spec(input: Seq<Token>) -> Parsed<Statement>
    decreases input.len(), 0int,
{
    if input.len() == 0 {
        None
    } else {
        match bexpr_spec(from(input, 1)) {
            None => None,
            Some(Err(e)) => Some(Err(e)),
            Some(Ok((cond, cc))) => {
                let c1 = 1 + cc;
                if !tok_at(input, c1, Token::Kw(Keyword::Then)) {
                    Some(Err(missing_kw(input, c1, SyntaxError::ExpectedThen)))
                } else {
                    match stmt_spec(from(input, c1 + 1)) {
                        None => None,
                        Some(Err(e)) => Some(Err(e)),
                        Some(Ok((s1, k1))) => {
                            let c2 = c1 + 1 + k1;
                            if !tok_at(input, c2, Token::Kw(Keyword::Else)) {
                                Some(Err(missing_kw(input, c2, SyntaxError::ExpectedElse)))
                            } else {
                                match stmt_spec(from(input, c2 + 1)) {
                                    None => None,
                                    Some(Err(e)) => Some(Err(e)),
                                    Some(Ok((s2, k2))) => {
                                        let c3 = c2 + 1 + k2;
                                        if !tok_at(input, c3, Token::Kw(Keyword::End)) {
                                            Some(
                                                Err(
                                                    missing_kw(input, c3, SyntaxError::ExpectedEnd),
                                                ),
                                            )
                                        } else {
                                            Some(
                                                Ok(
                                                    (
                                                        Statement::If(
                                                            cond,
                                                            Box::new(s1),
                                                            Box::new(s2),
                                                        ),
                                                        c3 + 1,
                                                    ),
                                                ),
                                            )
                                        }
                                    },
                                }
                            }
                        },
                    }
                }
            },
        }
    }
}

/// `'while' BExpr 'do' Stmt 'end'`, with `input[0]` the `while`.
pub open spec fn while_spec(input: Seq<Token>) -> Parsed<Statement>
    decreases input.len(), 0int,
{
    if input.len() == 0 {
        None
    } else {
        match bexpr_spec(from(input, 1)) {
            None => None,
            Some(Err(e)) => Some(Err(e)),
            Some(Ok((cond, cc))) => {
                let c1 = 1 + cc;
                if !tok_at(input, c1, Token::Kw(Keyword::Do)) {
                    Some(Err(missing_kw(input, c1, SyntaxError::ExpectedDo)))
                } else {
                    match stmt_spec(from(input, c1 + 1)) {
                        None => None,
                        Some(Err(e)) => Some(Err(e)),
                        Some(Ok((body, k))) => {
                            let c2 = c1 + 1 + k;
                            if !tok_at(input, c2, Token::Kw(Keyword::End)) {
                                Some(Err(missing_kw(input, c2, SyntaxError::ExpectedEnd)))
                            } else {
                                Some(Ok((Statement::While(cond, Box::new(body)), c2 + 1)))
                            }
                        },
                    }
                }
            },
        }
    }
}

/// The statement that starts `input`, before any `;`. An identifier starts
/// an assignment: without `:=` after it, that is `InvalidAssign`.
pub open spec fn simple_stmt_spec(input: Seq<Token>) -> Parsed<Statement>
    decreases input.len(), 1int,
{
    if input.len() == 0 {
        Some(Err(SyntaxError::UndefinedEnd))
    } else {
        match input[0] {
            Token::Idf(_) => assign_spec(input),
            Token::Kw(Keyword::If) => if_spec(input),
            Token::Kw(Keyword::While) => while_spec(input),
            Token::Kw(Keyword::Skip) => Some(Ok((Statement::Skip, 1))),
            Token::Kw(Keyword::Then) => Some(Err(SyntaxError::ThenWithoutIf)),
            Token::Kw(Keyword::Else) => Some(Err(SyntaxError::ElseWithoutIf)),
            Token::Kw(Keyword::Do) => Some(Err(SyntaxError::DoWithoutWhile)),
            Token::Kw(Keyword::End) => Some(Err(SyntaxError::EndWithoutBlock)),
            _ => Some(Err(SyntaxError::UndefinedEnd)),
        }
    }
}

/// `Stmt ::= SimpleStmt (';' Stmt)?`, so that sequencing nests to the right.
pub open spec fn stmt_spec(input: Seq<Token>) -> Parsed<Statement>
    decreases input.len(), 2int,
{
    match simple_stmt_spec(input) {
        None => None,
        Some(Err(e)) => Some(Err(e)),
        Some(Ok((st, c))) => {
            if 0 <= c && tok_at(input, c, Token::Op(Operator::Semicolon)) {
                match stmt_spec(from(input, c + 1)) {
                    None => None,
                    Some(Err(e)) => Some(Err(e)),
                    Some(Ok((right, rc))) => Some(
                        Ok((Statement::Sequence(Box::new(st), Box::new(right)), c + 1 + rc)),
                    ),
                }
            } else {
                Some(Ok((st, c)))
            }
        },
    }
}

/// A whole program: a statement followed by `End`. `None` where parsing
/// panics.
pub open spec fn parse_spec(input: Seq<Token>) -> Option<Result<Statement, SyntaxError>> {
    match stmt_spec(input) {
        None => None,
        Some(Err(e)) => Some(Err(e)),
        Some(Ok((st, c))) => if tok_at(input, c, Token::End) {
            Some(Ok(st))
        } else {
            Some(Err(missing_kw(input, c, SyntaxError::UnconsumedTokens)))
        },
    }
}

// ---------------------------------------------------------------------
// Executable parser
// ---------------------------------------------------------------------

fn is_tok_op(input: &[Token], i: usize, o: Operator) -> (r: bool)
    ensures
        r == tok_at(input@, i as int, Token::Op(o)),
{
    if i < input.len() {
        match &input[i] {
            Token::Op(p) => *p == o,
            _ => false,
        }
    } else {
        false
    }
}

fn is_tok_del(input: &[Token], i: usize, d: Delimiter) -> (r: bool)
    ensures
        r == tok_at(input@, i as int, Token::Del(d)),
{
    if i < input.len() {
        match &input[i] {
            Token::Del(e) => *e == d,
            _ => false,
        }
    } else {
        false
    }
}

fn is_tok_kw(input: &[Token], i: usize, k: Keyword) -> (r: bool)
    ensures
        r == tok_at(input@, i as int, Token::Kw(k)),
{
    if i < input.len() {
        match &input[i] {
            Token::Kw(l) => *l == k,
            _ => false,
        }
    } else {
        false
    }
}

fn is_tok_end(input: &[Token], i: usize) -> (r: bool)
    ensures
        r == tok_at(input@, i as int, Token::End),
{
    if i < input.len() {
        match &input[i] {
            Token::End => true,
            _ => false,
        }
    } else {
        false
    }
}

fn parse_factor(input: &[Token]) -> (r: Result<(AExpression, usize), UserDefinedError>)
    requires
        factor_spec(input@) is Some,
    ensures
        agrees(r, factor_spec(input@)),
        r matches Ok((_, n)) ==> n <= input@.len(),
    decreases input@.len(), 0int,
{
    let len = input.len();
    if len == 0 {
        return Err(UserDefinedError::Syntax(SyntaxError::UndefinedEnd));
    }
    match &input[0] {
        Token::Lit(Literal::Int(i)) => Ok((AExpression::Int(*i), 1)),
        Token::Idf(Identifier::Variable(s)) => Ok((AExpression::Var(s.clone()), 1)),
        Token::Op(Operator::Sub) => {
            if len < 2 {
                Err(UserDefinedError::Syntax(SyntaxError::UndefinedEnd))
            } else {
                let rest = &input[1..len];
                assert(rest@ == from(input@, 1));
                match parse_factor(rest) {
                    Ok((AExpression::Int(i), consumed)) => Ok((AExpression::Int(-i), consumed + 1)),
                    Ok((f, consumed)) => Ok(
                        (AExpression::Sub(Box::new(AExpression::Int(0)), Box::new(f)), consumed + 1),
                    ),
                    Err(_) => Err(UserDefinedError::Syntax(SyntaxError::UndefinedEnd)),
                }
            }
        },
        Token::Del(Delimiter::LParen) => {
            if len < 2 {
                Err(UserDefinedError::Syntax(SyntaxError::UndefinedEnd))
            } else {
                let rest = &input[1..len];
                assert(rest@ == from(input@, 1));
                match parse_aexpr(rest) {
                    Ok((left, consumed)) => {
                        if is_tok_del(input, 1 + consumed, Delimiter::RParen) {
                            Ok((left, consumed + 2))
                        } else {
                            Err(UserDefinedError::Syntax(SyntaxError::UndefinedEnd))
                        }
                    },
                    Err(e) => Err(e),
                }
            }
        },
        _ => Err(UserDefinedError::Syntax(SyntaxError::NoMatch)),
    }
}

fn parse_term(input: &[Token]) -> (r: Result<(AExpression, usize), UserDefinedError>)
    requires
        term_spec(input@) is Some,
    ensures
        agrees(r, term_spec(input@)),
        r matches Ok((_, n)) ==> n <= input@.len(),
    decreases input@.len(), 1int,
{
    let len = input.len();
    let (mut left, mut consumed) = match parse_factor(input) {
        Ok(p) => p,
        Err(e) => {
            return Err(e);
        },
    };
    while is_tok_op(input, consumed, Operator::Mul)
        invariant
            len == input@.len(),
            consumed <= len,
            term_spec(input@) == term_rest_spec(input@, left, consumed as int),
            term_spec(input@) is Some,
        decreases len - consumed,
    {
        let rest = &input[consumed + 1..len];
        assert(rest@ == from(input@, consumed + 1));
        match parse_factor(rest) {
            Ok((right, right_skip)) => {
                left = AExpression::Mul(Box::new(left), Box::new(right));
                consumed = consumed + 1 + right_skip;
            },
            Err(e) => {
                return Err(e);
            },
        }
    }
    Ok((left, consumed))
}

/// Parses an arithmetic expression at the start of `input`: returns it and
/// the number of tokens it spans, or the syntax error.
pub fn parse_aexpr(input: &[Token]) -> (r: Result<(AExpression, usize), UserDefinedError>)
    requires
        aexpr_spec(input@) is Some,
    ensures
        agrees(r, aexpr_spec(input@)),
        r matches Ok((_, n)) ==> n <= input@.len(),
    decreases input@.len(), 2int,
{
    let len = input.len();
    let (mut left, mut consumed) = match parse_term(input) {
        Ok(p) => p,
        Err(e) => {
            return Err(e);
        },
    };
    while is_tok_op(input, consumed, Operator::Add) || is_tok_op(input, consumed, Operator::Sub)
        invariant
            len == input@.len(),
            consumed <= len,
            aexpr_spec(input@) == aexpr_rest_spec(input@, left, consumed as int),
            aexpr_spec(input@) is Some,
        decreases len - consumed,
    {
        let is_add = is_tok_op(input, consumed, Operator::Add);
        let rest = &input[consumed + 1..len];
        assert(rest@ == from(input@, consumed + 1));
        match parse_term(rest) {
            Ok((right, right_skip)) => {
                left = if is_add {
                    AExpression::Add(Box::new(left), Box::new(right))
                } else {
                    AExpression::Sub(Box::new(left), Box::new(right))
                };
                consumed = consumed + 1 + right_skip;
            },
            Err(e) => {
                return Err(e);
            },
        }
    }
    Ok((left, consumed))
}


fn parse_bfactor(input: &[Token]) -> (r: Result<(BExpression, usize), UserDefinedError>)
    requires
        bfactor_spec(input@) is Some,
    ensures
        agrees(r, bfactor_spec(input@)),
        r matches Ok((_, n)) ==> n <= input@.len(),
    decreases input@.len(), 0int,
{
    let len = input.len();
    if len == 0 {
        return Err(UserDefinedError::Syntax(SyntaxError::UndefinedEnd));
    }
    match &input[0] {
        Token::Lit(Literal::True) => Ok((BExpression::True, 1)),
        Token::Lit(Literal::False) => Ok((BExpression::False, 1)),
        Token::Del(Delimiter::LParen) => {
            if len < 2 {
                Err(UserDefinedError::Syntax(SyntaxError::UndefinedEnd))
            } else {
                let rest = &input[1..len];
                assert(rest@ == from(input@, 1));
                match parse_bexpr(rest) {
                    Ok((left, consumed)) => {
                        if is_tok_del(input, 1 + consumed, Delimiter::RParen) {
                            Ok((left, consumed + 2))
                        } else {
                            Err(UserDefinedError::Syntax(SyntaxError::UndefinedEnd))
                        }
                    },
                    Err(e) => Err(e),
                }
            }
        },
        _ => Err(UserDefinedError::Syntax(SyntaxError::NoMatch)),
    }
}

fn parse_bcomp(input: &[Token]) -> (r: Result<(BExpression, usize), UserDefinedError>)
    requires
        bcomp_spec(input@) is Some,
    ensures
        agrees(r, bcomp_spec(input@)),
        r matches Ok((_, n)) ==> n <= input@.len(),
    decreases input@.len(), 1int,
{
    let len = input.len();
    if len == 0 {
        return Err(UserDefinedError::Syntax(SyntaxError::UndefinedEnd));
    }
    if is_tok_op(input, 0, Operator::Not) {
        if len < 2 {
            Err(UserDefinedError::Syntax(SyntaxError::UndefinedEnd))
        } else {
            let rest = &input[1..len];
            assert(rest@ == from(input@, 1));
            match parse_bcomp(rest) {
                Ok((left, consumed)) => Ok((BExpression::Not(Box::new(left)), consumed + 1)),
                Err(e) => Err(e),
            }
        }
    } else {
        match parse_aexpr(input) {
            Ok((left, consumed_left)) => {
                if consumed_left < len {
                    let is_equ = is_tok_op(input, consumed_left, Operator::Equ);
                    if is_equ || is_tok_op(input, consumed_left, Operator::Leq) {
                        if len - consumed_left < 2 {
                            Err(UserDefinedError::Syntax(SyntaxError::UndefinedEnd))
                        } else {
                            let rest = &input[consumed_left + 1..len];
                            assert(rest@ == from(input@, consumed_left + 1));
                            match parse_aexpr(rest) {
                                Ok((right, consumed_right)) => {
                                    let b = if is_equ {
                                        BExpression::Equ(left, right)
                                    } else {
                                        BExpression::Leq(left, right)
                                    };
                                    Ok((b, consumed_left + 1 + consumed_right))
                                },
                                Err(_) => Err(UserDefinedError::Syntax(SyntaxError::UndefinedEnd)),
                            }
                        }
                    } else {
                        parse_bfactor(input)
                    }
                } else {
                    Err(UserDefinedError::Syntax(SyntaxError::UndefinedEnd))
                }
            },
            Err(_) => parse_bfactor(input),
        }
    }
}

/// Parses a boolean expression at the start of `input`: returns it and the
/// number of tokens it spans, or the syntax error.
pub fn parse_bexpr(input: &[Token]) -> (r: Result<(BExpression, usize), UserDefinedError>)
    requires
        bexpr_spec(input@) is Some,
    ensures
        agrees(r, bexpr_spec(input@)),
        r matches Ok((_, n)) ==> n <= input@.len(),
    decreases input@.len(), 2int,
{
    let len = input.len();
    let (mut left, mut consumed) = match parse_bcomp(input) {
        Ok(p) => p,
        Err(e) => {
            return Err(e);
        },
    };
    while is_tok_op(input, consumed, Operator::And)
        invariant
            len == input@.len(),
            consumed <= len,
            bexpr_spec(input@) == bexpr_rest_spec(input@, left, consumed as int),
            bexpr_spec(input@) is Some,
        decreases len - consumed,
    {
        let rest = &input[consumed + 1..len];
        assert(rest@ == from(input@, consumed + 1));
        match parse_bcomp(rest) {
            Ok((right, right_skip)) => {
                left = BExpression::And(Box::new(left), Box::new(right));
                consumed = consumed + 1 + right_skip;
            },
            Err(e) => {
                return Err(e);
            },
        }
    }
    Ok((left, consumed))
}


fn parse_assign(input: &[Token]) -> (r: Result<(Statement, usize), UserDefinedError>)
    requires
        assign_spec(input@) is Some,
    ensures
        agrees(r, assign_spec(input@)),
        r matches Ok((_, n)) ==> n <= input@.len(),
{
    let len = input.len();
    if len == 0 {
        return Err(UserDefinedError::Syntax(SyntaxError::InvalidAssign));
    }
    match &input[0] {
        Token::Idf(Identifier::Variable(varname)) => {
            if is_tok_op(input, 1, Operator::Assign) {
                if len < 3 {
                    Err(UserDefinedError::Syntax(SyntaxError::UndefinedEnd))
                } else {
                    let rest = &input[2..len];
                    assert(rest@ == from(input@, 2));
                    match parse_aexpr(rest) {
                        Ok((expression, consumed)) => Ok(
                            (Statement::Assign(varname.clone(), expression), consumed + 2),
                        ),
                        Err(e) => Err(e),
                    }
                }
            } else {
                Err(UserDefinedError::Syntax(SyntaxError::InvalidAssign))
            }
        },
        _ => Err(UserDefinedError::Syntax(SyntaxError::InvalidAssign)),
    }
}

/// The error for a missing keyword at `cursor`.
fn missing_at(input: &[Token], cursor: usize, missing: SyntaxError) -> (r: UserDefinedError)
    ensures
        r == UserDefinedError::Syntax(missing_kw(input@, cursor as int, missing)),
{
    if cursor < input.len() {
        UserDefinedError::Syntax(missing)
    } else {
        UserDefinedError::Syntax(SyntaxError::UndefinedEnd)
    }
}

fn parse_if(input: &[Token]) -> (r: Result<(Statement, usize), UserDefinedError>)
    requires
        if_spec(input@) is Some,
    ensures
        agrees(r, if_spec(input@)),
        r matches Ok((_, n)) ==> n <= input@.len(),
    decreases input@.len(), 0int,
{
    let len = input.len();
    let rest = &input[1..len];
    assert(rest@ == from(input@, 1));
    let (cond, cond_consumed) = match parse_bexpr(rest) {
        Ok(p) => p,
        Err(e) => {
            return Err(e);
        },
    };
    let mut cursor = 1 + cond_consumed;
    if !is_tok_kw(input, cursor, Keyword::Then) {
        return Err(missing_at(input, cursor, SyntaxError::ExpectedThen));
    }
    cursor = cursor + 1;
    let rest = &input[cursor..len];
    assert(rest@ == from(input@, cursor as int));
    let (then_branch, then_consumed) = match parse_stmt(rest) {
        Ok(p) => p,
        Err(e) => {
            return Err(e);
        },
    };
    cursor = cursor + then_consumed;
    if !is_tok_kw(input, cursor, Keyword::Else) {
        return Err(missing_at(input, cursor, SyntaxError::ExpectedElse));
    }
    cursor = cursor + 1;
    let rest = &input[cursor..len];
    assert(rest@ == from(input@, cursor as int));
    let (else_branch, else_consumed) = match parse_stmt(rest) {
        Ok(p) => p,
        Err(e) => {
            return Err(e);
        },
    };
    cursor = cursor + else_consumed;
    if !is_tok_kw(input, cursor, Keyword::End) {
        return Err(missing_at(input, cursor, SyntaxError::ExpectedEnd));
    }
    cursor = cursor + 1;
    Ok((Statement::If(cond, Box::new(then_branch), Box::new(else_branch)), cursor))
}

fn parse_while(input: &[Token]) -> (r: Result<(Statement, usize), UserDefinedError>)
    requires
        while_spec(input@) is Some,
    ensures
        agrees(r, while_spec(input@)),
        r matches Ok((_, n)) ==> n <= input@.len(),
    decreases input@.len(), 0int,
{
    let len = input.len();
    let rest = &input[1..len];
    assert(rest@ == from(input@, 1));
    let (cond, cond_consumed) = match parse_bexpr(rest) {
        Ok(p) => p,
        Err(e) => {
            return Err(e);
        },
    };
    let mut cursor = 1 + cond_consumed;
    if !is_tok_kw(input, cursor, Keyword::Do) {
        return Err(missing_at(input, cursor, SyntaxError::ExpectedDo));
    }
    cursor = cursor + 1;
    let rest = &input[cursor..len];
    assert(rest@ == from(input@, cursor as int));
    let (body, body_consumed) = match parse_stmt(rest) {
        Ok(p) => p,
        Err(e) => {
            return Err(e);
        },
    };
    cursor = cursor + body_consumed;
    if !is_tok_kw(input, cursor, Keyword::End) {
        return Err(missing_at(input, cursor, SyntaxError::ExpectedEnd));
    }
    cursor = cursor + 1;
    Ok((Statement::While(cond, Box::new(body)), cursor))
}

fn parse_simple_stmt(input: &[Token]) -> (r: Result<(Statement, usize), UserDefinedError>)
    requires
        simple_stmt_spec(input@) is Some,
    ensures
        agrees(r, simple_stmt_spec(input@)),
        r matches Ok((_, n)) ==> n <= input@.len(),
    decreases input@.len(), 1int,
{
    if input.len() == 0 {
        return Err(UserDefinedError::Syntax(SyntaxError::UndefinedEnd));
    }
    match &input[0] {
        Token::Idf(_) => parse_assign(input),
        Token::Kw(Keyword::If) => parse_if(input),
        Token::Kw(Keyword::While) => parse_while(input),
        Token::Kw(Keyword::Skip) => Ok((Statement::Skip, 1)),
        Token::Kw(Keyword::Then) => Err(UserDefinedError::Syntax(SyntaxError::ThenWithoutIf)),
        Token::Kw(Keyword::Else) => Err(UserDefinedError::Syntax(SyntaxError::ElseWithoutIf)),
        Token::Kw(Keyword::Do) => Err(UserDefinedError::Syntax(SyntaxError::DoWithoutWhile)),
        Token::Kw(Keyword::End) => Err(UserDefinedError::Syntax(SyntaxError::EndWithoutBlock)),
        _ => Err(UserDefinedError::Syntax(SyntaxError::UndefinedEnd)),
    }
}

fn parse_stmt(input: &[Token]) -> (r: Result<(Statement, usize), UserDefinedError>)
    requires
        stmt_spec(input@) is Some,
    ensures
        agrees(r, stmt_spec(input@)),
        r matches Ok((_, n)) ==> n <= input@.len(),
    decreases input@.len(), 2int,
{
    let len = input.len();
    let (stmt, consumed) = match parse_simple_stmt(input) {
        Ok(p) => p,
        Err(e) => {
            return Err(e);
        },
    };
    if is_tok_op(input, consumed, Operator::Semicolon) {
        let rest = &input[consumed + 1..len];
        assert(rest@ == from(input@, consumed + 1));
        match parse_stmt(rest) {
            Ok((right, right_consumed)) => Ok(
                (Statement::Sequence(Box::new(stmt), Box::new(right)), consumed + 1 + right_consumed),
            ),
            Err(e) => Err(e),
        }
    } else {
        Ok((stmt, consumed))
    }
}

/// Parses a whole program: a statement followed by the `End` token.
/// A statement followed by any other token is `UnconsumedTokens`; one that
/// runs to the end of the slice without `End` is `UndefinedEnd`.
pub fn parse(input: &[Token]) -> (r: Result<Statement, UserDefinedError>)
    requires
        parse_spec(input@) is Some,
    ensures
        match parse_spec(input@) {
            Some(Ok(st)) => r matches Ok(s) && s == st,
            Some(Err(e)) => r matches Err(UserDefinedError::Syntax(f)) && f == e,
            None => false,
        },
{
    let (stmt, consumed) = match parse_stmt(input) {
        Ok(p) => p,
        Err(e) => {
            return Err(e);
        },
    };
    if is_tok_end(input, consumed) {
        Ok(stmt)
    } else {
        Err(missing_at(input, consumed, SyntaxError::UnconsumedTokens))
    }
}

} // verus!
