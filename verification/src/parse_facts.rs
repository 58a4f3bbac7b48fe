//! Facts about the parser as a whole: where it cannot panic, and how the
//! size of what it reads relates to the number of tokens.

use vstd::prelude::*;
use crate::ast::{
    aexpr_rest_spec, aexpr_spec, assign_spec, bcomp_spec, bexpr_rest_spec, bexpr_spec,
    bfactor_spec, factor_spec, from, if_spec, parse_spec, relation_spec, simple_stmt_spec,
    stmt_spec, term_rest_spec, term_spec, tok_at, while_spec, AExpression, BExpression, Parsed,
    Statement,
};
use crate::error::SyntaxError;
use crate::labeler::elementary_count;
use crate::lexer::{
    law_lexed_literals_nonnegative, lex_spec, literal_nonneg, tokens_view, Delimiter, Keyword,
    LexOutcome, Operator, Token,
};

verus! {

/// No integer literal in `input` is negative, as with every token sequence
/// that the lexer produces.
pub open spec fn literals_nonnegative(input: Seq<Token>) -> bool {
    forall|i: int| 0 <= i < input.len() ==> literal_nonneg(#[trigger] input[i]@)
}

/// A parse result with no panic in it, and, where it succeeds, a count
/// of tokens between `lo` and `hi`.
pub open spec fn bounded<T>(p: Parsed<T>, lo: int, hi: int) -> bool {
    match p {
        None => false,
        Some(Err(_)) => true,
        Some(Ok((_, n))) => lo <= n <= hi,
    }
}

/// Where a parse succeeds, its count of tokens is between `lo` and `hi`.
pub open spec fn counts_within<T>(p: Parsed<T>, lo: int, hi: int) -> bool {
    p matches Some(Ok((_, n))) ==> lo <= n <= hi
}

/// An arithmetic parse result as `bounded` says, whose expression is not
/// the literal `i64::MIN`, so that negating it cannot panic.
pub open spec fn arith_bounded(p: Parsed<AExpression>, lo: int, hi: int) -> bool {
    &&& bounded(p, lo, hi)
    &&& p matches Some(Ok((e, _))) ==> e != AExpression::Int(i64::MIN)
}

proof fn lemma_from_nonneg(input: Seq<Token>, k: int)
    requires
        0 <= k <= input.len(),
    ensures
        literals_nonnegative(input) ==> literals_nonnegative(from(input, k)),
{
    if literals_nonnegative(input) {
        lemma_from_nonneg_step(input, k);
    }
}

proof fn lemma_from_nonneg_step(input: Seq<Token>, k: int)
    requires
        literals_nonnegative(input),
        0 <= k <= input.len(),
    ensures
        literals_nonnegative(from(input, k)),
{
    assert forall|i: int| 0 <= i < from(input, k).len() implies literal_nonneg(
        #[trigger] from(input, k)[i]@,
    ) by {
        assert(from(input, k)[i] == input[k + i]);
    }
}

proof fn lemma_factor(input: Seq<Token>)
    ensures
        counts_within(factor_spec(input), 1, input.len() as int),
        literals_nonnegative(input) ==> arith_bounded(factor_spec(input), 1, input.len() as int),
    decreases input.len(), 0int, 0int,
{
    if input.len() > 0 {
        if literals_nonnegative(input) {
            assert(literal_nonneg(input[0]@));
        }
        match input[0] {
            Token::Op(Operator::Sub) => {
                if input.len() >= 2 {
                    lemma_from_nonneg(input, 1);
                    lemma_factor(from(input, 1));
                }
            },
            Token::Del(Delimiter::LParen) => {
                if input.len() >= 2 {
                    lemma_from_nonneg(input, 1);
                    lemma_aexpr(from(input, 1));
                }
            },
            _ => {},
        }
    }
}

proof fn lemma_term(input: Seq<Token>)
    ensures
        counts_within(term_spec(input), 1, input.len() as int),
        literals_nonnegative(input) ==> arith_bounded(term_spec(input), 1, input.len() as int),
    decreases input.len(), 1int, 0int,
{
    lemma_factor(input);
    if let Some(Ok((left, c))) = factor_spec(input) {
        lemma_term_rest(input, left, c);
    }
}

proof fn lemma_term_rest(input: Seq<Token>, left: AExpression, c: int)
    requires
        0 <= c <= input.len(),
    ensures
        counts_within(term_rest_spec(input, left, c), c, input.len() as int),
        literals_nonnegative(input) && left != AExpression::Int(i64::MIN) ==> arith_bounded(term_rest_spec(input, left, c), c, input.len() as int),
    decreases input.len(), 0int, input.len() - c,
{
    if tok_at(input, c, Token::Op(Operator::Mul)) {
        lemma_from_nonneg(input, c + 1);
        lemma_factor(from(input, c + 1));
        if let Some(Ok((right, k))) = factor_spec(from(input, c + 1)) {
            lemma_term_rest(input, AExpression::Mul(Box::new(left), Box::new(right)), c + 1 + k);
        }
    }
}

proof fn lemma_aexpr(input: Seq<Token>)
    ensures
        counts_within(aexpr_spec(input), 1, input.len() as int),
        literals_nonnegative(input) ==> arith_bounded(aexpr_spec(input), 1, input.len() as int),
    decreases input.len(), 2int, 0int,
{
    lemma_term(input);
    if let Some(Ok((left, c))) = term_spec(input) {
        lemma_aexpr_rest(input, left, c);
    }
}

proof fn lemma_aexpr_rest(input: Seq<Token>, left: AExpression, c: int)
    requires
        0 <= c <= input.len(),
    ensures
        counts_within(aexpr_rest_spec(input, left, c), c, input.len() as int),
        literals_nonnegative(input) && left != AExpression::Int(i64::MIN) ==> arith_bounded(aexpr_rest_spec(input, left, c), c, input.len() as int),
    decreases input.len(), 1int, input.len() - c,
{
    if tok_at(input, c, Token::Op(Operator::Add)) || tok_at(input, c, Token::Op(Operator::Sub)) {
        lemma_from_nonneg(input, c + 1);
        lemma_term(from(input, c + 1));
        if let Some(Ok((right, k))) = term_spec(from(input, c + 1)) {
            let e = if input[c] == Token::Op(Operator::Add) {
                AExpression::Add(Box::new(left), Box::new(right))
            } else {
                AExpression::Sub(Box::new(left), Box::new(right))
            };
            lemma_aexpr_rest(input, e, c + 1 + k);
        }
    }
}

proof fn lemma_bfactor(input: Seq<Token>)
    ensures
        counts_within(bfactor_spec(input), 1, input.len() as int),
        literals_nonnegative(input) ==> bounded(bfactor_spec(input), 1, input.len() as int),
    decreases input.len(), 0int, 0int,
{
    if input.len() >= 2 && input[0] == Token::Del(Delimiter::LParen) {
        lemma_from_nonneg(input, 1);
        lemma_bexpr(from(input, 1));
    }
}

proof fn lemma_relation(input: Seq<Token>, left: AExpression, cl: int)
    requires
        0 <= cl < input.len(),
    ensures
        counts_within(relation_spec(input, left, cl), 1, input.len() as int),
        literals_nonnegative(input) ==> bounded(relation_spec(input, left, cl), 1, input.len() as int),
{
    if input.len() >= cl + 2 {
        lemma_from_nonneg(input, cl + 1);
        lemma_aexpr(from(input, cl + 1));
    }
}

proof fn lemma_bcomp(input: Seq<Token>)
    ensures
        counts_within(bcomp_spec(input), 1, input.len() as int),
        literals_nonnegative(input) ==> bounded(bcomp_spec(input), 1, input.len() as int),
    decreases input.len(), 1int, 0int,
{
    if input.len() > 0 {
        if input[0] == Token::Op(Operator::Not) {
            if input.len() >= 2 {
                lemma_from_nonneg(input, 1);
                lemma_bcomp(from(input, 1));
            }
        } else {
            lemma_aexpr(input);
            lemma_bfactor(input);
            if let Some(Ok((left, cl))) = aexpr_spec(input) {
                if 0 <= cl < input.len() {
                    lemma_relation(input, left, cl);
                }
            }
        }
    }
}

proof fn lemma_bexpr(input: Seq<Token>)
    ensures
        counts_within(bexpr_spec(input), 1, input.len() as int),
        literals_nonnegative(input) ==> bounded(bexpr_spec(input), 1, input.len() as int),
    decreases input.len(), 2int, 0int,
{
    lemma_bcomp(input);
    if let Some(Ok((left, c))) = bcomp_spec(input) {
        lemma_bexpr_rest(input, left, c);
    }
}

proof fn lemma_bexpr_rest(input: Seq<Token>, left: BExpression, c: int)
    requires
        0 <= c <= input.len(),
    ensures
        counts_within(bexpr_rest_spec(input, left, c), c, input.len() as int),
        literals_nonnegative(input) ==> bounded(bexpr_rest_spec(input, left, c), c, input.len() as int),
    decreases input.len(), 1int, input.len() - c,
{
    if tok_at(input, c, Token::Op(Operator::And)) {
        lemma_from_nonneg(input, c + 1);
        lemma_bcomp(from(input, c + 1));
        if let Some(Ok((right, k))) = bcomp_spec(from(input, c + 1)) {
            lemma_bexpr_rest(input, BExpression::And(Box::new(left), Box::new(right)), c + 1 + k);
        }
    }
}

proof fn lemma_assign(input: Seq<Token>)
    ensures
        counts_within(assign_spec(input), 1, input.len() as int),
        literals_nonnegative(input) ==> bounded(assign_spec(input), 1, input.len() as int),
{
    if input.len() >= 3 {
        lemma_from_nonneg(input, 2);
        lemma_aexpr(from(input, 2));
    }
}

proof fn lemma_if(input: Seq<Token>)
    requires
        input.len() > 0,
    ensures
        counts_within(if_spec(input), 1, input.len() as int),
        literals_nonnegative(input) ==> bounded(if_spec(input), 1, input.len() as int),
    decreases input.len(), 0int,
{
    lemma_from_nonneg(input, 1);
    lemma_bexpr(from(input, 1));
    if let Some(Ok((_, cc))) = bexpr_spec(from(input, 1)) {
        let c1 = 1 + cc;
        if tok_at(input, c1, Token::Kw(Keyword::Then)) {
            lemma_from_nonneg(input, c1 + 1);
            lemma_stmt(from(input, c1 + 1));
            if let Some(Ok((_, k1))) = stmt_spec(from(input, c1 + 1)) {
                let c2 = c1 + 1 + k1;
                if tok_at(input, c2, Token::Kw(Keyword::Else)) {
                    lemma_from_nonneg(input, c2 + 1);
                    lemma_stmt(from(input, c2 + 1));
                }
            }
        }
    }
}

proof fn lemma_while(input: Seq<Token>)
    requires
        input.len() > 0,
    ensures
        counts_within(while_spec(input), 1, input.len() as int),
        literals_nonnegative(input) ==> bounded(while_spec(input), 1, input.len() as int),
    decreases input.len(), 0int,
{
    lemma_from_nonneg(input, 1);
    lemma_bexpr(from(input, 1));
    if let Some(Ok((_, cc))) = bexpr_spec(from(input, 1)) {
        let c1 = 1 + cc;
        if tok_at(input, c1, Token::Kw(Keyword::Do)) {
            lemma_from_nonneg(input, c1 + 1);
            lemma_stmt(from(input, c1 + 1));
        }
    }
}

proof fn lemma_simple(input: Seq<Token>)
    ensures
        counts_within(simple_stmt_spec(input), 1, input.len() as int),
        literals_nonnegative(input) ==> bounded(simple_stmt_spec(input), 1, input.len() as int),
    decreases input.len(), 1int,
{
    if input.len() > 0 {
        match input[0] {
            Token::Idf(_) => lemma_assign(input),
            Token::Kw(Keyword::If) => lemma_if(input),
            Token::Kw(Keyword::While) => lemma_while(input),
            _ => {},
        }
    }
}

proof fn lemma_stmt(input: Seq<Token>)
    ensures
        counts_within(stmt_spec(input), 1, input.len() as int),
        literals_nonnegative(input) ==> bounded(stmt_spec(input), 1, input.len() as int),
    decreases input.len(), 2int,
{
    lemma_simple(input);
    if let Some(Ok((_, c))) = simple_stmt_spec(input) {
        if tok_at(input, c, Token::Op(Operator::Semicolon)) {
            lemma_from_nonneg(input, c + 1);
            lemma_stmt(from(input, c + 1));
        }
    }
}

/// Parsing does not panic where no integer literal is negative: the only
/// panic of the parser negates the literal `i64::MIN`.
pub proof fn law_parsing_nonnegative_literals_does_not_panic(input: Seq<Token>)
    requires
        literals_nonnegative(input),
    ensures
        parse_spec(input) is Some,
{
    lemma_stmt(input);
}

/// Parsing what the lexer produces does not panic: a program that lexes
/// is parsed to a statement or a syntax error.
pub proof fn law_lexed_programs_parse_without_panic(cs: Seq<char>, tokens: Seq<Token>)
    requires
        lex_spec(cs) == LexOutcome::Done(tokens_view(tokens)),
    ensures
        parse_spec(tokens) is Some,
{
    law_lexed_literals_nonnegative(cs, tokens_view(tokens));
    assert forall|i: int| 0 <= i < tokens.len() implies literal_nonneg(#[trigger] tokens[i]@) by {
        assert(tokens_view(tokens).len() == tokens.len());
        assert(tokens_view(tokens)[i] == tokens[i]@);
        assert(literal_nonneg(tokens_view(tokens)[i]));
    }
    law_parsing_nonnegative_literals_does_not_panic(tokens);
}

proof fn lemma_simple_count(input: Seq<Token>, s: Statement, k: int)
    requires
        simple_stmt_spec(input) == Some(Ok::<(Statement, int), SyntaxError>((s, k))),
    ensures
        elementary_count(s) <= k,
    decreases s, 0int,
{
    match input[0] {
        Token::Kw(Keyword::If) => {
            assert(simple_stmt_spec(input) == if_spec(input));
            let (cond, cc) = bexpr_spec(from(input, 1))->0->Ok_0;
            let c1 = 1 + cc;
            let (a, k1) = stmt_spec(from(input, c1 + 1))->0->Ok_0;
            let c2 = c1 + 1 + k1;
            let (b, k2) = stmt_spec(from(input, c2 + 1))->0->Ok_0;
            assert(bexpr_spec(from(input, 1)) == Some(Ok::<(BExpression, int), SyntaxError>((cond, cc))));
            assert(stmt_spec(from(input, c1 + 1)) == Some(Ok::<(Statement, int), SyntaxError>((a, k1))));
            assert(stmt_spec(from(input, c2 + 1)) == Some(Ok::<(Statement, int), SyntaxError>((b, k2))));
            assert(s == Statement::If(cond, Box::new(a), Box::new(b)));
            lemma_bexpr(from(input, 1));
            match s {
                Statement::If(_, x, y) => {
                    lemma_stmt_count(from(input, c1 + 1), *x, k1);
                    lemma_stmt_count(from(input, c2 + 1), *y, k2);
                },
                _ => {},
            }
        },
        Token::Kw(Keyword::While) => {
            assert(simple_stmt_spec(input) == while_spec(input));
            let (cond, cc) = bexpr_spec(from(input, 1))->0->Ok_0;
            let c1 = 1 + cc;
            let (body, k1) = stmt_spec(from(input, c1 + 1))->0->Ok_0;
            assert(bexpr_spec(from(input, 1)) == Some(Ok::<(BExpression, int), SyntaxError>((cond, cc))));
            assert(stmt_spec(from(input, c1 + 1)) == Some(Ok::<(Statement, int), SyntaxError>((body, k1))));
            assert(s == Statement::While(cond, Box::new(body)));
            lemma_bexpr(from(input, 1));
            match s {
                Statement::While(_, x) => {
                    lemma_stmt_count(from(input, c1 + 1), *x, k1);
                },
                _ => {},
            }
        },
        _ => {
            lemma_assign(input);
        },
    }
}

proof fn lemma_stmt_count(input: Seq<Token>, s: Statement, k: int)
    requires
        stmt_spec(input) == Some(Ok::<(Statement, int), SyntaxError>((s, k))),
    ensures
        elementary_count(s) <= k,
    decreases s, 1int,
{
    let (st, c) = simple_stmt_spec(input)->0->Ok_0;
    if 0 <= c && tok_at(input, c, Token::Op(Operator::Semicolon)) {
        let (right, rc) = stmt_spec(from(input, c + 1))->0->Ok_0;
        assert(s == Statement::Sequence(Box::new(st), Box::new(right)));
        match s {
            Statement::Sequence(a, b) => {
                lemma_simple_count(input, *a, c);
                lemma_stmt_count(from(input, c + 1), *b, rc);
            },
            _ => {},
        }
    } else {
        lemma_simple_count(input, s, k);
    }
}

/// A parsed program has fewer elementary statements than tokens: each
/// takes a token of its own, and `End` takes one more.
pub proof fn law_parsed_statements_fewer_than_tokens(input: Seq<Token>, s: Statement)
    requires
        parse_spec(input) == Some(Ok::<Statement, SyntaxError>(s)),
    ensures
        elementary_count(s) < input.len(),
{
    let (st, k) = stmt_spec(input)->0->Ok_0;
    lemma_stmt_count(input, s, k);
}

// ---------------------------------------------------------------------
// Arithmetic expressions stop where nothing continues them, and read the
// same on any prefix that holds them
// ---------------------------------------------------------------------

proof fn lemma_term_rest_stops(input: Seq<Token>, left: AExpression, c: int)
    ensures
        term_rest_spec(input, left, c) matches Some(Ok((_, n))) ==> !tok_at(
            input,
            n,
            Token::Op(Operator::Mul),
        ),
    decreases input.len() - c,
{
    if 0 <= c && tok_at(input, c, Token::Op(Operator::Mul)) {
        if let Some(Ok((right, k))) = factor_spec(from(input, c + 1)) {
            if 0 <= k && c + 1 + k <= input.len() {
                lemma_term_rest_stops(input, AExpression::Mul(Box::new(left), Box::new(right)), c + 1 + k);
            }
        }
    }
}

proof fn lemma_term_stops(input: Seq<Token>)
    ensures
        term_spec(input) matches Some(Ok((_, n))) ==> !tok_at(input, n, Token::Op(Operator::Mul)),
{
    if let Some(Ok((left, c))) = factor_spec(input) {
        lemma_term_rest_stops(input, left, c);
    }
}

proof fn lemma_aexpr_rest_stops(input: Seq<Token>, left: AExpression, c: int)
    requires
        !tok_at(input, c, Token::Op(Operator::Mul)),
    ensures
        aexpr_rest_spec(input, left, c) matches Some(Ok((_, n))) ==> {
            &&& !tok_at(input, n, Token::Op(Operator::Mul))
            &&& !tok_at(input, n, Token::Op(Operator::Add))
            &&& !tok_at(input, n, Token::Op(Operator::Sub))
        },
    decreases input.len() - c,
{
    if 0 <= c && (tok_at(input, c, Token::Op(Operator::Add)) || tok_at(input, c, Token::Op(Operator::Sub))) {
        let sub = from(input, c + 1);
        lemma_term_stops(sub);
        if let Some(Ok((right, k))) = term_spec(sub) {
            if 0 <= k && c + 1 + k <= input.len() {
                if k < sub.len() {
                    assert(sub[k] == input[c + 1 + k]);
                }
                let e = if input[c] == Token::Op(Operator::Add) {
                    AExpression::Add(Box::new(left), Box::new(right))
                } else {
                    AExpression::Sub(Box::new(left), Box::new(right))
                };
                lemma_aexpr_rest_stops(input, e, c + 1 + k);
            }
        }
    }
}

proof fn lemma_term_rest_bound(input: Seq<Token>, left: AExpression, c: int)
    requires
        0 <= c,
    ensures
        term_rest_spec(input, left, c) matches Some(Ok((_, n))) ==> c <= n && (c <= input.len()
            ==> n <= input.len()),
    decreases input.len() - c,
{
    if tok_at(input, c, Token::Op(Operator::Mul)) {
        lemma_factor(from(input, c + 1));
        if let Some(Ok((right, k))) = factor_spec(from(input, c + 1)) {
            if 0 <= k && c + 1 + k <= input.len() {
                lemma_term_rest_bound(input, AExpression::Mul(Box::new(left), Box::new(right)), c + 1 + k);
            }
        }
    }
}

proof fn lemma_aexpr_rest_bound(input: Seq<Token>, left: AExpression, c: int)
    requires
        0 <= c,
    ensures
        aexpr_rest_spec(input, left, c) matches Some(Ok((_, n))) ==> c <= n && (c <= input.len()
            ==> n <= input.len()),
    decreases input.len() - c,
{
    if tok_at(input, c, Token::Op(Operator::Add)) || tok_at(input, c, Token::Op(Operator::Sub)) {
        lemma_term(from(input, c + 1));
        if let Some(Ok((right, k))) = term_spec(from(input, c + 1)) {
            if 0 <= k && c + 1 + k <= input.len() {
                let e = if input[c] == Token::Op(Operator::Add) {
                    AExpression::Add(Box::new(left), Box::new(right))
                } else {
                    AExpression::Sub(Box::new(left), Box::new(right))
                };
                lemma_aexpr_rest_bound(input, e, c + 1 + k);
            }
        }
    }
}

proof fn lemma_take_from(input: Seq<Token>, k: int, m: int)
    requires
        0 <= k <= m <= input.len(),
    ensures
        from(input.take(m), k) == from(input, k).take(m - k),
        forall|i: int, t: Token| #[trigger] tok_at(input.take(m), i, t) <==> (i < m && tok_at(input, i, t)),
{
    assert(from(input.take(m), k) =~= from(input, k).take(m - k));
}

proof fn lemma_factor_prefix(input: Seq<Token>, m: int)
    requires
        factor_spec(input) matches Some(Ok((_, n))) && n <= m <= input.len(),
    ensures
        factor_spec(input.take(m)) == factor_spec(input),
    decreases input.len(), 0int, 0int,
{
    lemma_factor(input);
    let p = input.take(m);
    lemma_take_from(input, 1, m);
    assert(p[0] == input[0]);
    match input[0] {
        Token::Op(Operator::Sub) => {
            lemma_factor(from(input, 1));
            lemma_factor_prefix(from(input, 1), m - 1);
        },
        Token::Del(Delimiter::LParen) => {
            lemma_aexpr(from(input, 1));
            lemma_aexpr_prefix(from(input, 1), m - 1);
        },
        _ => {},
    }
}

proof fn lemma_term_rest_prefix(input: Seq<Token>, left: AExpression, c: int, m: int)
    requires
        0 <= c,
        term_rest_spec(input, left, c) matches Some(Ok((_, n))) && n <= m <= input.len(),
    ensures
        term_rest_spec(input.take(m), left, c) == term_rest_spec(input, left, c),
    decreases input.len(), 0int, input.len() - c,
{
    lemma_term_rest_bound(input, left, c);
    lemma_take_from(input, 0, m);
    if tok_at(input, c, Token::Op(Operator::Mul)) {
        lemma_factor(from(input, c + 1));
        if let Some(Ok((right, k))) = factor_spec(from(input, c + 1)) {
            let e = AExpression::Mul(Box::new(left), Box::new(right));
            lemma_term_rest_bound(input, e, c + 1 + k);
            lemma_take_from(input, c + 1, m);
            lemma_factor_prefix(from(input, c + 1), m - c - 1);
            lemma_term_rest_prefix(input, e, c + 1 + k, m);
        }
    }
}

proof fn lemma_term_prefix(input: Seq<Token>, m: int)
    requires
        term_spec(input) matches Some(Ok((_, n))) && n <= m <= input.len(),
    ensures
        term_spec(input.take(m)) == term_spec(input),
    decreases input.len(), 1int, 0int,
{
    lemma_factor(input);
    if let Some(Ok((left, c))) = factor_spec(input) {
        lemma_term_rest_bound(input, left, c);
        lemma_factor_prefix(input, m);
        lemma_term_rest_prefix(input, left, c, m);
    }
}

proof fn lemma_aexpr_rest_prefix(input: Seq<Token>, left: AExpression, c: int, m: int)
    requires
        0 <= c,
        aexpr_rest_spec(input, left, c) matches Some(Ok((_, n))) && n <= m <= input.len(),
    ensures
        aexpr_rest_spec(input.take(m), left, c) == aexpr_rest_spec(input, left, c),
    decreases input.len(), 1int, input.len() - c,
{
    lemma_aexpr_rest_bound(input, left, c);
    lemma_take_from(input, 0, m);
    if tok_at(input, c, Token::Op(Operator::Add)) || tok_at(input, c, Token::Op(Operator::Sub)) {
        lemma_term(from(input, c + 1));
        if let Some(Ok((right, k))) = term_spec(from(input, c + 1)) {
            let e = if input[c] == Token::Op(Operator::Add) {
                AExpression::Add(Box::new(left), Box::new(right))
            } else {
                AExpression::Sub(Box::new(left), Box::new(right))
            };
            lemma_aexpr_rest_bound(input, e, c + 1 + k);
            lemma_take_from(input, c + 1, m);
            assert(input.take(m)[c] == input[c]);
            lemma_term_prefix(from(input, c + 1), m - c - 1);
            lemma_aexpr_rest_prefix(input, e, c + 1 + k, m);
        }
    }
}

proof fn lemma_aexpr_prefix(input: Seq<Token>, m: int)
    requires
        aexpr_spec(input) matches Some(Ok((_, n))) && n <= m <= input.len(),
    ensures
        aexpr_spec(input.take(m)) == aexpr_spec(input),
    decreases input.len(), 2int, 0int,
{
    lemma_term(input);
    if let Some(Ok((left, c))) = term_spec(input) {
        lemma_aexpr_rest_bound(input, left, c);
        lemma_term_prefix(input, m);
        lemma_aexpr_rest_prefix(input, left, c, m);
    }
}

/// An arithmetic expression is read up to the first token that cannot
/// continue it: where reading succeeds over `n` tokens, no `+`, `-` or `*`
/// follows them, and reading the first `n` tokens alone gives the same.
pub proof fn law_arithmetic_read_stops_and_is_local(input: Seq<Token>)
    ensures
        aexpr_spec(input) matches Some(Ok((e, n))) ==> {
            &&& 1 <= n <= input.len()
            &&& !tok_at(input, n, Token::Op(Operator::Add))
            &&& !tok_at(input, n, Token::Op(Operator::Sub))
            &&& !tok_at(input, n, Token::Op(Operator::Mul))
            &&& aexpr_spec(input.take(n)) == aexpr_spec(input)
        },
{
    lemma_aexpr(input);
    lemma_term(input);
    lemma_term_stops(input);
    if let Some(Ok((left, c))) = term_spec(input) {
        lemma_aexpr_rest_stops(input, left, c);
    }
    if let Some(Ok((_, n))) = aexpr_spec(input) {
        lemma_aexpr_prefix(input, n);
    }
}

} // verus!
