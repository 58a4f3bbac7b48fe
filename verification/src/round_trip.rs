//! The parser reads back what the token writers write: laws that relate
//! `to_tokens` of expressions and labelled statements to parsing.

use vstd::prelude::*;
use crate::ast::{
    aexpr_rest_spec, aexpr_spec, bcomp_spec, bfactor_spec, bexpr_rest_spec, bexpr_spec, factor_spec, from,
    term_rest_spec, term_spec, tok_at, AExpression, BExpression, Parsed,
    assign_spec, if_spec, parse_spec, simple_stmt_spec, stmt_spec, while_spec, Statement,
};
use crate::error::SyntaxError;
use crate::labeler::{elementary_count, labelled, law_labelling_keeps_statement, unlabelled};
use crate::labelled_ast::{
    aexpr_tokens, atom_tokens, bcomp_tokens, bexpr_tokens, lparen, op_tok, rparen, stmt_tokens,
    term_tokens, Label, StatementL,
};
use crate::lexer::{Identifier, Keyword, Operator, Token};

verus! {

/// `r` cannot continue an arithmetic expression: it does not start with
/// `*`, `+` or `-`.
pub open spec fn ends_aexpr(r: Seq<Token>) -> bool {
    &&& !tok_at(r, 0, Token::Op(Operator::Mul))
    &&& !tok_at(r, 0, Token::Op(Operator::Add))
    &&& !tok_at(r, 0, Token::Op(Operator::Sub))
}

/// Which of the three arithmetic lemmas (`kind` 0 for a factor, 1 for a
/// term, 2 for an expression) may call which on the same expression: the
/// order follows the way the token functions unfold.
spec fn arith_rank(e: AExpression, kind: int) -> int {
    match e {
        AExpression::Add(_, _) | AExpression::Sub(_, _) => if kind == 0 {
            2int
        } else if kind == 1 {
            3int
        } else {
            1int
        },
        AExpression::Mul(_, _) => if kind == 0 {
            3int
        } else if kind == 1 {
            1int
        } else {
            2int
        },
        _ => if kind == 0 {
            1int
        } else if kind == 1 {
            2int
        } else {
            3int
        },
    }
}

/// A parse that read `v` over `n` tokens.
pub open spec fn read<T>(v: T, n: int) -> Parsed<T> {
    Some(Ok((v, n)))
}

proof fn lemma_from_concat(a: Seq<Token>, b: Seq<Token>)
    ensures
        from(a + b, a.len() as int) == b,
{
    assert(from(a + b, a.len() as int) =~= b);
}

proof fn lemma_atom(e: AExpression, r: Seq<Token>)
    ensures
        factor_spec(atom_tokens(e) + r) == read(e, atom_tokens(e).len() as int),
    decreases e, arith_rank(e, 0),
{
    let input = atom_tokens(e) + r;
    match e {
        AExpression::Int(_) | AExpression::Var(_) => {
            assert(input[0] == atom_tokens(e)[0]);
        },
        _ => {
            let inner = aexpr_tokens(e);
            let tail = seq![rparen()] + r;
            match e {
                AExpression::Mul(l, rr) => {
                    assert(inner == term_tokens(e));
                    assert(inner =~= term_tokens(*l) + seq![op_tok(Operator::Mul)] + atom_tokens(*rr));
                },
                _ => {},
            }
            assert(atom_tokens(e) =~= seq![lparen()] + inner + seq![rparen()]);
            assert(input =~= seq![lparen()] + (inner + tail));
            lemma_from_concat(seq![lparen()], inner + tail);
            lemma_aexpr(e, tail);
            lemma_from_concat(inner, tail);
            assert((inner + tail)[inner.len() as int] == rparen());
            assert(input[1 + inner.len() as int] == rparen());
        },
    }
}

/// Reading a term over the tokens of `e` comes to `e` with the cursor
/// after them; what follows decides whether the term goes on.
proof fn lemma_term(e: AExpression, r: Seq<Token>)
    ensures
        term_spec(term_tokens(e) + r) == term_rest_spec(
            term_tokens(e) + r,
            e,
            term_tokens(e).len() as int,
        ),
    decreases e, arith_rank(e, 1),
{
    let input = term_tokens(e) + r;
    match e {
        AExpression::Mul(l, rr) => {
            let tl = term_tokens(*l);
            let ar = atom_tokens(*rr);
            let rest = seq![op_tok(Operator::Mul)] + ar + r;
            assert(input =~= tl + rest);
            lemma_term(*l, rest);
            assert(input[tl.len() as int] == op_tok(Operator::Mul));
            assert(from(input, tl.len() + 1int) =~= ar + r);
            lemma_atom(*rr, r);
        },
        _ => {
            lemma_atom(e, r);
        },
    }
}

/// Reading an arithmetic expression over the tokens of `e` comes to `e`
/// with the cursor after them, where no `*` follows.
proof fn lemma_aexpr(e: AExpression, r: Seq<Token>)
    requires
        !tok_at(r, 0, Token::Op(Operator::Mul)),
    ensures
        aexpr_spec(aexpr_tokens(e) + r) == aexpr_rest_spec(
            aexpr_tokens(e) + r,
            e,
            aexpr_tokens(e).len() as int,
        ),
    decreases e, arith_rank(e, 2),
{
    let input = aexpr_tokens(e) + r;
    match e {
        AExpression::Add(l, rr) => {
            let al = aexpr_tokens(*l);
            let tr = term_tokens(*rr);
            let rest = seq![op_tok(Operator::Add)] + tr + r;
            assert(input =~= al + rest);
            lemma_aexpr(*l, rest);
            assert(input[al.len() as int] == op_tok(Operator::Add));
            assert(from(input, al.len() + 1int) =~= tr + r);
            lemma_term(*rr, r);
            assert(!tok_at(tr + r, tr.len() as int, Token::Op(Operator::Mul)));
        },
        AExpression::Sub(l, rr) => {
            let al = aexpr_tokens(*l);
            let tr = term_tokens(*rr);
            let rest = seq![op_tok(Operator::Sub)] + tr + r;
            assert(input =~= al + rest);
            lemma_aexpr(*l, rest);
            assert(input[al.len() as int] == op_tok(Operator::Sub));
            assert(from(input, al.len() + 1int) =~= tr + r);
            lemma_term(*rr, r);
            assert(!tok_at(tr + r, tr.len() as int, Token::Op(Operator::Mul)));
        },
        _ => {
            lemma_term(e, r);
            assert(input =~= term_tokens(e) + r);
            assert(!tok_at(input, term_tokens(e).len() as int, Token::Op(Operator::Mul)));
        },
    }
}

/// Where nothing after it continues the expression, the tokens of `e` read
/// back as `e`.
proof fn lemma_aexpr_read(e: AExpression, r: Seq<Token>)
    requires
        ends_aexpr(r),
    ensures
        aexpr_spec(aexpr_tokens(e) + r) == read(e, aexpr_tokens(e).len() as int),
{
    let input = aexpr_tokens(e) + r;
    let n = aexpr_tokens(e).len() as int;
    lemma_aexpr(e, r);
    assert(tok_at(input, n, Token::Op(Operator::Add)) == tok_at(r, 0, Token::Op(Operator::Add)));
    assert(tok_at(input, n, Token::Op(Operator::Sub)) == tok_at(r, 0, Token::Op(Operator::Sub)));
}

/// The parser reads back the tokens that `AExpression::to_tokens` writes:
/// followed by the end of the input, the tokens of `e` parse as `e`, all of
/// them consumed.
pub proof fn law_arithmetic_tokens_read_back(e: AExpression)
    ensures
        aexpr_spec(aexpr_tokens(e) + seq![Token::End]) == read(e, aexpr_tokens(e).len() as int),
{
    lemma_aexpr_read(e, seq![Token::End]);
}

// ---------------------------------------------------------------------
// Boolean expressions
// ---------------------------------------------------------------------

/// Which of the boolean lemmas (`kind` 0 for a comparison, 1 for an
/// expression) may call which on the same expression.
spec fn bool_rank(b: BExpression, kind: int) -> int {
    match b {
        BExpression::And(_, _) => if kind == 0 {
            2int
        } else {
            1int
        },
        _ => if kind == 0 {
            1int
        } else {
            2int
        },
    }
}

/// An arithmetic expression read over the tokens of a boolean comparison
/// either fails or stops at its `=` or `<=`.
pub open spec fn stops_at_relation(p: Parsed<AExpression>, input: Seq<Token>, n: int) -> bool {
    match p {
        Some(Err(_)) => true,
        Some(Ok((_, c))) => 0 <= c < n && (input[c] == Token::Op(Operator::Equ) || input[c]
            == Token::Op(Operator::Leq)),
        None => false,
    }
}

proof fn lemma_bcomp_not_arith(b: BExpression, r: Seq<Token>)
    ensures
        stops_at_relation(aexpr_spec(bcomp_tokens(b) + r), bcomp_tokens(b) + r, bcomp_tokens(b).len() as int),
    decreases b, bool_rank(b, 0),
{
    let input = bcomp_tokens(b) + r;
    match b {
        BExpression::Equ(l, rr) => {
            let rest = seq![op_tok(Operator::Equ)] + aexpr_tokens(rr) + r;
            assert(input =~= aexpr_tokens(l) + rest);
            lemma_aexpr_read(l, rest);
        },
        BExpression::Leq(l, rr) => {
            let rest = seq![op_tok(Operator::Leq)] + aexpr_tokens(rr) + r;
            assert(input =~= aexpr_tokens(l) + rest);
            lemma_aexpr_read(l, rest);
        },
        BExpression::And(l, rr) => {
            let inner = bexpr_tokens(*l);
            let tail = seq![op_tok(Operator::And)] + bcomp_tokens(*rr) + seq![rparen()] + r;
            assert(input =~= seq![lparen()] + (inner + tail));
            lemma_from_concat(seq![lparen()], inner + tail);
            lemma_bexpr_not_arith(*l, tail);
            assert(input[0] == lparen());
            assert(term_spec(input) is Some && term_spec(input)->0 is Err);
        },
        _ => {
            assert(input[0] == bcomp_tokens(b)[0]);
        },
    }
}

proof fn lemma_bexpr_not_arith(b: BExpression, r: Seq<Token>)
    ensures
        stops_at_relation(aexpr_spec(bexpr_tokens(b) + r), bexpr_tokens(b) + r, bexpr_tokens(b).len() as int),
    decreases b, bool_rank(b, 1),
{
    let input = bexpr_tokens(b) + r;
    match b {
        BExpression::And(l, rr) => {
            let rest = seq![op_tok(Operator::And)] + bcomp_tokens(*rr) + r;
            assert(input =~= bexpr_tokens(*l) + rest);
            lemma_bexpr_not_arith(*l, rest);
        },
        _ => {
            lemma_bcomp_not_arith(b, r);
        },
    }
}

/// The tokens of a comparison read back as it, where nothing after them
/// continues an arithmetic expression.
proof fn lemma_bcomp(b: BExpression, r: Seq<Token>)
    requires
        ends_aexpr(r),
    ensures
        bcomp_spec(bcomp_tokens(b) + r) == read(b, bcomp_tokens(b).len() as int),
    decreases b, bool_rank(b, 0),
{
    let input = bcomp_tokens(b) + r;
    match b {
        BExpression::True | BExpression::False => {
            assert(input[0] == bcomp_tokens(b)[0]);
            assert(factor_spec(input) is Some && factor_spec(input)->0 is Err);
            assert(term_spec(input) is Some && term_spec(input)->0 is Err);
            assert(aexpr_spec(input) is Some && aexpr_spec(input)->0 is Err);
            assert(input[0] != op_tok(Operator::Not));
            assert(bcomp_spec(input) == bfactor_spec(input));
            assert(bfactor_spec(input) == read(b, 1));
        },
        BExpression::Equ(_, _) | BExpression::Leq(_, _) => {
            lemma_relation_read(b, r);
        },
        BExpression::Not(x) => {
            assert(input =~= seq![op_tok(Operator::Not)] + (bcomp_tokens(*x) + r));
            lemma_from_concat(seq![op_tok(Operator::Not)], bcomp_tokens(*x) + r);
            lemma_bcomp(*x, r);
        },
        BExpression::And(l, rr) => {
            let inner = bexpr_tokens(b);
            let tail = seq![rparen()] + r;
            let ltail = seq![op_tok(Operator::And)] + bcomp_tokens(*rr) + tail;
            assert(inner =~= bexpr_tokens(*l) + seq![op_tok(Operator::And)] + bcomp_tokens(*rr));
            assert(inner + tail =~= bexpr_tokens(*l) + ltail);
            lemma_bexpr_not_arith(*l, ltail);
            lemma_bexpr(b, tail);
            lemma_conjunction_read(*l, *rr, r);
        },
    }
}

/// A comparison `l = r` or `l <= r` reads back as itself.
proof fn lemma_relation_read(b: BExpression, r: Seq<Token>)
    requires
        ends_aexpr(r),
        b is Equ || b is Leq,
    ensures
        bcomp_spec(bcomp_tokens(b) + r) == read(b, bcomp_tokens(b).len() as int),
{
    let input = bcomp_tokens(b) + r;
    let (l, rr, o) = match b {
        BExpression::Equ(l, rr) => (l, rr, Operator::Equ),
        BExpression::Leq(l, rr) => (l, rr, Operator::Leq),
        _ => (AExpression::Int(0), AExpression::Int(0), Operator::Equ),
    };
    let al = aexpr_tokens(l);
    let rest = seq![op_tok(o)] + aexpr_tokens(rr) + r;
    assert(input =~= al + rest);
    lemma_aexpr_read(l, rest);
    lemma_aexpr_nonempty(l);
    lemma_aexpr_nonempty(rr);
    assert(input[al.len() as int] == op_tok(o));
    assert(from(input, al.len() + 1int) =~= aexpr_tokens(rr) + r);
    lemma_aexpr_read(rr, r);
}

/// A parenthesised conjunction reads back as itself, given what reading
/// its inside comes to.
#[verifier::rlimit(30)]
proof fn lemma_conjunction_read(l: BExpression, rr: BExpression, r: Seq<Token>)
    requires
        ends_aexpr(r),
        stops_at_relation(
            aexpr_spec(bexpr_tokens(l) + (seq![op_tok(Operator::And)] + bcomp_tokens(rr) + (seq![rparen()] + r))),
            bexpr_tokens(l) + (seq![op_tok(Operator::And)] + bcomp_tokens(rr) + (seq![rparen()] + r)),
            bexpr_tokens(l).len() as int,
        ),
        bexpr_spec(bexpr_tokens(BExpression::And(Box::new(l), Box::new(rr))) + (seq![rparen()] + r))
            == bexpr_rest_spec(
            bexpr_tokens(BExpression::And(Box::new(l), Box::new(rr))) + (seq![rparen()] + r),
            BExpression::And(Box::new(l), Box::new(rr)),
            bexpr_tokens(BExpression::And(Box::new(l), Box::new(rr))).len() as int,
        ),
    ensures
        ({
            let b = BExpression::And(Box::new(l), Box::new(rr));
            bcomp_spec(bcomp_tokens(b) + r) == read(b, bcomp_tokens(b).len() as int)
        }),
{
    let b = BExpression::And(Box::new(l), Box::new(rr));
    let input = bcomp_tokens(b) + r;
    let inner = bexpr_tokens(b);
    let tail = seq![rparen()] + r;
    let ltail = seq![op_tok(Operator::And)] + bcomp_tokens(rr) + tail;
    assert(inner =~= bexpr_tokens(l) + seq![op_tok(Operator::And)] + bcomp_tokens(rr));
    assert(inner + tail =~= bexpr_tokens(l) + ltail);
    assert(input =~= seq![lparen()] + (inner + tail));
    lemma_from_concat(seq![lparen()], inner + tail);
    assert(input[0] == lparen());
    let p = aexpr_spec(from(input, 1));
    assert(from(input, 1) == bexpr_tokens(l) + ltail);
    assert(factor_spec(input) is Some && factor_spec(input)->0 is Err) by {
        match p {
            Some(Ok((_, c))) => {
                assert(input[1 + c] == (bexpr_tokens(l) + ltail)[c]);
            },
            _ => {},
        }
    }
    assert(term_spec(input) is Some && term_spec(input)->0 is Err);
    assert(aexpr_spec(input) is Some && aexpr_spec(input)->0 is Err);
    assert(bcomp_spec(input) == bfactor_spec(input));
    lemma_from_concat(inner, tail);
    assert((inner + tail)[inner.len() as int] == rparen());
    assert(!tok_at(inner + tail, inner.len() as int, Token::Op(Operator::And)));
    assert(bexpr_spec(from(input, 1)) == read(b, inner.len() as int));
    assert(input[1 + inner.len() as int] == rparen());
}

/// Reading a boolean expression over the tokens of `b` comes to `b` with
/// the cursor after them.
proof fn lemma_bexpr(b: BExpression, r: Seq<Token>)
    requires
        ends_aexpr(r),
    ensures
        bexpr_spec(bexpr_tokens(b) + r) == bexpr_rest_spec(
            bexpr_tokens(b) + r,
            b,
            bexpr_tokens(b).len() as int,
        ),
    decreases b, bool_rank(b, 1),
{
    let input = bexpr_tokens(b) + r;
    match b {
        BExpression::And(l, rr) => {
            let bl = bexpr_tokens(*l);
            let cr = bcomp_tokens(*rr);
            let rest = seq![op_tok(Operator::And)] + cr + r;
            assert(input =~= bl + rest);
            lemma_bexpr(*l, rest);
            assert(input[bl.len() as int] == op_tok(Operator::And));
            assert(from(input, bl.len() + 1int) =~= cr + r);
            lemma_bcomp(*rr, r);
        },
        _ => {
            lemma_bcomp(b, r);
        },
    }
}

proof fn lemma_aexpr_nonempty(e: AExpression)
    ensures
        aexpr_tokens(e).len() > 0,
{
    match e {
        AExpression::Mul(_, _) => assert(aexpr_tokens(e) == term_tokens(e)),
        AExpression::Int(_) | AExpression::Var(_) => {
            assert(aexpr_tokens(e) == term_tokens(e));
            assert(term_tokens(e) == atom_tokens(e));
        },
        _ => {},
    }
}

/// Where nothing after them continues it, the tokens of `b` read back as
/// `b`.
proof fn lemma_bexpr_read(b: BExpression, r: Seq<Token>)
    requires
        ends_aexpr(r),
        !tok_at(r, 0, Token::Op(Operator::And)),
    ensures
        bexpr_spec(bexpr_tokens(b) + r) == read(b, bexpr_tokens(b).len() as int),
{
    let input = bexpr_tokens(b) + r;
    lemma_bexpr(b, r);
    assert(tok_at(input, bexpr_tokens(b).len() as int, Token::Op(Operator::And)) == tok_at(
        r,
        0,
        Token::Op(Operator::And),
    ));
}

/// The parser reads back the tokens that `BExpression::to_tokens` writes:
/// followed by the end of the input, the tokens of `b` parse as `b`, all of
/// them consumed.
pub proof fn law_boolean_tokens_read_back(b: BExpression)
    ensures
        bexpr_spec(bexpr_tokens(b) + seq![Token::End]) == read(b, bexpr_tokens(b).len() as int),
{
    lemma_bexpr_read(b, seq![Token::End]);
}

// ---------------------------------------------------------------------
// Statements
// ---------------------------------------------------------------------

/// No sequence stands first in a sequence: `;` nests to the right, the
/// way the parser reads it.
pub open spec fn right_nested(s: StatementL) -> bool
    decreases s,
{
    match s {
        StatementL::Sequence(a, b) => !((*a) is Sequence) && right_nested(*a) && right_nested(*b),
        StatementL::If(_, _, a, b) => right_nested(*a) && right_nested(*b),
        StatementL::While(_, _, b) => right_nested(*b),
        _ => true,
    }
}

/// `r` cannot continue a statement: it does not start with `;`, `*`, `+`
/// or `-`.
pub open spec fn ends_stmt(r: Seq<Token>) -> bool {
    ends_aexpr(r) && !tok_at(r, 0, Token::Op(Operator::Semicolon))
}

proof fn lemma_simple(s: StatementL, r: Seq<Token>)
    requires
        right_nested(s),
        !(s is Sequence),
        ends_aexpr(r),
    ensures
        simple_stmt_spec(stmt_tokens(s) + r) == read(unlabelled(s), stmt_tokens(s).len() as int),
    decreases s, 1int,
{
    match s {
        StatementL::Assign(_, x, e) => lemma_simple_assign(s, r),
        StatementL::Skip(_) => {
            assert((stmt_tokens(s) + r)[0] == Token::Kw(Keyword::Skip));
        },
        StatementL::If(_, _, _, _) => lemma_simple_if(s, r),
        StatementL::While(_, _, _) => lemma_simple_while(s, r),
        StatementL::Sequence(_, _) => {},
    }
}

proof fn lemma_simple_assign(s: StatementL, r: Seq<Token>)
    requires
        s is Assign,
        ends_aexpr(r),
    ensures
        simple_stmt_spec(stmt_tokens(s) + r) == read(unlabelled(s), stmt_tokens(s).len() as int),
{
    if let StatementL::Assign(_, x, e) = s {
        let input = stmt_tokens(s) + r;
        let ae = aexpr_tokens(e);
        let head = seq![Token::Idf(Identifier::Variable(x)), op_tok(Operator::Assign)];
        assert(input =~= head + (ae + r));
        lemma_from_concat(head, ae + r);
        lemma_aexpr_read(e, r);
        lemma_aexpr_nonempty(e);
        lemma_assign_shape(input, x, e, ae.len() as int);
    }
}

proof fn lemma_simple_if(s: StatementL, r: Seq<Token>)
    requires
        s is If,
        right_nested(s),
        ends_aexpr(r),
    ensures
        simple_stmt_spec(stmt_tokens(s) + r) == read(unlabelled(s), stmt_tokens(s).len() as int),
    decreases s, 0int,
{
    if let StatementL::If(_, c, a, b) = s {
        let bc = bexpr_tokens(c);
        let sa = stmt_tokens(*a);
        let sb = stmt_tokens(*b);
        let rb = seq![Token::Kw(Keyword::End)] + r;
        let ra = seq![Token::Kw(Keyword::Else)] + sb + rb;
        let rc = seq![Token::Kw(Keyword::Then)] + sa + ra;
        lemma_stmt(*a, ra);
        lemma_stmt(*b, rb);
        lemma_bexpr_read(c, rc);
        assert(stmt_tokens(s) == seq![Token::Kw(Keyword::If)] + bc + seq![Token::Kw(Keyword::Then)]
            + sa + seq![Token::Kw(Keyword::Else)] + sb + seq![Token::Kw(Keyword::End)]);
        lemma_if_case(bc, sa, sb, r, c, unlabelled(*a), unlabelled(*b));
    }
}

proof fn lemma_simple_while(s: StatementL, r: Seq<Token>)
    requires
        s is While,
        right_nested(s),
        ends_aexpr(r),
    ensures
        simple_stmt_spec(stmt_tokens(s) + r) == read(unlabelled(s), stmt_tokens(s).len() as int),
    decreases s, 0int,
{
    if let StatementL::While(_, c, body) = s {
        let bc = bexpr_tokens(c);
        let sb = stmt_tokens(*body);
        let rb = seq![Token::Kw(Keyword::End)] + r;
        let rc = seq![Token::Kw(Keyword::Do)] + sb + rb;
        lemma_stmt(*body, rb);
        lemma_bexpr_read(c, rc);
        assert(stmt_tokens(s) == seq![Token::Kw(Keyword::While)] + bc + seq![Token::Kw(Keyword::Do)]
            + sb + seq![Token::Kw(Keyword::End)]);
        lemma_while_case(bc, sb, r, c, unlabelled(*body));
    }
}

/// The tokens of an `if` read as it, given what its parts read as.
#[verifier::rlimit(50)]
proof fn lemma_if_case(
    bc: Seq<Token>,
    sa: Seq<Token>,
    sb: Seq<Token>,
    r: Seq<Token>,
    c: BExpression,
    a: Statement,
    b: Statement,
)
    requires
        bexpr_spec(bc + (seq![Token::Kw(Keyword::Then)] + sa + (seq![Token::Kw(Keyword::Else)] + sb
            + (seq![Token::Kw(Keyword::End)] + r)))) == read(c, bc.len() as int),
        stmt_spec(sa + (seq![Token::Kw(Keyword::Else)] + sb + (seq![Token::Kw(Keyword::End)] + r)))
            == read(a, sa.len() as int),
        stmt_spec(sb + (seq![Token::Kw(Keyword::End)] + r)) == read(b, sb.len() as int),
    ensures
        simple_stmt_spec(
            seq![Token::Kw(Keyword::If)] + bc + seq![Token::Kw(Keyword::Then)] + sa + seq![
                Token::Kw(Keyword::Else),
            ] + sb + seq![Token::Kw(Keyword::End)] + r,
        ) == read(
            Statement::If(c, Box::new(a), Box::new(b)),
            bc.len() + sa.len() + sb.len() + 4int,
        ),
{
    let input = seq![Token::Kw(Keyword::If)] + bc + seq![Token::Kw(Keyword::Then)] + sa + seq![
        Token::Kw(Keyword::Else),
    ] + sb + seq![Token::Kw(Keyword::End)] + r;
    lemma_if_layout(bc, sa, sb, r);
    lemma_if_shape(input, c, bc.len() as int, a, sa.len() as int, b, sb.len() as int);
}

/// Where the parts of an `if` stand in its tokens.
proof fn lemma_if_layout(bc: Seq<Token>, sa: Seq<Token>, sb: Seq<Token>, r: Seq<Token>)
    ensures
        ({
            let input = seq![Token::Kw(Keyword::If)] + bc + seq![Token::Kw(Keyword::Then)] + sa
                + seq![Token::Kw(Keyword::Else)] + sb + seq![Token::Kw(Keyword::End)] + r;
            let rb = seq![Token::Kw(Keyword::End)] + r;
            let ra = seq![Token::Kw(Keyword::Else)] + sb + rb;
            let rc = seq![Token::Kw(Keyword::Then)] + sa + ra;
            let c1: int = 1int + bc.len();
            let c2: int = c1 + 1 + sa.len();
            let c3: int = c2 + 1 + sb.len();
            &&& tok_at(input, 0, Token::Kw(Keyword::If))
            &&& from(input, 1) == bc + rc
            &&& tok_at(input, c1, Token::Kw(Keyword::Then))
            &&& from(input, c1 + 1) == sa + ra
            &&& tok_at(input, c2, Token::Kw(Keyword::Else))
            &&& from(input, c2 + 1) == sb + rb
            &&& tok_at(input, c3, Token::Kw(Keyword::End))
        }),
{
    let input = seq![Token::Kw(Keyword::If)] + bc + seq![Token::Kw(Keyword::Then)] + sa + seq![
        Token::Kw(Keyword::Else),
    ] + sb + seq![Token::Kw(Keyword::End)] + r;
    let rb = seq![Token::Kw(Keyword::End)] + r;
    let ra = seq![Token::Kw(Keyword::Else)] + sb + rb;
    let rc = seq![Token::Kw(Keyword::Then)] + sa + ra;
    assert(from(input, 1) =~= bc + rc);
    let c1: int = 1int + bc.len();
    assert(input[c1] == Token::Kw(Keyword::Then));
    assert(from(input, c1 + 1) =~= sa + ra);
    let c2: int = c1 + 1 + sa.len();
    assert(input[c2] == Token::Kw(Keyword::Else));
    assert(from(input, c2 + 1) =~= sb + rb);
    let c3: int = c2 + 1 + sb.len();
    assert(input[c3] == Token::Kw(Keyword::End));
}

/// The tokens of a `while` read as it, given what its parts read as.
#[verifier::rlimit(50)]
proof fn lemma_while_case(
    bc: Seq<Token>,
    sb: Seq<Token>,
    r: Seq<Token>,
    c: BExpression,
    body: Statement,
)
    requires
        bexpr_spec(bc + (seq![Token::Kw(Keyword::Do)] + sb + (seq![Token::Kw(Keyword::End)] + r)))
            == read(c, bc.len() as int),
        stmt_spec(sb + (seq![Token::Kw(Keyword::End)] + r)) == read(body, sb.len() as int),
    ensures
        simple_stmt_spec(
            seq![Token::Kw(Keyword::While)] + bc + seq![Token::Kw(Keyword::Do)] + sb + seq![
                Token::Kw(Keyword::End),
            ] + r,
        ) == read(Statement::While(c, Box::new(body)), bc.len() + sb.len() + 3int),
{
    let input = seq![Token::Kw(Keyword::While)] + bc + seq![Token::Kw(Keyword::Do)] + sb + seq![
        Token::Kw(Keyword::End),
    ] + r;
    let rb = seq![Token::Kw(Keyword::End)] + r;
    let rc = seq![Token::Kw(Keyword::Do)] + sb + rb;
    assert(from(input, 1) =~= bc + rc);
    let c1: int = 1int + bc.len();
    assert(input[c1] == Token::Kw(Keyword::Do));
    assert(from(input, c1 + 1) =~= sb + rb);
    let c2: int = c1 + 1 + sb.len();
    assert(input[c2] == Token::Kw(Keyword::End));
    lemma_while_shape(input, c, bc.len() as int, body, sb.len() as int);
}

/// The tokens of a sequence read as it, given what its parts read as.
#[verifier::rlimit(40)]
proof fn lemma_sequence_case(sa: Seq<Token>, sb: Seq<Token>, r: Seq<Token>, a: Statement, b: Statement)
    requires
        simple_stmt_spec(sa + (seq![op_tok(Operator::Semicolon)] + sb + r)) == read(a, sa.len() as int),
        stmt_spec(sb + r) == read(b, sb.len() as int),
    ensures
        stmt_spec(sa + seq![op_tok(Operator::Semicolon)] + sb + r) == read(
            Statement::Sequence(Box::new(a), Box::new(b)),
            sa.len() + 1int + sb.len(),
        ),
{
    let input = sa + seq![op_tok(Operator::Semicolon)] + sb + r;
    assert(input =~= sa + (seq![op_tok(Operator::Semicolon)] + sb + r));
    assert(input[sa.len() as int] == op_tok(Operator::Semicolon));
    assert(from(input, sa.len() + 1int) =~= sb + r);
    lemma_sequence_shape(input, a, sa.len() as int, b, sb.len() as int);
}

/// An assignment reads as itself, from what its right side reads as.
#[verifier::rlimit(40)]
proof fn lemma_assign_shape(input: Seq<Token>, x: String, e: AExpression, n: int)
    requires
        n > 0,
        tok_at(input, 0, Token::Idf(Identifier::Variable(x))),
        tok_at(input, 1, op_tok(Operator::Assign)),
        aexpr_spec(from(input, 2)) == read(e, n),
        input.len() >= n + 2,
    ensures
        simple_stmt_spec(input) == read(Statement::Assign(x, e), n + 2),
{
    assert(assign_spec(input) == read(Statement::Assign(x, e), n + 2));
}

/// An `if` reads as itself, from what its parts read as.
#[verifier::rlimit(40)]
proof fn lemma_if_shape(
    input: Seq<Token>,
    c: BExpression,
    n1: int,
    a: Statement,
    n2: int,
    b: Statement,
    n3: int,
)
    requires
        n1 >= 0,
        n2 >= 0,
        n3 >= 0,
        tok_at(input, 0, Token::Kw(Keyword::If)),
        bexpr_spec(from(input, 1)) == read(c, n1),
        tok_at(input, 1 + n1, Token::Kw(Keyword::Then)),
        stmt_spec(from(input, 2 + n1)) == read(a, n2),
        tok_at(input, 2 + n1 + n2, Token::Kw(Keyword::Else)),
        stmt_spec(from(input, 3 + n1 + n2)) == read(b, n3),
        tok_at(input, 3 + n1 + n2 + n3, Token::Kw(Keyword::End)),
    ensures
        simple_stmt_spec(input) == read(Statement::If(c, Box::new(a), Box::new(b)), 4 + n1 + n2 + n3),
{
    assert(if_spec(input) == read(Statement::If(c, Box::new(a), Box::new(b)), 4 + n1 + n2 + n3));
}

/// A `while` reads as itself, from what its parts read as.
#[verifier::rlimit(40)]
proof fn lemma_while_shape(input: Seq<Token>, c: BExpression, n1: int, body: Statement, n2: int)
    requires
        n1 >= 0,
        n2 >= 0,
        tok_at(input, 0, Token::Kw(Keyword::While)),
        bexpr_spec(from(input, 1)) == read(c, n1),
        tok_at(input, 1 + n1, Token::Kw(Keyword::Do)),
        stmt_spec(from(input, 2 + n1)) == read(body, n2),
        tok_at(input, 2 + n1 + n2, Token::Kw(Keyword::End)),
    ensures
        simple_stmt_spec(input) == read(Statement::While(c, Box::new(body)), 3 + n1 + n2),
{
    assert(while_spec(input) == read(Statement::While(c, Box::new(body)), 3 + n1 + n2));
}

/// A sequence reads as itself, from what its parts read as.
#[verifier::rlimit(40)]
proof fn lemma_sequence_shape(input: Seq<Token>, a: Statement, n1: int, b: Statement, n2: int)
    requires
        n1 >= 0,
        simple_stmt_spec(input) == read(a, n1),
        tok_at(input, n1, op_tok(Operator::Semicolon)),
        stmt_spec(from(input, n1 + 1)) == read(b, n2),
    ensures
        stmt_spec(input) == read(Statement::Sequence(Box::new(a), Box::new(b)), n1 + 1 + n2),
{
}

/// A statement with no `;` after it reads as itself.
#[verifier::rlimit(40)]
proof fn lemma_single_shape(input: Seq<Token>, a: Statement, n: int)
    requires
        n >= 0,
        simple_stmt_spec(input) == read(a, n),
        !tok_at(input, n, op_tok(Operator::Semicolon)),
    ensures
        stmt_spec(input) == read(a, n),
{
}

/// The tokens of a right-nested statement read back as the statement
/// without its labels, where nothing after them continues it.
proof fn lemma_stmt(s: StatementL, r: Seq<Token>)
    requires
        right_nested(s),
        ends_stmt(r),
    ensures
        stmt_spec(stmt_tokens(s) + r) == read(unlabelled(s), stmt_tokens(s).len() as int),
    decreases s, 2int,
{
    let input = stmt_tokens(s) + r;
    match s {
        StatementL::Sequence(a, b) => {
            let sa = stmt_tokens(*a);
            let sb = stmt_tokens(*b);
            lemma_simple(*a, seq![op_tok(Operator::Semicolon)] + sb + r);
            lemma_stmt(*b, r);
            lemma_sequence_case(sa, sb, r, unlabelled(*a), unlabelled(*b));
        },
        _ => {
            lemma_simple(s, r);
            assert(!tok_at(input, stmt_tokens(s).len() as int, op_tok(Operator::Semicolon)));
            lemma_single_shape(input, unlabelled(s), stmt_tokens(s).len() as int);
        },
    }
}

/// The parser reads back the tokens that `StatementL::to_tokens` writes:
/// followed by the end of the input, the tokens of a statement whose
/// sequences nest to the right parse as that statement without its labels.
pub proof fn law_statement_tokens_read_back(s: StatementL)
    requires
        right_nested(s),
    ensures
        parse_spec(stmt_tokens(s) + seq![Token::End]) == Some(Ok::<Statement, SyntaxError>(unlabelled(s))),
{
    let r = seq![Token::End];
    lemma_stmt(s, r);
    assert((stmt_tokens(s) + r)[stmt_tokens(s).len() as int] == Token::End);
}

/// No sequence stands first in a sequence of `s`.
pub open spec fn nests_right(s: Statement) -> bool
    decreases s,
{
    match s {
        Statement::Sequence(a, b) => !((*a) is Sequence) && nests_right(*a) && nests_right(*b),
        Statement::If(_, a, b) => nests_right(*a) && nests_right(*b),
        Statement::While(_, b) => nests_right(*b),
        _ => true,
    }
}

proof fn lemma_labelled_nests(s: Statement, c: int)
    ensures
        right_nested(labelled(s, c)) == nests_right(s),
    decreases s,
{
    match s {
        Statement::Sequence(a, b) => {
            lemma_labelled_nests(*a, c);
            lemma_labelled_nests(*b, c + elementary_count(*a));
        },
        Statement::If(_, a, b) => {
            lemma_labelled_nests(*a, c + 1);
            lemma_labelled_nests(*b, c + 1 + elementary_count(*a));
        },
        Statement::While(_, b) => {
            lemma_labelled_nests(*b, c + 1);
        },
        _ => {},
    }
}

/// A statement read before any `;` is no sequence, and its own sequences
/// nest to the right.
proof fn lemma_simple_nests(input: Seq<Token>, s: Statement, k: int)
    requires
        simple_stmt_spec(input) == read(s, k),
    ensures
        nests_right(s),
        !(s is Sequence),
    decreases s, 0int,
{
    match input[0] {
        Token::Kw(Keyword::If) => {
            let (_, cc) = bexpr_spec(from(input, 1))->0->Ok_0;
            let c1 = 1 + cc;
            let (a, k1) = stmt_spec(from(input, c1 + 1))->0->Ok_0;
            let c2 = c1 + 1 + k1;
            let (b, k2) = stmt_spec(from(input, c2 + 1))->0->Ok_0;
            lemma_stmt_nests(from(input, c1 + 1), a, k1);
            lemma_stmt_nests(from(input, c2 + 1), b, k2);
        },
        Token::Kw(Keyword::While) => {
            let (_, cc) = bexpr_spec(from(input, 1))->0->Ok_0;
            let c1 = 1 + cc;
            let (body, k1) = stmt_spec(from(input, c1 + 1))->0->Ok_0;
            lemma_stmt_nests(from(input, c1 + 1), body, k1);
        },
        _ => {},
    }
}

/// The sequences of every statement the parser reads nest to the right.
proof fn lemma_stmt_nests(input: Seq<Token>, s: Statement, k: int)
    requires
        stmt_spec(input) == read(s, k),
    ensures
        nests_right(s),
    decreases s, 1int,
{
    let (st, c) = simple_stmt_spec(input)->0->Ok_0;
    assert(simple_stmt_spec(input) == read(st, c));
    if 0 <= c && tok_at(input, c, Token::Op(Operator::Semicolon)) {
        let (right, rc) = stmt_spec(from(input, c + 1))->0->Ok_0;
        assert(stmt_spec(from(input, c + 1)) == read(right, rc));
        assert(s == Statement::Sequence(Box::new(st), Box::new(right)));
        match s {
            Statement::Sequence(a, b) => {
                assert(*a == st && *b == right);
                lemma_simple_nests(input, *a, c);
                lemma_stmt_nests(from(input, c + 1), *b, rc);
            },
            _ => {},
        }
    } else {
        lemma_simple_nests(input, s, k);
    }
}

/// Every program the parser accepts comes back from its labelled tokens:
/// labelling it, writing the tokens with `StatementL::to_tokens` and
/// parsing them again gives the same program.
pub proof fn law_parsed_program_reads_back(input: Seq<Token>, s: Statement, c: int)
    requires
        parse_spec(input) == Some(Ok::<Statement, SyntaxError>(s)),
    ensures
        parse_spec(stmt_tokens(labelled(s, c)) + seq![Token::End]) == Some(
            Ok::<Statement, SyntaxError>(s),
        ),
{
    let (_, k) = stmt_spec(input)->0->Ok_0;
    lemma_stmt_nests(input, s, k);
    lemma_labelled_nests(s, c);
    law_labelling_keeps_statement(s, c);
    law_statement_tokens_read_back(labelled(s, c));
}

} // verus!
