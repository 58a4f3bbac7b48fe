use vstd::prelude::*;
use crate::ast::{AExpression, BExpression, Statement};
use crate::lexer::{Delimiter, Identifier, Keyword, Literal, Operator, Token};

verus! {

/// Labels of elementary statements.
pub type Label = usize;

/// A statement whose elementary statements (assignments, `skip`, and the
/// tests of `if` and `while`) each carry a label.
#[derive(Debug, PartialEq)]
pub enum StatementL {
    Assign(Label, String, AExpression),
    Sequence(Box<StatementL>, Box<StatementL>),
    If(Label, BExpression, Box<StatementL>, Box<StatementL>),
    While(Label, BExpression, Box<StatementL>),
    Skip(Label),
}

impl Clone for StatementL {
    /// A copy equal to `self`.
    fn clone(&self) -> (r: Self)
        ensures
            r == *self,
        decreases self,
    {
        match self {
            StatementL::Assign(l, v, e) => StatementL::Assign(*l, v.clone(), e.clone()),
            StatementL::Sequence(a, b) => StatementL::Sequence(
                Box::new((**a).clone()),
                Box::new((**b).clone()),
            ),
            StatementL::If(l, c, a, b) => StatementL::If(
                *l,
                c.clone(),
                Box::new((**a).clone()),
                Box::new((**b).clone()),
            ),
            StatementL::While(l, c, b) => StatementL::While(*l, c.clone(), Box::new((**b).clone())),
            StatementL::Skip(l) => StatementL::Skip(*l),
        }
    }
}

pub open spec fn op_tok(o: Operator) -> Token {
    Token::Op(o)
}

pub open spec fn lparen() -> Token {
    Token::Del(Delimiter::LParen)
}

pub open spec fn rparen() -> Token {
    Token::Del(Delimiter::RParen)
}

/// The tokens of an operand of `*` on its right: a literal, a variable, or
/// a parenthesised expression.
pub open spec fn atom_tokens(e: AExpression) -> Seq<Token>
    decreases e, 0int,
{
    match e {
        AExpression::Int(i) => seq![Token::Lit(Literal::Int(i))],
        AExpression::Var(x) => seq![Token::Idf(Identifier::Variable(x))],
        AExpression::Add(l, r) => seq![lparen()] + aexpr_tokens(*l) + seq![op_tok(Operator::Add)]
            + term_tokens(*r) + seq![rparen()],
        AExpression::Sub(l, r) => seq![lparen()] + aexpr_tokens(*l) + seq![op_tok(Operator::Sub)]
            + term_tokens(*r) + seq![rparen()],
        AExpression::Mul(l, r) => seq![lparen()] + term_tokens(*l) + seq![op_tok(Operator::Mul)]
            + atom_tokens(*r) + seq![rparen()],
    }
}

/// The tokens of an operand of `+` or `-` on its right: sums and
/// differences are parenthesised.
pub open spec fn term_tokens(e: AExpression) -> Seq<Token>
    decreases e, 1int,
{
    match e {
        AExpression::Mul(l, r) => term_tokens(*l) + seq![op_tok(Operator::Mul)] + atom_tokens(*r),
        _ => atom_tokens(e),
    }
}

/// The tokens of an arithmetic expression, with the parentheses that its
/// grouping needs under the grammar's precedence and left associativity.
pub open spec fn aexpr_tokens(e: AExpression) -> Seq<Token>
    decreases e, 2int,
{
    match e {
        AExpression::Add(l, r) => aexpr_tokens(*l) + seq![op_tok(Operator::Add)] + term_tokens(*r),
        AExpression::Sub(l, r) => aexpr_tokens(*l) + seq![op_tok(Operator::Sub)] + term_tokens(*r),
        _ => term_tokens(e),
    }
}

/// The tokens of an operand of `!` or of `&` on its right: conjunctions are
/// parenthesised.
pub open spec fn bcomp_tokens(b: BExpression) -> Seq<Token>
    decreases b, 0int,
{
    match b {
        BExpression::True => seq![Token::Lit(Literal::True)],
        BExpression::False => seq![Token::Lit(Literal::False)],
        BExpression::Equ(l, r) => aexpr_tokens(l) + seq![op_tok(Operator::Equ)] + aexpr_tokens(r),
        BExpression::Leq(l, r) => aexpr_tokens(l) + seq![op_tok(Operator::Leq)] + aexpr_tokens(r),
        BExpression::Not(x) => seq![op_tok(Operator::Not)] + bcomp_tokens(*x),
        BExpression::And(l, r) => seq![lparen()] + bexpr_tokens(*l) + seq![op_tok(Operator::And)]
            + bcomp_tokens(*r) + seq![rparen()],
    }
}

/// The tokens of a boolean expression.
pub open spec fn bexpr_tokens(b: BExpression) -> Seq<Token>
    decreases b, 1int,
{
    match b {
        BExpression::And(l, r) => bexpr_tokens(*l) + seq![op_tok(Operator::And)] + bcomp_tokens(*r),
        _ => bcomp_tokens(b),
    }
}

/// The tokens of a labelled statement, as the source would write it.
pub open spec fn stmt_tokens(s: StatementL) -> Seq<Token>
    decreases s,
{
    match s {
        StatementL::Assign(_, x, e) => seq![
            Token::Idf(Identifier::Variable(x)),
            op_tok(Operator::Assign),
        ] + aexpr_tokens(e),
        StatementL::Skip(_) => seq![Token::Kw(Keyword::Skip)],
        StatementL::Sequence(a, b) => stmt_tokens(*a) + seq![op_tok(Operator::Semicolon)]
            + stmt_tokens(*b),
        StatementL::If(_, c, a, b) => seq![Token::Kw(Keyword::If)] + bexpr_tokens(c) + seq![
            Token::Kw(Keyword::Then),
        ] + stmt_tokens(*a) + seq![Token::Kw(Keyword::Else)] + stmt_tokens(*b) + seq![
            Token::Kw(Keyword::End),
        ],
        StatementL::While(_, c, body) => seq![Token::Kw(Keyword::While)] + bexpr_tokens(c) + seq![
            Token::Kw(Keyword::Do),
        ] + stmt_tokens(*body) + seq![Token::Kw(Keyword::End)],
    }
}

/// The tokens of the elementary block that a statement's label stands for:
/// an assignment or `skip` whole, and of an `if` or a `while` only its
/// keyword and test.
pub open spec fn block_tokens(s: StatementL) -> Seq<Token> {
    match s {
        StatementL::If(_, c, _, _) => seq![Token::Kw(Keyword::If)] + bexpr_tokens(c),
        StatementL::While(_, c, _) => seq![Token::Kw(Keyword::While)] + bexpr_tokens(c),
        _ => stmt_tokens(s),
    }
}

/// Appends `t` to `v`.
fn push_all(v: &mut Vec<Token>, mut t: Vec<Token>)
    ensures
        final(v)@ == old(v)@ + t@,
{
    v.append(&mut t);
}

fn paren_open(v: &mut Vec<Token>)
    ensures
        final(v)@ == old(v)@.push(lparen()),
{
    v.push(Token::Del(Delimiter::LParen));
}

fn paren_close(v: &mut Vec<Token>)
    ensures
        final(v)@ == old(v)@.push(rparen()),
{
    v.push(Token::Del(Delimiter::RParen));
}

impl AExpression {
    fn atom_tokens(&self) -> (r: Vec<Token>)
        ensures
            r@ == atom_tokens(*self),
        decreases self, 0int,
    {
        match self {
            AExpression::Int(i) => vec![Token::Lit(Literal::Int(*i))],
            AExpression::Var(x) => vec![Token::Idf(Identifier::Variable(x.clone()))],
            AExpression::Add(l, r) => {
                let mut v = Vec::new();
                paren_open(&mut v);
                push_all(&mut v, l.to_tokens());
                v.push(Token::Op(Operator::Add));
                push_all(&mut v, r.term_tokens());
                paren_close(&mut v);
                assert(v@ =~= atom_tokens(*self));
                v
            },
            AExpression::Sub(l, r) => {
                let mut v = Vec::new();
                paren_open(&mut v);
                push_all(&mut v, l.to_tokens());
                v.push(Token::Op(Operator::Sub));
                push_all(&mut v, r.term_tokens());
                paren_close(&mut v);
                assert(v@ =~= atom_tokens(*self));
                v
            },
            AExpression::Mul(l, r) => {
                let mut v = Vec::new();
                paren_open(&mut v);
                push_all(&mut v, l.term_tokens());
                v.push(Token::Op(Operator::Mul));
                push_all(&mut v, r.atom_tokens());
                paren_close(&mut v);
                assert(v@ =~= atom_tokens(*self));
                v
            },
        }
    }

    fn term_tokens(&self) -> (r: Vec<Token>)
        ensures
            r@ == term_tokens(*self),
        decreases self, 1int,
    {
        match self {
            AExpression::Mul(l, r) => {
                let mut v = l.term_tokens();
                v.push(Token::Op(Operator::Mul));
                push_all(&mut v, r.atom_tokens());
                v
            },
            _ => self.atom_tokens(),
        }
    }

    /// The tokens of the expression, with the parentheses that its grouping
    /// needs.
    pub fn to_tokens(&self) -> (r: Vec<Token>)
        ensures
            r@ == aexpr_tokens(*self),
        decreases self, 2int,
    {
        match self {
            AExpression::Add(l, r) => {
                let mut v = l.to_tokens();
                v.push(Token::Op(Operator::Add));
                push_all(&mut v, r.term_tokens());
                v
            },
            AExpression::Sub(l, r) => {
                let mut v = l.to_tokens();
                v.push(Token::Op(Operator::Sub));
                push_all(&mut v, r.term_tokens());
                v
            },
            _ => self.term_tokens(),
        }
    }
}

impl BExpression {
    fn bcomp_tokens(&self) -> (r: Vec<Token>)
        ensures
            r@ == bcomp_tokens(*self),
        decreases self, 0int,
    {
        match self {
            BExpression::True => vec![Token::Lit(Literal::True)],
            BExpression::False => vec![Token::Lit(Literal::False)],
            BExpression::Equ(l, r) => {
                let mut v = l.to_tokens();
                v.push(Token::Op(Operator::Equ));
                push_all(&mut v, r.to_tokens());
                v
            },
            BExpression::Leq(l, r) => {
                let mut v = l.to_tokens();
                v.push(Token::Op(Operator::Leq));
                push_all(&mut v, r.to_tokens());
                v
            },
            BExpression::Not(x) => {
                let mut v = vec![Token::Op(Operator::Not)];
                push_all(&mut v, x.bcomp_tokens());
                v
            },
            BExpression::And(l, r) => {
                let mut v = Vec::new();
                paren_open(&mut v);
                push_all(&mut v, l.to_tokens());
                v.push(Token::Op(Operator::And));
                push_all(&mut v, r.bcomp_tokens());
                paren_close(&mut v);
                assert(v@ =~= bcomp_tokens(*self));
                v
            },
        }
    }

    /// The tokens of the expression, with the parentheses that its grouping
    /// needs.
    pub fn to_tokens(&self) -> (r: Vec<Token>)
        ensures
            r@ == bexpr_tokens(*self),
        decreases self, 1int,
    {
        match self {
            BExpression::And(l, r) => {
                let mut v = l.to_tokens();
                v.push(Token::Op(Operator::And));
                push_all(&mut v, r.bcomp_tokens());
                v
            },
            _ => self.bcomp_tokens(),
        }
    }
}

impl StatementL {
    /// The tokens of the statement, as the source would write it.
    pub fn to_tokens(&self) -> (r: Vec<Token>)
        ensures
            r@ == stmt_tokens(*self),
        decreases self,
    {
        match self {
            StatementL::Assign(_, var, expr) => {
                let mut tokens = vec![
                    Token::Idf(Identifier::Variable(var.clone())),
                    Token::Op(Operator::Assign),
                ];
                push_all(&mut tokens, expr.to_tokens());
                tokens
            },
            StatementL::Skip(_) => vec![Token::Kw(Keyword::Skip)],
            StatementL::Sequence(s1, s2) => {
                let mut tokens = s1.to_tokens();
                tokens.push(Token::Op(Operator::Semicolon));
                push_all(&mut tokens, s2.to_tokens());
                tokens
            },
            StatementL::If(_, b, s1, s2) => {
                let mut tokens = vec![Token::Kw(Keyword::If)];
                push_all(&mut tokens, b.to_tokens());
                tokens.push(Token::Kw(Keyword::Then));
                push_all(&mut tokens, s1.to_tokens());
                tokens.push(Token::Kw(Keyword::Else));
                push_all(&mut tokens, s2.to_tokens());
                tokens.push(Token::Kw(Keyword::End));
                assert(tokens@ =~= stmt_tokens(*self));
                tokens
            },
            StatementL::While(_, b, body) => {
                let mut tokens = vec![Token::Kw(Keyword::While)];
                push_all(&mut tokens, b.to_tokens());
                tokens.push(Token::Kw(Keyword::Do));
                push_all(&mut tokens, body.to_tokens());
                tokens.push(Token::Kw(Keyword::End));
                assert(tokens@ =~= stmt_tokens(*self));
                tokens
            },
        }
    }
}

impl StatementL {
    /// The tokens of the elementary block that the statement's label stands
    /// for (see `block_tokens`).
    pub fn block_to_tokens(&self) -> (r: Vec<Token>)
        ensures
            r@ == block_tokens(*self),
    {
        match self {
            StatementL::If(_, b, _, _) => {
                let mut tokens = vec![Token::Kw(Keyword::If)];
                push_all(&mut tokens, b.to_tokens());
                tokens
            },
            StatementL::While(_, b, _) => {
                let mut tokens = vec![Token::Kw(Keyword::While)];
                push_all(&mut tokens, b.to_tokens());
                tokens
            },
            _ => self.to_tokens(),
        }
    }
}

} // verus!
