use vstd::prelude::*;
use crate::ast::{AExpression, BExpression, Statement};
use crate::labelled_ast::StatementL;
use crate::text::{int_text, push_char, push_int, push_str};

verus! {

/// The one-line text of an arithmetic expression, without parentheses.
pub open spec fn aexpr_text(e: AExpression) -> Seq<char>
    decreases e,
{
    match e {
        AExpression::Int(n) => int_text(n as int),
        AExpression::Var(s) => s@,
        AExpression::Add(a, b) => aexpr_text(*a) + " + "@ + aexpr_text(*b),
        AExpression::Sub(a, b) => aexpr_text(*a) + " - "@ + aexpr_text(*b),
        AExpression::Mul(a, b) => aexpr_text(*a) + " * "@ + aexpr_text(*b),
    }
}

/// The one-line text of a boolean expression, without parentheses.
pub open spec fn bexpr_text(b: BExpression) -> Seq<char>
    decreases b,
{
    match b {
        BExpression::True => "true"@,
        BExpression::False => "false"@,
        BExpression::Equ(l, r) => aexpr_text(l) + " = "@ + aexpr_text(r),
        BExpression::Leq(l, r) => aexpr_text(l) + " <= "@ + aexpr_text(r),
        BExpression::Not(x) => "!"@ + bexpr_text(*x),
        BExpression::And(l, r) => bexpr_text(*l) + " & "@ + bexpr_text(*r),
    }
}

/// The one-line text of a statement.
pub open spec fn stmt_text(s: Statement) -> Seq<char>
    decreases s,
{
    match s {
        Statement::Assign(x, e) => x@ + " := "@ + aexpr_text(e),
        Statement::Skip => "Skip"@,
        Statement::Sequence(a, b) => stmt_text(*a) + "; "@ + stmt_text(*b),
        Statement::If(c, a, b) => "if "@ + bexpr_text(c) + " then "@ + stmt_text(*a) + " else "@
            + stmt_text(*b),
        Statement::While(c, body) => "while "@ + bexpr_text(c) + " do "@ + stmt_text(*body),
    }
}

/// The text of a labelled statement's own elementary statement, with its
/// label: `[x := e]ˡ1`, `[skip]ˡ2`, `[if c]ˡ3`, `[while c]ˡ4`; a sequence
/// shows both parts.
pub open spec fn stmt_l_text(s: StatementL) -> Seq<char>
    decreases s,
{
    match s {
        StatementL::Assign(l, x, e) => "["@ + x@ + " := "@ + aexpr_text(e) + "]ˡ"@ + int_text(
            l as int,
        ),
        StatementL::Skip(l) => "[skip]ˡ"@ + int_text(l as int),
        StatementL::Sequence(a, b) => stmt_l_text(*a) + "; "@ + stmt_l_text(*b),
        StatementL::If(l, c, _, _) => "[if "@ + bexpr_text(c) + "]ˡ"@ + int_text(l as int),
        StatementL::While(l, c, _) => "[while "@ + bexpr_text(c) + "]ˡ"@ + int_text(l as int),
    }
}

/// Appends the decimal text of `l`.
fn push_label(out: &mut String, l: usize)
    ensures
        final(out)@ == old(out)@ + int_text(l as int),
    decreases l,
{
    if l < 10 {
        push_int(out, l as i64);
    } else {
        push_label(out, l / 10);
        let d = (l % 10) as i64;
        let ghost before = out@;
        push_int(out, d);
        assert(int_text(l as int) =~= int_text((l / 10) as int) + int_text(d as int));
    }
}

impl AExpression {
    /// Appends the expression's text to `out`.
    pub fn write_text(&self, out: &mut String)
        ensures
            final(out)@ == old(out)@ + aexpr_text(*self),
        decreases self,
    {
        match self {
            AExpression::Int(n) => push_int(out, *n),
            AExpression::Var(s) => push_str(out, s.as_str()),
            AExpression::Add(a, b) => {
                a.write_text(out);
                push_str(out, " + ");
                b.write_text(out);
                assert(out@ =~= old(out)@ + aexpr_text(*self));
            },
            AExpression::Sub(a, b) => {
                a.write_text(out);
                push_str(out, " - ");
                b.write_text(out);
                assert(out@ =~= old(out)@ + aexpr_text(*self));
            },
            AExpression::Mul(a, b) => {
                a.write_text(out);
                push_str(out, " * ");
                b.write_text(out);
                assert(out@ =~= old(out)@ + aexpr_text(*self));
            },
        }
    }

    /// The expression's text: `1 + 2`, `x * 3`; grouping is not shown.
    pub fn to_string(&self) -> (r: String)
        ensures
            r@ == aexpr_text(*self),
    {
        let mut out = String::new();
        self.write_text(&mut out);
        assert(out@ =~= aexpr_text(*self));
        out
    }
}

impl BExpression {
    /// Appends the expression's text to `out`.
    pub fn write_text(&self, out: &mut String)
        ensures
            final(out)@ == old(out)@ + bexpr_text(*self),
        decreases self,
    {
        match self {
            BExpression::True => push_str(out, "true"),
            BExpression::False => push_str(out, "false"),
            BExpression::Equ(l, r) => {
                l.write_text(out);
                push_str(out, " = ");
                r.write_text(out);
                assert(out@ =~= old(out)@ + bexpr_text(*self));
            },
            BExpression::Leq(l, r) => {
                l.write_text(out);
                push_str(out, " <= ");
                r.write_text(out);
                assert(out@ =~= old(out)@ + bexpr_text(*self));
            },
            BExpression::Not(x) => {
                push_str(out, "!");
                x.write_text(out);
                assert(out@ =~= old(out)@ + bexpr_text(*self));
            },
            BExpression::And(l, r) => {
                l.write_text(out);
                push_str(out, " & ");
                r.write_text(out);
                assert(out@ =~= old(out)@ + bexpr_text(*self));
            },
        }
    }

    /// The expression's text: `x <= 1 & !true`; grouping is not shown.
    pub fn to_string(&self) -> (r: String)
        ensures
            r@ == bexpr_text(*self),
    {
        let mut out = String::new();
        self.write_text(&mut out);
        assert(out@ =~= bexpr_text(*self));
        out
    }
}

impl Statement {
    /// Appends the statement's text to `out`.
    pub fn write_text(&self, out: &mut String)
        ensures
            final(out)@ == old(out)@ + stmt_text(*self),
        decreases self,
    {
        match self {
            Statement::Assign(x, e) => {
                push_str(out, x.as_str());
                push_str(out, " := ");
                e.write_text(out);
                assert(out@ =~= old(out)@ + stmt_text(*self));
            },
            Statement::Skip => push_str(out, "Skip"),
            Statement::Sequence(a, b) => {
                a.write_text(out);
                push_str(out, "; ");
                b.write_text(out);
                assert(out@ =~= old(out)@ + stmt_text(*self));
            },
            Statement::If(c, a, b) => {
                push_str(out, "if ");
                c.write_text(out);
                push_str(out, " then ");
                a.write_text(out);
                push_str(out, " else ");
                b.write_text(out);
                assert(out@ =~= old(out)@ + stmt_text(*self));
            },
            Statement::While(c, body) => {
                push_str(out, "while ");
                c.write_text(out);
                push_str(out, " do ");
                body.write_text(out);
                assert(out@ =~= old(out)@ + stmt_text(*self));
            },
        }
    }

    /// The statement's text on one line: `x := 1; while x <= 3 do x := x + 1`.
    pub fn to_string(&self) -> (r: String)
        ensures
            r@ == stmt_text(*self),
    {
        let mut out = String::new();
        self.write_text(&mut out);
        assert(out@ =~= stmt_text(*self));
        out
    }
}

impl StatementL {
    /// Appends the statement's labelled text to `out`.
    pub fn write_text(&self, out: &mut String)
        ensures
            final(out)@ == old(out)@ + stmt_l_text(*self),
        decreases self,
    {
        match self {
            StatementL::Assign(l, x, e) => {
                push_str(out, "[");
                push_str(out, x.as_str());
                push_str(out, " := ");
                e.write_text(out);
                push_str(out, "]ˡ");
                push_label(out, *l);
                assert(out@ =~= old(out)@ + stmt_l_text(*self));
            },
            StatementL::Skip(l) => {
                push_str(out, "[skip]ˡ");
                push_label(out, *l);
            },
            StatementL::Sequence(a, b) => {
                a.write_text(out);
                push_str(out, "; ");
                b.write_text(out);
                assert(out@ =~= old(out)@ + stmt_l_text(*self));
            },
            StatementL::If(l, c, _, _) => {
                push_str(out, "[if ");
                c.write_text(out);
                push_str(out, "]ˡ");
                push_label(out, *l);
                assert(out@ =~= old(out)@ + stmt_l_text(*self));
            },
            StatementL::While(l, c, _) => {
                push_str(out, "[while ");
                c.write_text(out);
                push_str(out, "]ˡ");
                push_label(out, *l);
                assert(out@ =~= old(out)@ + stmt_l_text(*self));
            },
        }
    }

    /// The labelled text: `[x := 1]ˡ1; [while x <= 3]ˡ2`.
    pub fn to_string(&self) -> (r: String)
        ensures
            r@ == stmt_l_text(*self),
    {
        let mut out = String::new();
        self.write_text(&mut out);
        assert(out@ =~= stmt_l_text(*self));
        out
    }
}

} // verus!
