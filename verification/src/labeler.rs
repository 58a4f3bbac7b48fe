use vstd::prelude::*;
use crate::ast::Statement;
use crate::labelled_ast::{Label, StatementL};

verus! {

/// The number of elementary statements of `s`: assignments, `skip`s, and
/// the tests of `if` and `while`.
pub open spec fn elementary_count(s: Statement) -> nat
    decreases s,
{
    match s {
        Statement::Assign(_, _) => 1,
        Statement::Skip => 1,
        Statement::Sequence(a, b) => elementary_count(*a) + elementary_count(*b),
        Statement::If(_, a, b) => 1 + elementary_count(*a) + elementary_count(*b),
        Statement::While(_, b) => 1 + elementary_count(*b),
    }
}

/// `s` with its elementary statements labelled `c`, `c + 1`, ... in
/// pre-order: an `if` or `while` takes its label before its branches.
pub open spec fn labelled(s: Statement, c: int) -> StatementL
    decreases s,
{
    match s {
        Statement::Assign(v, e) => StatementL::Assign(c as usize, v, e),
        Statement::Skip => StatementL::Skip(c as usize),
        Statement::Sequence(a, b) => StatementL::Sequence(
            Box::new(labelled(*a, c)),
            Box::new(labelled(*b, c + elementary_count(*a))),
        ),
        Statement::If(cond, a, b) => StatementL::If(
            c as usize,
            cond,
            Box::new(labelled(*a, c + 1)),
            Box::new(labelled(*b, c + 1 + elementary_count(*a))),
        ),
        Statement::While(cond, b) => StatementL::While(
            c as usize,
            cond,
            Box::new(labelled(*b, c + 1)),
        ),
    }
}

/// Labels the elementary statements of `stmt` in pre-order with
/// `*counter`, `*counter + 1`, ..., and leaves `counter` at the next unused
/// label. Labelling stops short of `usize::MAX` overflowing.
pub fn label_ast(stmt: Statement, counter: &mut Label) -> (r: StatementL)
    requires
        *old(counter) + elementary_count(stmt) <= usize::MAX,
    ensures
        r == labelled(stmt, *old(counter) as int),
        *final(counter) == *old(counter) + elementary_count(stmt),
    decreases stmt,
{
    match stmt {
        Statement::Assign(v, e) => {
            let label = *counter;
            *counter += 1;
            StatementL::Assign(label, v, e)
        },
        Statement::Skip => {
            let label = *counter;
            *counter += 1;
            StatementL::Skip(label)
        },
        Statement::Sequence(s1, s2) => {
            let l1 = label_ast(*s1, counter);
            let l2 = label_ast(*s2, counter);
            StatementL::Sequence(Box::new(l1), Box::new(l2))
        },
        Statement::If(b, s1, s2) => {
            let label = *counter;
            *counter += 1;
            let l1 = label_ast(*s1, counter);
            let l2 = label_ast(*s2, counter);
            StatementL::If(label, b, Box::new(l1), Box::new(l2))
        },
        Statement::While(b, s) => {
            let label = *counter;
            *counter += 1;
            let l = label_ast(*s, counter);
            StatementL::While(label, b, Box::new(l))
        },
    }
}

/// The labels of `s`'s elementary statements, in pre-order.
pub open spec fn labels_of(s: StatementL) -> Seq<Label>
    decreases s,
{
    match s {
        StatementL::Assign(l, _, _) => seq![l],
        StatementL::Skip(l) => seq![l],
        StatementL::Sequence(a, b) => labels_of(*a) + labels_of(*b),
        StatementL::If(l, _, a, b) => seq![l] + labels_of(*a) + labels_of(*b),
        StatementL::While(l, _, b) => seq![l] + labels_of(*b),
    }
}

/// `s` without its labels.
pub open spec fn unlabelled(s: StatementL) -> Statement
    decreases s,
{
    match s {
        StatementL::Assign(_, x, e) => Statement::Assign(x, e),
        StatementL::Skip(_) => Statement::Skip,
        StatementL::Sequence(a, b) => Statement::Sequence(
            Box::new(unlabelled(*a)),
            Box::new(unlabelled(*b)),
        ),
        StatementL::If(_, c, a, b) => Statement::If(
            c,
            Box::new(unlabelled(*a)),
            Box::new(unlabelled(*b)),
        ),
        StatementL::While(_, c, b) => Statement::While(c, Box::new(unlabelled(*b))),
    }
}

/// The labels `c`, `c + 1`, ..., `c + n - 1`.
pub open spec fn label_range(c: int, n: nat) -> Seq<Label> {
    Seq::new(n, |i: int| (c + i) as usize)
}

/// Labelling gives the elementary statements the labels `c`, `c + 1`, ...
/// in pre-order, one each.
pub proof fn law_labels_in_preorder(s: Statement, c: int)
    ensures
        labels_of(labelled(s, c)) == label_range(c, elementary_count(s)),
    decreases s,
{
    match s {
        Statement::Assign(_, _) => {
            assert(labels_of(labelled(s, c)) =~= label_range(c, 1));
        },
        Statement::Skip => {
            assert(labels_of(labelled(s, c)) =~= label_range(c, 1));
        },
        Statement::Sequence(a, b) => {
            law_labels_in_preorder(*a, c);
            law_labels_in_preorder(*b, c + elementary_count(*a));
            assert(labels_of(labelled(s, c)) =~= label_range(c, elementary_count(s)));
        },
        Statement::If(_, a, b) => {
            law_labels_in_preorder(*a, c + 1);
            law_labels_in_preorder(*b, c + 1 + elementary_count(*a));
            assert(labels_of(labelled(s, c)) =~= label_range(c, elementary_count(s)));
        },
        Statement::While(_, b) => {
            law_labels_in_preorder(*b, c + 1);
            assert(labels_of(labelled(s, c)) =~= label_range(c, elementary_count(s)));
        },
    }
}

/// Where no label overflows, every elementary statement gets a label of
/// its own.
pub proof fn law_labels_unique(s: Statement, c: int)
    requires
        0 <= c,
        c + elementary_count(s) <= usize::MAX + 1,
    ensures
        labels_of(labelled(s, c)).no_duplicates(),
{
    law_labels_in_preorder(s, c);
    let ls = labels_of(labelled(s, c));
    assert forall|i: int, j: int| 0 <= i < ls.len() && 0 <= j < ls.len() && i != j implies ls[i]
        != ls[j] by {
        assert(ls[i] == (c + i) as usize);
        assert(ls[j] == (c + j) as usize);
    }
}

/// Labelling changes nothing but the labels.
pub proof fn law_labelling_keeps_statement(s: Statement, c: int)
    ensures
        unlabelled(labelled(s, c)) == s,
    decreases s,
{
    match s {
        Statement::Sequence(a, b) => {
            law_labelling_keeps_statement(*a, c);
            law_labelling_keeps_statement(*b, c + elementary_count(*a));
        },
        Statement::If(_, a, b) => {
            law_labelling_keeps_statement(*a, c + 1);
            law_labelling_keeps_statement(*b, c + 1 + elementary_count(*a));
        },
        Statement::While(_, b) => {
            law_labelling_keeps_statement(*b, c + 1);
        },
        _ => {},
    }
}

} // verus!
