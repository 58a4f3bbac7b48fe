use vstd::prelude::*;
use crate::ast::{AExpression, BExpression, Statement};
use crate::text::{int_text, push_int, push_str};

verus! {

/// A document for the pretty printer: text, forced line breaks,
/// concatenation, and indentation of the lines that a part breaks.
#[derive(Debug, PartialEq)]
pub enum Doc {
    Text(String),
    Hardline,
    Append(Box<Doc>, Box<Doc>),
    Nest(isize, Box<Doc>),
}

/// A document as plain values.
pub enum DocView {
    Text(Seq<char>),
    Hardline,
    Append(Box<DocView>, Box<DocView>),
    Nest(int, Box<DocView>),
}

impl View for Doc {
    type V = DocView;

    open spec fn view(&self) -> DocView
        decreases self,
    {
        match self {
            Doc::Text(s) => DocView::Text(s@),
            Doc::Hardline => DocView::Hardline,
            Doc::Append(a, b) => DocView::Append(Box::new((**a)@), Box::new((**b)@)),
            Doc::Nest(n, d) => DocView::Nest(*n as int, Box::new((**d)@)),
        }
    }
}

pub open spec fn text(s: Seq<char>) -> DocView {
    DocView::Text(s)
}

pub open spec fn cat(a: DocView, b: DocView) -> DocView {
    DocView::Append(Box::new(a), Box::new(b))
}

/// The document of an arithmetic expression: sums and differences in
/// parentheses, products without.
pub open spec fn aexpr_doc(e: AExpression) -> DocView
    decreases e,
{
    match e {
        AExpression::Int(n) => text(int_text(n as int)),
        AExpression::Var(s) => text(s@),
        AExpression::Add(l, r) => cat(
            cat(cat(cat(text("("@), aexpr_doc(*l)), text(" + "@)), aexpr_doc(*r)),
            text(")"@),
        ),
        AExpression::Sub(l, r) => cat(
            cat(cat(cat(text("("@), aexpr_doc(*l)), text(" - "@)), aexpr_doc(*r)),
            text(")"@),
        ),
        AExpression::Mul(l, r) => cat(cat(aexpr_doc(*l), text(" * "@)), aexpr_doc(*r)),
    }
}

/// The document of a boolean expression, with `not (..)` and `and`.
pub open spec fn bexpr_doc(b: BExpression) -> DocView
    decreases b,
{
    match b {
        BExpression::True => text("true"@),
        BExpression::False => text("false"@),
        BExpression::Equ(l, r) => cat(cat(aexpr_doc(l), text(" = "@)), aexpr_doc(r)),
        BExpression::Leq(l, r) => cat(cat(aexpr_doc(l), text(" <= "@)), aexpr_doc(r)),
        BExpression::Not(x) => cat(cat(text("not ("@), bexpr_doc(*x)), text(")"@)),
        BExpression::And(l, r) => cat(cat(bexpr_doc(*l), text(" and "@)), bexpr_doc(*r)),
    }
}

/// A block: a line break and `d`, indented by two.
pub open spec fn block(d: DocView) -> DocView {
    DocView::Nest(2, Box::new(cat(DocView::Hardline, d)))
}

/// The document of a statement: one statement per line, blocks indented by
/// two and closed by `end`.
pub open spec fn stmt_doc(s: Statement) -> DocView
    decreases s,
{
    match s {
        Statement::Skip => text("skip"@),
        Statement::Assign(x, e) => cat(cat(text(x@), text(" := "@)), aexpr_doc(e)),
        Statement::Sequence(a, b) => cat(
            cat(cat(stmt_doc(*a), text(";"@)), DocView::Hardline),
            stmt_doc(*b),
        ),
        Statement::If(c, a, b) => cat(
            cat(
                cat(
                    cat(
                        cat(
                            cat(cat(cat(text("if "@), bexpr_doc(c)), text(" then"@)), block(stmt_doc(*a))),
                            DocView::Hardline,
                        ),
                        text("else"@),
                    ),
                    block(stmt_doc(*b)),
                ),
                DocView::Hardline,
            ),
            text("end"@),
        ),
        Statement::While(c, body) => cat(
            cat(
                cat(cat(cat(text("while "@), bexpr_doc(c)), text(" do"@)), block(stmt_doc(*body))),
                DocView::Hardline,
            ),
            text("end"@),
        ),
    }
}

fn doc_text(s: &str) -> (d: Doc)
    ensures
        d@ == text(s@),
{
    let mut t = String::new();
    push_str(&mut t, s);
    assert(t@ =~= s@);
    Doc::Text(t)
}

fn doc_cat(a: Doc, b: Doc) -> (d: Doc)
    ensures
        d@ == cat(a@, b@),
{
    Doc::Append(Box::new(a), Box::new(b))
}

fn doc_block(d: Doc) -> (r: Doc)
    ensures
        r@ == block(d@),
{
    Doc::Nest(2, Box::new(doc_cat(Doc::Hardline, d)))
}

impl AExpression {
    /// The expression as a pretty-printer document.
    pub fn to_doc(&self) -> (d: Doc)
        ensures
            d@ == aexpr_doc(*self),
        decreases self,
    {
        match self {
            AExpression::Int(n) => {
                let mut t = String::new();
                push_int(&mut t, *n);
                assert(t@ =~= int_text(*n as int));
                Doc::Text(t)
            },
            AExpression::Var(s) => Doc::Text(s.clone()),
            AExpression::Add(l, r) => doc_cat(
                doc_cat(doc_cat(doc_cat(doc_text("("), l.to_doc()), doc_text(" + ")), r.to_doc()),
                doc_text(")"),
            ),
            AExpression::Sub(l, r) => doc_cat(
                doc_cat(doc_cat(doc_cat(doc_text("("), l.to_doc()), doc_text(" - ")), r.to_doc()),
                doc_text(")"),
            ),
            AExpression::Mul(l, r) => doc_cat(doc_cat(l.to_doc(), doc_text(" * ")), r.to_doc()),
        }
    }
}

impl BExpression {
    /// The expression as a pretty-printer document.
    pub fn to_doc(&self) -> (d: Doc)
        ensures
            d@ == bexpr_doc(*self),
        decreases self,
    {
        match self {
            BExpression::True => doc_text("true"),
            BExpression::False => doc_text("false"),
            BExpression::Equ(l, r) => doc_cat(doc_cat(l.to_doc(), doc_text(" = ")), r.to_doc()),
            BExpression::Leq(l, r) => doc_cat(doc_cat(l.to_doc(), doc_text(" <= ")), r.to_doc()),
            BExpression::Not(b) => doc_cat(doc_cat(doc_text("not ("), b.to_doc()), doc_text(")")),
            BExpression::And(l, r) => doc_cat(doc_cat(l.to_doc(), doc_text(" and ")), r.to_doc()),
        }
    }
}

impl Statement {
    /// The statement as a pretty-printer document.
    pub fn to_doc(&self) -> (d: Doc)
        ensures
            d@ == stmt_doc(*self),
        decreases self,
    {
        match self {
            Statement::Skip => doc_text("skip"),
            Statement::Assign(var, expr) => doc_cat(
                doc_cat(Doc::Text(var.clone()), doc_text(" := ")),
                expr.to_doc(),
            ),
            Statement::Sequence(s1, s2) => doc_cat(
                doc_cat(doc_cat(s1.to_doc(), doc_text(";")), Doc::Hardline),
                s2.to_doc(),
            ),
            Statement::If(cond, s1, s2) => doc_cat(
                doc_cat(
                    doc_cat(
                        doc_cat(
                            doc_cat(
                                doc_cat(
                                    doc_cat(doc_cat(doc_text("if "), cond.to_doc()), doc_text(" then")),
                                    doc_block(s1.to_doc()),
                                ),
                                Doc::Hardline,
                            ),
                            doc_text("else"),
                        ),
                        doc_block(s2.to_doc()),
                    ),
                    Doc::Hardline,
                ),
                doc_text("end"),
            ),
            Statement::While(cond, body) => doc_cat(
                doc_cat(
                    doc_cat(
                        doc_cat(doc_cat(doc_text("while "), cond.to_doc()), doc_text(" do")),
                        doc_block(body.to_doc()),
                    ),
                    Doc::Hardline,
                ),
                doc_text("end"),
            ),
        }
    }
}

/// The document has no line break.
pub open spec fn unbroken(d: DocView) -> bool
    decreases d,
{
    match d {
        DocView::Text(_) => true,
        DocView::Hardline => false,
        DocView::Append(a, b) => unbroken(*a) && unbroken(*b),
        DocView::Nest(_, x) => unbroken(*x),
    }
}

/// The texts of the document, one after the other.
pub open spec fn texts(d: DocView) -> Seq<char>
    decreases d,
{
    match d {
        DocView::Text(s) => s,
        DocView::Hardline => seq!['\n'],
        DocView::Append(a, b) => texts(*a) + texts(*b),
        DocView::Nest(_, x) => texts(*x),
    }
}

#[verifier::external_type_specification]
#[verifier::external_body]
#[verifier::reject_recursive_types(A)]
pub struct ExRcDoc<'a, A>(pretty::RcDoc<'a, A>);

/// The text that the `pretty` crate renders the document `d` as, in lines
/// of `width` columns.
pub uninterp spec fn pretty_render(d: DocView, width: nat) -> Seq<char>;

/// Builds the `pretty::RcDoc` with the texts, hard line breaks, nesting
/// and concatenations of `d`, one for one, through `RcDoc::text`,
/// `RcDoc::hardline`, `RcDoc::append` and `RcDoc::nest`. Nothing is stated
/// of the result: it is only handed to `render_doc`.
#[verifier::external_body]
fn rc_doc(d: &Doc) -> pretty::RcDoc<'static, ()> {
    match d {
        Doc::Text(s) => pretty::RcDoc::text(s.clone()),
        Doc::Hardline => pretty::RcDoc::hardline(),
        Doc::Append(a, b) => rc_doc(a).append(rc_doc(b)),
        Doc::Nest(n, x) => rc_doc(x).nest(*n),
    }
}

/// Calls `pretty::RcDoc::render` on the document built from `d`, writing
/// into a byte buffer, and reads the bytes as text. The result is named
/// `pretty_render(d@, width)`: a function of the document and the width
/// alone. Of a document without line breaks it states what the crate
/// does: the texts are written one after the other (nesting only indents
/// after a break). Where the lines break and how far they are indented is
/// left to the crate.
#[verifier::external_body]
pub(crate) fn render_doc(d: &Doc, width: usize) -> (r: String)
    ensures
        r@ == pretty_render(d@, width as nat),
        unbroken(d@) ==> r@ == texts(d@),
{
    let mut out: Vec<u8> = Vec::new();
    let _ = rc_doc(d).render(width, &mut out);
    String::from_utf8_lossy(&out).into_owned()
}

} // verus!
