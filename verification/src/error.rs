use vstd::prelude::*;

verus! {

/// Every error that the pipeline reports.
#[derive(Debug)]
pub enum UserDefinedError {
    Lex(LexError),
    Syntax(SyntaxError),
    Semantic(SemanticError),
}

/// Errors of the lexer.
#[derive(Debug)]
pub enum LexError {
    UnidentifiedToken(char),
}

/// Errors of the parser.
#[derive(Debug, PartialEq, Eq, Structural, Clone, Copy)]
pub enum SyntaxError {
    ThenWithoutIf,
    ElseWithoutIf,
    DoWithoutWhile,
    EndWithoutBlock,
    UndefinedEnd,
    NoMatch,
    InvalidAssign,
    ExpectedThen,
    ExpectedElse,
    ExpectedDo,
    ExpectedEnd,
    UnconsumedTokens,
}

/// Errors of the semantic analysis.
#[derive(Debug)]
pub enum SemanticError {
    UninitializedVariable(String),
}

} // verus!
