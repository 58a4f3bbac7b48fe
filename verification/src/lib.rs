//! A lexer, parser, semantic analyser, interpreter, labeller and
//! control-flow-graph builder for the While language, with their
//! behaviour stated as contracts and proved.

pub mod cli;
pub mod error;
pub mod text;
pub mod lexer;
pub mod ast;
pub mod interpreter;
pub mod analyzer;
pub mod labelled_ast;
pub mod labeler;
pub mod cfg;
pub mod display;
pub mod helpers;
pub mod doc;
pub mod round_trip;
pub mod parse_facts;
