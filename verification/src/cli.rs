use vstd::prelude::*;

verus! {

/// The options of the command line: the program's file and the flags
/// that stop the pipeline.
#[derive(Debug)]
pub struct Cli {
    /// Path to the source file.
    pub file: String,
    /// Stop after lexing and show the tokens.
    pub tokens: bool,
    /// Stop after parsing and show the tree.
    pub ast: bool,
    /// Stop after building the control flow graph and show it.
    pub cfg: bool,
    /// Run the program and show its final memory.
    pub run: bool,
}

/// The stage after which the pipeline stops.
#[derive(Debug, PartialEq, Eq, Structural, Clone, Copy)]
pub enum Stage {
    Tokens,
    Ast,
    Cfg,
    Run,
    /// No flag: the pipeline stops after semantic analysis.
    Analysis,
}

/// Each flag is a stop of the pipeline, and the earliest stop that is set
/// wins: tokens, then the tree, then the graph, then running.
pub open spec fn stage_of(tokens: bool, ast: bool, cfg: bool, run: bool) -> Stage {
    if tokens {
        Stage::Tokens
    } else if ast {
        Stage::Ast
    } else if cfg {
        Stage::Cfg
    } else if run {
        Stage::Run
    } else {
        Stage::Analysis
    }
}

impl Cli {
    /// The stage after which the pipeline stops, as the flags ask for it.
    pub fn stage(&self) -> (r: Stage)
        ensures
            r == stage_of(self.tokens, self.ast, self.cfg, self.run),
    {
        if self.tokens {
            Stage::Tokens
        } else if self.ast {
            Stage::Ast
        } else if self.cfg {
            Stage::Cfg
        } else if self.run {
            Stage::Run
        } else {
            Stage::Analysis
        }
    }
}

} // verus!
