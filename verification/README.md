# while_compiler

A compiler pipeline and interpreter for the While language — lexer, parser,
semantic analysis, big-step interpreter, labelling and control-flow graphs —
written in Verus, with each stage's behaviour stated as a contract and proved.

## Layout

- `src/` — the verified library.
  - `lexer.rs`: tokens and the lexer, specified by `lex_spec` (one step of
    the lexer at a time, `lex_step`).
  - `ast.rs`: the syntax tree and the recursive-descent parser, specified
    rule by rule of the grammar (`factor_spec` … `parse_spec`).
  - `parse_facts.rs`, `round_trip.rs`: laws about the parser: it does not
    panic on what the lexer produces, and it reads back the tokens that
    `to_tokens` writes.
  - `analyzer.rs`: the check that variables are assigned before use.
  - `interpreter.rs`: the store, expression evaluation and statement
    execution against the big-step semantics `run`.
  - `labelled_ast.rs`, `labeler.rs`, `cfg.rs`: labelled statements, their
    tokens, labelling in pre-order, and the control-flow graph.
  - `display.rs`, `doc.rs`, `helpers.rs`, `text.rs`: one-line text of trees,
    pretty-printer documents, error reports, token rows and highlighting.
  - `cli.rs`: the command-line options and the stage at which the pipeline
    stops.
- `app/` — the command-line program: argument parsing, file reading,
  colours, printing and JSON output.
- `tests/` — tests of the library.
