use while_compiler::analyzer::SemanticAnalyzer;
use while_compiler::cli::{Cli, Stage};
use while_compiler::ast::{parse, AExpression, BExpression, Statement};
use while_compiler::error::{LexError, SemanticError, SyntaxError, UserDefinedError};
use while_compiler::interpreter::{
    eval_aexpr, eval_aexpr_checked, eval_bexpr, eval_bexpr_checked, exec_stmt, exec_stmt_bounded, Fault, Halt,
    Store,
};
use while_compiler::lexer::{lex, Identifier, Keyword, Literal, Operator, Token};

fn tokens_of(src: &str) -> Vec<Token> {
    // A final newline, as source files have.
    let chars: Vec<char> = format!("{}\n", src).chars().collect();
    lex(&chars).expect("lexing does not panic").expect("lexing succeeds")
}

fn program(src: &str) -> Statement {
    parse(&tokens_of(src)).expect("parses")
}

fn run(src: &str) -> Store {
    let ast = program(src);
    let mut analyzer = SemanticAnalyzer::new();
    analyzer.visit_stmt(&ast).expect("analysis succeeds");
    let mut store = Store::new();
    exec_stmt(&ast, &mut store);
    store
}

fn value(store: &Store, name: &str) -> Option<i64> {
    store.get(&name.to_string())
}

#[test]
fn factorial_program_runs() {
    let store = run("n := 6;\nresult := 1;\nwhile !(n <= 0) do\n  result := result * n;\n  n := n - 1\nend");
    assert_eq!(value(&store, "result"), Some(720));
    assert_eq!(value(&store, "n"), Some(0));
    assert_eq!(store.len(), 2);
}

#[test]
fn conditional_with_skip_runs() {
    let store = run("x := 10;\nif x <= 5 then\n  y := 1\nelse\n  skip\nend");
    assert_eq!(value(&store, "x"), Some(10));
    assert_eq!(value(&store, "y"), None);
}

#[test]
fn nested_while_runs() {
    let store = run(
        "i := 0;\nsum := 0;\nwhile i <= 10 do\n  j := 0;\n  while j <= i do\n    sum := sum + j;\n    j := j + 1\n  end;\n  i := i + 1\nend",
    );
    assert_eq!(value(&store, "sum"), Some(220));
    assert_eq!(value(&store, "i"), Some(11));
}

#[test]
fn expression_grouping_runs() {
    let store = run("x := (3 + 4) * 2;\ny := -x + 1");
    assert_eq!(value(&store, "x"), Some(14));
    assert_eq!(value(&store, "y"), Some(-13));
}

#[test]
fn store_keeps_first_assignment_order_and_overwrites() {
    let mut store = Store::new();
    store.insert("b".to_string(), 1);
    store.insert("a".to_string(), 2);
    store.insert("b".to_string(), 3);
    assert_eq!(store.len(), 2);
    assert_eq!(store.entry(0), (&"b".to_string(), 3));
    assert_eq!(store.entry(1), (&"a".to_string(), 2));
    assert_eq!(value(&store, "b"), Some(3));
}

#[test]
fn eval_uses_store_values() {
    let mut store = Store::new();
    store.insert("x".to_string(), 7);
    let e = AExpression::Sub(
        Box::new(AExpression::Mul(Box::new(AExpression::Var("x".to_string())), Box::new(AExpression::Int(3)))),
        Box::new(AExpression::Int(1)),
    );
    assert_eq!(eval_aexpr(&e, &store), 20);
    let b = BExpression::And(
        Box::new(BExpression::Leq(AExpression::Int(21), e.clone())),
        Box::new(BExpression::Equ(AExpression::Var("undefined".to_string()), AExpression::Int(0))),
    );
    // `&` does not evaluate its right operand when the left one is false.
    assert!(!eval_bexpr(&b, &store));
    assert!(eval_bexpr(&BExpression::Not(Box::new(BExpression::False)), &store));
}

#[test]
fn analyzer_reports_uninitialised_variable() {
    let ast = program("x := y + 1");
    let mut analyzer = SemanticAnalyzer::new();
    match analyzer.visit_stmt(&ast) {
        Err(UserDefinedError::Semantic(SemanticError::UninitializedVariable(v))) => assert_eq!(v, "y"),
        other => panic!("unexpected {:?}", other),
    }
}

#[test]
fn analyzer_reports_first_unset_variable_from_the_left() {
    let ast = program("x := 1; y := a * b + x");
    let mut analyzer = SemanticAnalyzer::new();
    match analyzer.visit_stmt(&ast) {
        Err(UserDefinedError::Semantic(SemanticError::UninitializedVariable(v))) => assert_eq!(v, "a"),
        other => panic!("unexpected {:?}", other),
    }
}

#[test]
fn analyzer_intersects_branches() {
    // y is assigned in one branch only, so it is not initialised after the if.
    let ast = program("x := 1; if x <= 1 then y := 1; z := 1 else z := 2 end; w := z; v := y");
    let mut analyzer = SemanticAnalyzer::new();
    match analyzer.visit_stmt(&ast) {
        Err(UserDefinedError::Semantic(SemanticError::UninitializedVariable(v))) => assert_eq!(v, "y"),
        other => panic!("unexpected {:?}", other),
    }
}

#[test]
fn analyzer_accepts_programs_that_assign_before_use() {
    let ast = program("x := 1; if x <= 1 then y := x else y := 2 end; z := y");
    let mut analyzer = SemanticAnalyzer::new();
    assert!(analyzer.visit_stmt(&ast).is_ok());
}

#[test]
fn analyzer_does_not_credit_a_loop_with_its_body() {
    // The body may run zero times, so `y` is not assigned after the loop.
    let ast = program("x := 0; while x <= 1 do y := x; x := x + 1 end; z := y");
    let mut analyzer = SemanticAnalyzer::new();
    match analyzer.visit_stmt(&ast) {
        Err(UserDefinedError::Semantic(SemanticError::UninitializedVariable(v))) => assert_eq!(v, "y"),
        _ => panic!("expected an uninitialised variable"),
    }
    let ast = Statement::Sequence(
        Box::new(Statement::While(
            BExpression::False,
            Box::new(Statement::Assign("x".to_string(), AExpression::Int(1))),
        )),
        Box::new(Statement::Assign("y".to_string(), AExpression::Var("x".to_string()))),
    );
    let mut analyzer = SemanticAnalyzer::new();
    match analyzer.visit_stmt(&ast) {
        Err(UserDefinedError::Semantic(SemanticError::UninitializedVariable(v))) => assert_eq!(v, "x"),
        _ => panic!("expected an uninitialised variable"),
    }
    // Inside the body its own assignments count.
    let ast = program("x := 0; while x <= 1 do y := x; x := y + 1 end");
    let mut analyzer = SemanticAnalyzer::new();
    assert!(analyzer.visit_stmt(&ast).is_ok());
}

#[test]
fn analyzer_checks_conditions() {
    let ast = program("while x <= 1 do skip end");
    let mut analyzer = SemanticAnalyzer::new();
    assert!(analyzer.visit_stmt(&ast).is_err());
}

#[test]
fn lex_reports_unknown_character() {
    let chars: Vec<char> = "x := 1 # 2".chars().collect();
    match lex(&chars) {
        Some(Err(UserDefinedError::Lex(LexError::UnidentifiedToken(c)))) => assert_eq!(c, '#'),
        _ => panic!("expected an unknown character"),
    }
}

#[test]
fn lex_refuses_literal_beyond_i64() {
    let chars: Vec<char> = "x := 9223372036854775808 ".chars().collect();
    assert!(lex(&chars).is_none());
    let chars: Vec<char> = "x := 9223372036854775807 ".chars().collect();
    assert!(matches!(lex(&chars), Some(Ok(_))));
}

#[test]
fn lex_reads_identifier_at_end_of_input() {
    let chars: Vec<char> = "x".chars().collect();
    let tokens = lex(&chars).expect("no panic").expect("lexes");
    assert_eq!(tokens, vec![Token::Idf(Identifier::Variable("x".to_string())), Token::End]);
    let chars: Vec<char> = "x := y".chars().collect();
    let tokens = lex(&chars).expect("no panic").expect("lexes");
    assert_eq!(tokens.len(), 4);
    assert_eq!(tokens[2], Token::Idf(Identifier::Variable("y".to_string())));
}

#[test]
fn keywords_are_whole_words() {
    let chars: Vec<char> = "done := 1".chars().collect();
    let tokens = lex(&chars).expect("no panic").expect("lexes");
    assert_eq!(
        tokens,
        vec![
            Token::Idf(Identifier::Variable("done".to_string())),
            Token::Op(Operator::Assign),
            Token::Lit(Literal::Int(1)),
            Token::End,
        ]
    );
    let chars: Vec<char> = "if_x := skip2".chars().collect();
    let tokens = lex(&chars).expect("no panic").expect("lexes");
    assert_eq!(tokens[0], Token::Idf(Identifier::Variable("if_x".to_string())));
    assert_eq!(tokens[2], Token::Idf(Identifier::Variable("skip2".to_string())));
    let chars: Vec<char> = "do(".chars().collect();
    let tokens = lex(&chars).expect("no panic").expect("lexes");
    assert_eq!(tokens[0], Token::Kw(Keyword::Do));
}

#[test]
fn identifiers_start_with_a_letter() {
    let chars: Vec<char> = "_x := 1".chars().collect();
    match lex(&chars) {
        Some(Err(UserDefinedError::Lex(LexError::UnidentifiedToken(c)))) => assert_eq!(c, '_'),
        _ => panic!("expected an unknown character"),
    }
}

#[test]
fn lone_identifier_is_an_invalid_assignment() {
    let tokens = vec![Token::Idf(Identifier::Variable("x".to_string())), Token::End];
    match parse(&tokens) {
        Err(UserDefinedError::Syntax(e)) => assert_eq!(e, SyntaxError::InvalidAssign),
        _ => panic!("expected a syntax error"),
    }
}

#[test]
fn unary_minus_applies_to_any_factor() {
    assert_eq!(
        program("y := -x + 1 "),
        Statement::Assign(
            "y".to_string(),
            AExpression::Add(
                Box::new(AExpression::Sub(Box::new(AExpression::Int(0)), Box::new(AExpression::Var("x".to_string())))),
                Box::new(AExpression::Int(1)),
            ),
        )
    );
    assert_eq!(program("y := - - 5 "), Statement::Assign("y".to_string(), AExpression::Int(5)));
    match parse(&tokens_of("y := - ; ")) {
        Err(UserDefinedError::Syntax(e)) => assert_eq!(e, SyntaxError::UndefinedEnd),
        _ => panic!("expected a syntax error"),
    }
}

#[test]
fn parse_reports_missing_semicolon_as_unconsumed() {
    match parse(&tokens_of("x := 1 y := 2 ")) {
        Err(UserDefinedError::Syntax(e)) => assert_eq!(e, SyntaxError::UnconsumedTokens),
        _ => panic!("expected a syntax error"),
    }
}

#[test]
fn bounded_run_agrees_with_unbounded_run() {
    let ast = program("n := 6;\nresult := 1;\nwhile !(n <= 0) do\n  result := result * n;\n  n := n - 1\nend");
    let mut store = Store::new();
    assert_eq!(exec_stmt_bounded(&ast, &mut store, u64::MAX), Ok(()));
    assert_eq!(value(&store, "result"), Some(720));
    assert_eq!(value(&store, "n"), Some(0));
}

#[test]
fn bounded_run_reports_running_out_of_fuel() {
    let ast = program("x := 0;\nwhile true do x := x + 1 end");
    let mut store = Store::new();
    assert_eq!(exec_stmt_bounded(&ast, &mut store, 10), Err(Halt::OutOfFuel));
    // Seven iterations need a bound of eight: the last test of the loop
    // takes one more.
    let ast = program("x := 0;\nwhile x <= 6 do x := x + 1 end");
    let mut store = Store::new();
    assert_eq!(exec_stmt_bounded(&ast, &mut store, 7), Err(Halt::OutOfFuel));
    let mut store = Store::new();
    assert_eq!(exec_stmt_bounded(&ast, &mut store, 8), Ok(()));
    assert_eq!(value(&store, "x"), Some(7));
}

#[test]
fn bounded_run_reports_overflow_and_unbound_variables() {
    let ast = program("x := 9223372036854775807;\ny := x + 1");
    let mut store = Store::new();
    assert_eq!(exec_stmt_bounded(&ast, &mut store, 5), Err(Halt::Fault(Fault::Overflow)));
    let ast = program("y := x");
    let mut store = Store::new();
    assert_eq!(exec_stmt_bounded(&ast, &mut store, 5), Err(Halt::Fault(Fault::Unbound)));
}

#[test]
fn checked_evaluation_reports_faults() {
    let mut store = Store::new();
    store.insert("x".to_string(), i64::MIN);
    let neg = AExpression::Mul(Box::new(AExpression::Var("x".to_string())), Box::new(AExpression::Int(-1)));
    assert_eq!(eval_aexpr_checked(&neg, &store), Err(Fault::Overflow));
    let ok = AExpression::Sub(Box::new(AExpression::Var("x".to_string())), Box::new(AExpression::Int(-1)));
    assert_eq!(eval_aexpr_checked(&ok, &store), Ok(i64::MIN + 1));
    // `&` does not evaluate its right operand when the left one is false.
    let b = BExpression::And(
        Box::new(BExpression::False),
        Box::new(BExpression::Equ(AExpression::Var("y".to_string()), AExpression::Int(0))),
    );
    assert_eq!(eval_bexpr_checked(&b, &store), Ok(false));
    let b = BExpression::And(
        Box::new(BExpression::True),
        Box::new(BExpression::Equ(AExpression::Var("y".to_string()), AExpression::Int(0))),
    );
    assert_eq!(eval_bexpr_checked(&b, &store), Err(Fault::Unbound));
}

#[test]
fn flags_stop_the_pipeline_at_the_earliest_stage() {
    let cli = |tokens: bool, ast: bool, cfg: bool, run: bool| Cli { file: "basic.wl".to_string(), tokens, ast, cfg, run };
    assert_eq!(cli(true, true, true, true).stage(), Stage::Tokens);
    assert_eq!(cli(false, true, false, true).stage(), Stage::Ast);
    assert_eq!(cli(false, false, true, true).stage(), Stage::Cfg);
    assert_eq!(cli(false, false, false, true).stage(), Stage::Run);
    assert_eq!(cli(false, false, false, false).stage(), Stage::Analysis);
}

#[test]
fn negating_the_largest_literal_parses() {
    let ast = program("x := -9223372036854775807;\ny := --5");
    match ast {
        Statement::Sequence(a, b) => {
            assert_eq!(*a, Statement::Assign("x".to_string(), AExpression::Int(-9223372036854775807)));
            assert_eq!(*b, Statement::Assign("y".to_string(), AExpression::Int(5)));
        },
        _ => panic!("a sequence"),
    }
}

#[test]
fn labels_stay_below_the_number_of_tokens() {
    let tokens = tokens_of("i := 0;\nwhile i <= 3 do\n  if i = 2 then skip else i := i + 1 end;\n  i := i + 1\nend");
    let ast = parse(&tokens).expect("parses");
    let mut counter = 1;
    let _ = while_compiler::labeler::label_ast(ast, &mut counter);
    assert_eq!(counter, 7);
    assert!(counter - 1 < tokens.len());
}

#[test]
fn a_loop_runs_as_its_unfolding() {
    let b = BExpression::Leq(AExpression::Var("x".to_string()), AExpression::Int(3));
    let body = Statement::Assign(
        "x".to_string(),
        AExpression::Add(Box::new(AExpression::Var("x".to_string())), Box::new(AExpression::Int(1))),
    );
    let w = Statement::While(b.clone(), Box::new(body.clone()));
    let u = Statement::If(
        b,
        Box::new(Statement::Sequence(Box::new(body), Box::new(w.clone()))),
        Box::new(Statement::Skip),
    );
    let mut s1 = Store::new();
    s1.insert("x".to_string(), 0);
    let mut s2 = Store::new();
    s2.insert("x".to_string(), 0);
    assert_eq!(exec_stmt_bounded(&w, &mut s1, 100), Ok(()));
    assert_eq!(exec_stmt_bounded(&u, &mut s2, 100), Ok(()));
    assert_eq!(value(&s1, "x"), Some(4));
    assert_eq!(value(&s2, "x"), Some(4));
}

#[test]
fn arithmetic_reading_stops_before_what_cannot_continue_it() {
    let tokens = tokens_of("1 + 2 * x ) * 3");
    let (e, n) = while_compiler::ast::parse_aexpr(&tokens).expect("reads");
    assert_eq!(n, 5);
    let (e2, n2) = while_compiler::ast::parse_aexpr(&tokens[..n]).expect("reads the prefix");
    assert_eq!((e2, n2), (e, n));
}
