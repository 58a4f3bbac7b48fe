use while_compiler::ast::{parse, parse_aexpr, parse_bexpr, AExpression, BExpression, Statement};
use while_compiler::lexer::{Delimiter, Identifier, Keyword, Literal, Operator, Token};


// -------------------------------------------------------------------------
// Token stream builders — keep tests readable
// -------------------------------------------------------------------------

fn num(n: i64) -> Token {
  Token::Lit(Literal::Int(n))
}
fn var(s: &str) -> Token {
  Token::Idf(Identifier::Variable(s.to_string()))
}
fn kw(k: Keyword) -> Token {
  Token::Kw(k)
}
fn op(o: Operator) -> Token {
  Token::Op(o)
}
fn del(d: Delimiter) -> Token {
  Token::Del(d)
}
fn eof() -> Token {
  Token::End
}

// Appends Token::End so every stream is valid for parse()
fn stream(mut tokens: Vec<Token>) -> Vec<Token> {
  tokens.push(eof());
  tokens
}

// -------------------------------------------------------------------------
// Display — AExpression
// -------------------------------------------------------------------------

#[test]
fn display_aexpr_int() {
  assert_eq!(AExpression::Int(42).to_string(), "42");
}

#[test]
fn display_aexpr_negative_int() {
  assert_eq!(AExpression::Int(-7).to_string(), "-7");
}

#[test]
fn display_aexpr_var() {
  assert_eq!(AExpression::Var("x".to_string()).to_string(), "x");
}

#[test]
fn display_aexpr_add() {
  let e = AExpression::Add(Box::new(AExpression::Int(1)), Box::new(AExpression::Int(2)));
  assert_eq!(e.to_string(), "1 + 2");
}

#[test]
fn display_aexpr_sub() {
  let e = AExpression::Sub(
    Box::new(AExpression::Var("x".to_string())),
    Box::new(AExpression::Int(1)),
  );
  assert_eq!(e.to_string(), "x - 1");
}

#[test]
fn display_aexpr_mul() {
  let e = AExpression::Mul(Box::new(AExpression::Int(3)), Box::new(AExpression::Int(4)));
  assert_eq!(e.to_string(), "3 * 4");
}

#[test]
fn display_aexpr_nested() {
  // (x + 1) * 2  stored as Mul(Add(x,1), 2)
  let e = AExpression::Mul(
    Box::new(AExpression::Add(
      Box::new(AExpression::Var("x".to_string())),
      Box::new(AExpression::Int(1)),
    )),
    Box::new(AExpression::Int(2)),
  );
  assert_eq!(e.to_string(), "x + 1 * 2");
}

// -------------------------------------------------------------------------
// Display — BExpression
// -------------------------------------------------------------------------

#[test]
fn display_bexpr_true() {
  assert_eq!(BExpression::True.to_string(), "true");
}

#[test]
fn display_bexpr_false() {
  assert_eq!(BExpression::False.to_string(), "false");
}

#[test]
fn display_bexpr_equ() {
  let e = BExpression::Equ(AExpression::Var("x".to_string()), AExpression::Int(0));
  assert_eq!(e.to_string(), "x = 0");
}

#[test]
fn display_bexpr_leq() {
  let e = BExpression::Leq(AExpression::Var("x".to_string()), AExpression::Int(100));
  assert_eq!(e.to_string(), "x <= 100");
}

#[test]
fn display_bexpr_not() {
  let e = BExpression::Not(Box::new(BExpression::True));
  assert_eq!(e.to_string(), "!true");
}

#[test]
fn display_bexpr_and() {
  let e = BExpression::And(Box::new(BExpression::True), Box::new(BExpression::False));
  assert_eq!(e.to_string(), "true & false");
}

// -------------------------------------------------------------------------
// Display — Statement
// -------------------------------------------------------------------------

#[test]
fn display_stmt_skip() {
  assert_eq!(Statement::Skip.to_string(), "Skip");
}

#[test]
fn display_stmt_assign() {
  let s = Statement::Assign("x".to_string(), AExpression::Int(5));
  assert_eq!(s.to_string(), "x := 5");
}

#[test]
fn display_stmt_sequence() {
  let s = Statement::Sequence(
    Box::new(Statement::Assign("x".to_string(), AExpression::Int(1))),
    Box::new(Statement::Assign("y".to_string(), AExpression::Int(2))),
  );
  assert_eq!(s.to_string(), "x := 1; y := 2");
}

#[test]
fn display_stmt_if() {
  let s = Statement::If(
    BExpression::True,
    Box::new(Statement::Skip),
    Box::new(Statement::Skip),
  );
  assert_eq!(s.to_string(), "if true then Skip else Skip");
}

#[test]
fn display_stmt_while() {
  let s = Statement::While(BExpression::True, Box::new(Statement::Skip));
  assert_eq!(s.to_string(), "while true do Skip");
}

// -------------------------------------------------------------------------
// PartialEq / Clone
// -------------------------------------------------------------------------

#[test]
fn aexpr_equality() {
  assert_eq!(AExpression::Int(42), AExpression::Int(42));
  assert_ne!(AExpression::Int(42), AExpression::Int(0));
}

#[test]
fn aexpr_clone() {
  let a = AExpression::Add(Box::new(AExpression::Int(1)), Box::new(AExpression::Int(2)));
  assert_eq!(a.clone(), a);
}

#[test]
fn stmt_equality() {
  assert_eq!(Statement::Skip, Statement::Skip);
  assert_ne!(
    Statement::Skip,
    Statement::Assign("x".to_string(), AExpression::Int(0))
  );
}

// -------------------------------------------------------------------------
// parse_factor (called indirectly via parse_aexpr → parse_term → parse_factor)
// -------------------------------------------------------------------------

#[test]
fn parse_factor_int_literal() {
  // let tokens = stream(vec![num(7)]);
  // let result = parse(&tokens).unwrap();
  // Wrapping a lone int in an assignment to test via parse()
  // Test directly via parse_aexpr instead:
  let tokens = vec![num(7)];
  let (expr, consumed) = parse_aexpr(&tokens).unwrap();
  assert_eq!(expr, AExpression::Int(7));
  assert_eq!(consumed, 1);
}

#[test]
fn parse_factor_variable() {
  let tokens = vec![var("x")];
  let (expr, consumed) = parse_aexpr(&tokens).unwrap();
  assert_eq!(expr, AExpression::Var("x".to_string()));
  assert_eq!(consumed, 1);
}

#[test]
fn parse_factor_negative_int() {
  // -5
  let tokens = vec![op(Operator::Sub), num(5)];
  let (expr, consumed) = parse_aexpr(&tokens).unwrap();
  assert_eq!(expr, AExpression::Int(-5));
  assert_eq!(consumed, 2);
}

#[test]
fn parse_factor_grouped_expr() {
  // (3 + 4)
  let tokens = vec![
    del(Delimiter::LParen),
    num(3),
    op(Operator::Add),
    num(4),
    del(Delimiter::RParen),
  ];
  let (expr, consumed) = parse_aexpr(&tokens).unwrap();
  assert_eq!(
    expr,
    AExpression::Add(Box::new(AExpression::Int(3)), Box::new(AExpression::Int(4)))
  );
  assert_eq!(consumed, 5);
}

#[test]
fn parse_factor_empty_returns_err() {
  let result = parse_aexpr(&[]);
  assert!(result.is_err());
}

#[test]
fn parse_factor_lone_lparen_returns_err() {
  let tokens = vec![del(Delimiter::LParen)];
  assert!(parse_aexpr(&tokens).is_err());
}

#[test]
fn parse_factor_unclosed_paren_returns_err() {
  // (3 + 4   — missing RParen
  let tokens = vec![del(Delimiter::LParen), num(3), op(Operator::Add), num(4)];
  assert!(parse_aexpr(&tokens).is_err());
}

// -------------------------------------------------------------------------
// parse_term
// -------------------------------------------------------------------------

#[test]
fn parse_term_single_factor() {
  let tokens = vec![num(5)];
  let (expr, consumed) = parse_aexpr(&tokens).unwrap();
  assert_eq!(expr, AExpression::Int(5));
  assert_eq!(consumed, 1);
}

#[test]
fn parse_term_multiplication() {
  // 3 * 4
  let tokens = vec![num(3), op(Operator::Mul), num(4)];
  let (expr, consumed) = parse_aexpr(&tokens).unwrap();
  assert_eq!(
    expr,
    AExpression::Mul(Box::new(AExpression::Int(3)), Box::new(AExpression::Int(4)))
  );
  assert_eq!(consumed, 3);
}

#[test]
fn parse_term_mul_chain_left_associative() {
  // 2 * 3 * 4  →  Mul(Mul(2,3), 4)
  let tokens = vec![num(2), op(Operator::Mul), num(3), op(Operator::Mul), num(4)];
  let (expr, _) = parse_aexpr(&tokens).unwrap();
  assert_eq!(
    expr,
    AExpression::Mul(
      Box::new(AExpression::Mul(
        Box::new(AExpression::Int(2)),
        Box::new(AExpression::Int(3)),
      )),
      Box::new(AExpression::Int(4)),
    )
  );
}

// -------------------------------------------------------------------------
// parse_aexpr
// -------------------------------------------------------------------------

#[test]
fn parse_aexpr_addition() {
  // 1 + 2
  let tokens = vec![num(1), op(Operator::Add), num(2)];
  let (expr, consumed) = parse_aexpr(&tokens).unwrap();
  assert_eq!(
    expr,
    AExpression::Add(Box::new(AExpression::Int(1)), Box::new(AExpression::Int(2)))
  );
  assert_eq!(consumed, 3);
}

#[test]
fn parse_aexpr_subtraction() {
  // x - 1
  let tokens = vec![var("x"), op(Operator::Sub), num(1)];
  let (expr, consumed) = parse_aexpr(&tokens).unwrap();
  assert_eq!(
    expr,
    AExpression::Sub(
      Box::new(AExpression::Var("x".to_string())),
      Box::new(AExpression::Int(1)),
    )
  );
  assert_eq!(consumed, 3);
}

#[test]
fn parse_aexpr_add_chain_left_associative() {
  // 1 + 2 + 3  →  Add(Add(1,2), 3)
  let tokens = vec![num(1), op(Operator::Add), num(2), op(Operator::Add), num(3)];
  let (expr, _) = parse_aexpr(&tokens).unwrap();
  assert_eq!(
    expr,
    AExpression::Add(
      Box::new(AExpression::Add(
        Box::new(AExpression::Int(1)),
        Box::new(AExpression::Int(2)),
      )),
      Box::new(AExpression::Int(3)),
    )
  );
}

#[test]
fn parse_aexpr_mul_binds_tighter_than_add() {
  // 1 + 2 * 3  →  Add(1, Mul(2,3))
  let tokens = vec![num(1), op(Operator::Add), num(2), op(Operator::Mul), num(3)];
  let (expr, _) = parse_aexpr(&tokens).unwrap();
  assert_eq!(
    expr,
    AExpression::Add(
      Box::new(AExpression::Int(1)),
      Box::new(AExpression::Mul(
        Box::new(AExpression::Int(2)),
        Box::new(AExpression::Int(3)),
      )),
    )
  );
}

#[test]
fn parse_aexpr_grouped_overrides_precedence() {
  // (1 + 2) * 3  →  Mul(Add(1,2), 3)
  let tokens = vec![
    del(Delimiter::LParen),
    num(1),
    op(Operator::Add),
    num(2),
    del(Delimiter::RParen),
    op(Operator::Mul),
    num(3),
  ];
  let (expr, _) = parse_aexpr(&tokens).unwrap();
  assert_eq!(
    expr,
    AExpression::Mul(
      Box::new(AExpression::Add(
        Box::new(AExpression::Int(1)),
        Box::new(AExpression::Int(2)),
      )),
      Box::new(AExpression::Int(3)),
    )
  );
}

// -------------------------------------------------------------------------
// parse_bfactor / parse_bcomp / parse_bexpr
// -------------------------------------------------------------------------

#[test]
fn parse_bexpr_true() {
  // let tokens = vec![kw(Keyword::Skip), eof()]; // need parse context
  // test directly
  let tokens = vec![Token::Lit(Literal::True)];
  let (expr, consumed) = parse_bexpr(&tokens).unwrap();
  assert_eq!(expr, BExpression::True);
  assert_eq!(consumed, 1);
}

#[test]
fn parse_bexpr_false() {
  let tokens = vec![Token::Lit(Literal::False)];
  let (expr, consumed) = parse_bexpr(&tokens).unwrap();
  assert_eq!(expr, BExpression::False);
  assert_eq!(consumed, 1);
}

#[test]
fn parse_bexpr_equality() {
  // x = 0
  let tokens = vec![var("x"), op(Operator::Equ), num(0)];
  let (expr, consumed) = parse_bexpr(&tokens).unwrap();
  assert_eq!(
    expr,
    BExpression::Equ(AExpression::Var("x".to_string()), AExpression::Int(0),)
  );
  assert_eq!(consumed, 3);
}

#[test]
fn parse_bexpr_leq() {
  // x <= 10
  let tokens = vec![var("x"), op(Operator::Leq), num(10)];
  let (expr, consumed) = parse_bexpr(&tokens).unwrap();
  assert_eq!(
    expr,
    BExpression::Leq(AExpression::Var("x".to_string()), AExpression::Int(10),)
  );
  assert_eq!(consumed, 3);
}

#[test]
fn parse_bexpr_not() {
  // ! true
  let tokens = vec![op(Operator::Not), Token::Lit(Literal::True)];
  let (expr, consumed) = parse_bexpr(&tokens).unwrap();
  assert_eq!(expr, BExpression::Not(Box::new(BExpression::True)));
  assert_eq!(consumed, 2);
}

#[test]
fn parse_bexpr_double_not() {
  // ! ! false
  let tokens = vec![
    op(Operator::Not),
    op(Operator::Not),
    Token::Lit(Literal::False),
  ];
  let (expr, _) = parse_bexpr(&tokens).unwrap();
  assert_eq!(
    expr,
    BExpression::Not(Box::new(BExpression::Not(Box::new(BExpression::False))))
  );
}

#[test]
fn parse_bexpr_and() {
  // true & false
  let tokens = vec![
    Token::Lit(Literal::True),
    op(Operator::And),
    Token::Lit(Literal::False),
  ];
  let (expr, consumed) = parse_bexpr(&tokens).unwrap();
  assert_eq!(
    expr,
    BExpression::And(Box::new(BExpression::True), Box::new(BExpression::False))
  );
  assert_eq!(consumed, 3);
}

#[test]
fn parse_bexpr_and_chain_left_associative() {
  // true & false & true  →  And(And(true,false), true)
  let tokens = vec![
    Token::Lit(Literal::True),
    op(Operator::And),
    Token::Lit(Literal::False),
    op(Operator::And),
    Token::Lit(Literal::True),
  ];
  let (expr, _) = parse_bexpr(&tokens).unwrap();
  assert_eq!(
    expr,
    BExpression::And(
      Box::new(BExpression::And(
        Box::new(BExpression::True),
        Box::new(BExpression::False),
      )),
      Box::new(BExpression::True),
    )
  );
}

#[test]
fn parse_bexpr_not_of_relational() {
  // !(x <= 0)
  let tokens = vec![
    op(Operator::Not),
    del(Delimiter::LParen),
    var("x"),
    op(Operator::Leq),
    num(0),
    del(Delimiter::RParen),
  ];
  let (expr, _) = parse_bexpr(&tokens).unwrap();
  assert_eq!(
    expr,
    BExpression::Not(Box::new(BExpression::Leq(
      AExpression::Var("x".to_string()),
      AExpression::Int(0),
    )))
  );
}

// -------------------------------------------------------------------------
// parse (top-level) — happy paths
// -------------------------------------------------------------------------

#[test]
fn parse_skip() {
  let tokens = stream(vec![kw(Keyword::Skip)]);
  let result = parse(&tokens).unwrap();
  assert_eq!(result, Statement::Skip);
}

#[test]
fn parse_assign_int() {
  // x := 42
  let tokens = stream(vec![var("x"), op(Operator::Assign), num(42)]);
  let result = parse(&tokens).unwrap();
  assert_eq!(
    result,
    Statement::Assign("x".to_string(), AExpression::Int(42))
  );
}

#[test]
fn parse_assign_expr() {
  // x := y + 1
  let tokens = stream(vec![
    var("x"),
    op(Operator::Assign),
    var("y"),
    op(Operator::Add),
    num(1),
  ]);
  let result = parse(&tokens).unwrap();
  assert_eq!(
    result,
    Statement::Assign(
      "x".to_string(),
      AExpression::Add(
        Box::new(AExpression::Var("y".to_string())),
        Box::new(AExpression::Int(1)),
      ),
    )
  );
}

#[test]
fn parse_assign_negative_rhs() {
  // x := -5
  let tokens = stream(vec![
    var("x"),
    op(Operator::Assign),
    op(Operator::Sub),
    num(5),
  ]);
  let result = parse(&tokens).unwrap();
  assert_eq!(
    result,
    Statement::Assign("x".to_string(), AExpression::Int(-5))
  );
}

#[test]
fn parse_sequence_two_stmts() {
  // x := 1 ; y := 2
  let tokens = stream(vec![
    var("x"),
    op(Operator::Assign),
    num(1),
    op(Operator::Semicolon),
    var("y"),
    op(Operator::Assign),
    num(2),
  ]);
  let result = parse(&tokens).unwrap();
  assert_eq!(
    result,
    Statement::Sequence(
      Box::new(Statement::Assign("x".to_string(), AExpression::Int(1))),
      Box::new(Statement::Assign("y".to_string(), AExpression::Int(2))),
    )
  );
}

#[test]
fn parse_sequence_three_stmts_right_associative() {
  // x := 1 ; y := 2 ; z := 3
  // right-assoc: Sequence(x:=1, Sequence(y:=2, z:=3))
  let tokens = stream(vec![
    var("x"),
    op(Operator::Assign),
    num(1),
    op(Operator::Semicolon),
    var("y"),
    op(Operator::Assign),
    num(2),
    op(Operator::Semicolon),
    var("z"),
    op(Operator::Assign),
    num(3),
  ]);
  let result = parse(&tokens).unwrap();
  assert_eq!(
    result,
    Statement::Sequence(
      Box::new(Statement::Assign("x".to_string(), AExpression::Int(1))),
      Box::new(Statement::Sequence(
        Box::new(Statement::Assign("y".to_string(), AExpression::Int(2))),
        Box::new(Statement::Assign("z".to_string(), AExpression::Int(3))),
      )),
    )
  );
}

#[test]
fn parse_if_statement() {
  // if true then skip else skip end
  let tokens = stream(vec![
    kw(Keyword::If),
    Token::Lit(Literal::True),
    kw(Keyword::Then),
    kw(Keyword::Skip),
    kw(Keyword::Else),
    kw(Keyword::Skip),
    kw(Keyword::End),
  ]);
  let result = parse(&tokens).unwrap();
  assert_eq!(
    result,
    Statement::If(
      BExpression::True,
      Box::new(Statement::Skip),
      Box::new(Statement::Skip),
    )
  );
}

#[test]
fn parse_if_with_condition() {
  // if x <= 5 then y := 1 else y := 0 end
  let tokens = stream(vec![
    kw(Keyword::If),
    var("x"),
    op(Operator::Leq),
    num(5),
    kw(Keyword::Then),
    var("y"),
    op(Operator::Assign),
    num(1),
    kw(Keyword::Else),
    var("y"),
    op(Operator::Assign),
    num(0),
    kw(Keyword::End),
  ]);
  let result = parse(&tokens).unwrap();
  assert_eq!(
    result,
    Statement::If(
      BExpression::Leq(AExpression::Var("x".to_string()), AExpression::Int(5),),
      Box::new(Statement::Assign("y".to_string(), AExpression::Int(1))),
      Box::new(Statement::Assign("y".to_string(), AExpression::Int(0))),
    )
  );
}

#[test]
fn parse_while_statement() {
  // while true do skip end
  let tokens = stream(vec![
    kw(Keyword::While),
    Token::Lit(Literal::True),
    kw(Keyword::Do),
    kw(Keyword::Skip),
    kw(Keyword::End),
  ]);
  let result = parse(&tokens).unwrap();
  assert_eq!(
    result,
    Statement::While(BExpression::True, Box::new(Statement::Skip))
  );
}

#[test]
fn parse_while_with_not_condition() {
  // while !(x <= 0) do x := x - 1 end
  let tokens = stream(vec![
    kw(Keyword::While),
    op(Operator::Not),
    del(Delimiter::LParen),
    var("x"),
    op(Operator::Leq),
    num(0),
    del(Delimiter::RParen),
    kw(Keyword::Do),
    var("x"),
    op(Operator::Assign),
    var("x"),
    op(Operator::Sub),
    num(1),
    kw(Keyword::End),
  ]);
  let result = parse(&tokens).unwrap();
  assert_eq!(
    result,
    Statement::While(
      BExpression::Not(Box::new(BExpression::Leq(
        AExpression::Var("x".to_string()),
        AExpression::Int(0),
      ))),
      Box::new(Statement::Assign(
        "x".to_string(),
        AExpression::Sub(
          Box::new(AExpression::Var("x".to_string())),
          Box::new(AExpression::Int(1)),
        ),
      )),
    )
  );
}

#[test]
fn parse_nested_if_in_while() {
  // while true do if true then skip else skip end end
  let tokens = stream(vec![
    kw(Keyword::While),
    Token::Lit(Literal::True),
    kw(Keyword::Do),
    kw(Keyword::If),
    Token::Lit(Literal::True),
    kw(Keyword::Then),
    kw(Keyword::Skip),
    kw(Keyword::Else),
    kw(Keyword::Skip),
    kw(Keyword::End),
    kw(Keyword::End),
  ]);
  let result = parse(&tokens).unwrap();
  assert_eq!(
    result,
    Statement::While(
      BExpression::True,
      Box::new(Statement::If(
        BExpression::True,
        Box::new(Statement::Skip),
        Box::new(Statement::Skip),
      )),
    )
  );
}

#[test]
fn parse_sequence_inside_while_body() {
  // while true do x := 1 ; y := 2 end
  let tokens = stream(vec![
    kw(Keyword::While),
    Token::Lit(Literal::True),
    kw(Keyword::Do),
    var("x"),
    op(Operator::Assign),
    num(1),
    op(Operator::Semicolon),
    var("y"),
    op(Operator::Assign),
    num(2),
    kw(Keyword::End),
  ]);
  let result = parse(&tokens).unwrap();
  assert_eq!(
    result,
    Statement::While(
      BExpression::True,
      Box::new(Statement::Sequence(
        Box::new(Statement::Assign("x".to_string(), AExpression::Int(1))),
        Box::new(Statement::Assign("y".to_string(), AExpression::Int(2))),
      )),
    )
  );
}

#[test]
fn parse_factorial_program() {
  // x := 6 ; result := 1 ; while !(x <= 0) do result := result * x ; x := x - 1 end
  let tokens = stream(vec![
    var("x"),
    op(Operator::Assign),
    num(6),
    op(Operator::Semicolon),
    var("result"),
    op(Operator::Assign),
    num(1),
    op(Operator::Semicolon),
    kw(Keyword::While),
    op(Operator::Not),
    del(Delimiter::LParen),
    var("x"),
    op(Operator::Leq),
    num(0),
    del(Delimiter::RParen),
    kw(Keyword::Do),
    var("result"),
    op(Operator::Assign),
    var("result"),
    op(Operator::Mul),
    var("x"),
    op(Operator::Semicolon),
    var("x"),
    op(Operator::Assign),
    var("x"),
    op(Operator::Sub),
    num(1),
    kw(Keyword::End),
  ]);
  // Just assert it parses without error — structure verified by simpler tests above
  assert!(parse(&tokens).is_ok());
}

// -------------------------------------------------------------------------
// parse — error paths
// -------------------------------------------------------------------------

#[test]
fn parse_empty_returns_err() {
  assert!(parse(&[]).is_err());
}

#[test]
fn parse_missing_then_returns_err() {
  // if true skip else skip end  — missing then
  let tokens = stream(vec![
    kw(Keyword::If),
    Token::Lit(Literal::True),
    kw(Keyword::Skip),
    kw(Keyword::Else),
    kw(Keyword::Skip),
    kw(Keyword::End),
  ]);
  assert!(parse(&tokens).is_err());
}

#[test]
fn parse_missing_else_returns_err() {
  // if true then skip end  — missing else
  let tokens = stream(vec![
    kw(Keyword::If),
    Token::Lit(Literal::True),
    kw(Keyword::Then),
    kw(Keyword::Skip),
    kw(Keyword::End),
  ]);
  assert!(parse(&tokens).is_err());
}

#[test]
fn parse_missing_end_on_if_returns_err() {
  // if true then skip else skip  — missing end
  let tokens = stream(vec![
    kw(Keyword::If),
    Token::Lit(Literal::True),
    kw(Keyword::Then),
    kw(Keyword::Skip),
    kw(Keyword::Else),
    kw(Keyword::Skip),
  ]);
  assert!(parse(&tokens).is_err());
}

#[test]
fn parse_missing_do_returns_err() {
  // while true skip end  — missing do
  let tokens = stream(vec![
    kw(Keyword::While),
    Token::Lit(Literal::True),
    kw(Keyword::Skip),
    kw(Keyword::End),
  ]);
  assert!(parse(&tokens).is_err());
}

#[test]
fn parse_missing_end_on_while_returns_err() {
  // while true do skip  — missing end
  let tokens = stream(vec![
    kw(Keyword::While),
    Token::Lit(Literal::True),
    kw(Keyword::Do),
    kw(Keyword::Skip),
  ]);
  assert!(parse(&tokens).is_err());
}

#[test]
fn parse_orphan_then_returns_err() {
  let tokens = stream(vec![kw(Keyword::Then)]);
  assert!(parse(&tokens).is_err());
}

#[test]
fn parse_orphan_else_returns_err() {
  let tokens = stream(vec![kw(Keyword::Else)]);
  assert!(parse(&tokens).is_err());
}

#[test]
fn parse_orphan_do_returns_err() {
  let tokens = stream(vec![kw(Keyword::Do)]);
  assert!(parse(&tokens).is_err());
}

#[test]
fn parse_orphan_end_returns_err() {
  let tokens = stream(vec![kw(Keyword::End)]);
  assert!(parse(&tokens).is_err());
}

#[test]
fn parse_assign_missing_rhs_returns_err() {
  // x :=   — nothing after assign
  let tokens = stream(vec![var("x"), op(Operator::Assign)]);
  assert!(parse(&tokens).is_err());
}

#[test]
fn parse_bare_ident_returns_err() {
  // x   — identifier with no :=
  let tokens = stream(vec![var("x")]);
  assert!(parse(&tokens).is_err());
}

#[test]
fn parse_unconsumed_tokens_returns_err() {
  // skip skip  — two statements with no semicolon between them
  // second skip becomes unconsumed
  let tokens = stream(vec![kw(Keyword::Skip), kw(Keyword::Skip)]);
  assert!(parse(&tokens).is_err());
}

