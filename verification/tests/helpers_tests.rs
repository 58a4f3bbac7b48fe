use while_compiler::helpers::token_row;
use while_compiler::lexer::{Delimiter, Identifier, Keyword, Literal, Operator, Token};


// The text column of the token listing.
fn text(token: &Token) -> String {
  token_row(token).1.text
}

// -------------------------------------------------------------------------
// Keywords
// -------------------------------------------------------------------------

#[test]
fn display_kw_if() {
  assert!(text(&Token::Kw(Keyword::If)).contains("if"));
}

#[test]
fn display_kw_then() {
  assert!(text(&Token::Kw(Keyword::Then)).contains("then"));
}

#[test]
fn display_kw_else() {
  assert!(text(&Token::Kw(Keyword::Else)).contains("else"));
}

#[test]
fn display_kw_while() {
  assert!(text(&Token::Kw(Keyword::While)).contains("while"));
}

#[test]
fn display_kw_do() {
  assert!(text(&Token::Kw(Keyword::Do)).contains("do"));
}

#[test]
fn display_kw_skip() {
  assert!(text(&Token::Kw(Keyword::Skip)).contains("skip"));
}

#[test]
fn display_kw_end() {
  assert!(text(&Token::Kw(Keyword::End)).contains("end"));
}

// -------------------------------------------------------------------------
// Operators
// -------------------------------------------------------------------------

#[test]
fn display_op_assign() {
  assert!(text(&Token::Op(Operator::Assign)).contains(":="));
}

#[test]
fn display_op_add() {
  assert!(text(&Token::Op(Operator::Add)).contains("+"));
}

#[test]
fn display_op_sub() {
  assert!(text(&Token::Op(Operator::Sub)).contains("-"));
}

#[test]
fn display_op_mul() {
  assert!(text(&Token::Op(Operator::Mul)).contains("*"));
}

#[test]
fn display_op_equ() {
  assert!(text(&Token::Op(Operator::Equ)).contains("="));
}

#[test]
fn display_op_leq() {
  assert!(text(&Token::Op(Operator::Leq)).contains("<="));
}

#[test]
fn display_op_not() {
  assert!(text(&Token::Op(Operator::Not)).contains("not"));
}

#[test]
fn display_op_and() {
  assert!(text(&Token::Op(Operator::And)).contains("and"));
}

#[test]
fn display_op_semicolon() {
  assert!(text(&Token::Op(Operator::Semicolon)).contains(";"));
}

// -------------------------------------------------------------------------
// Delimiters
// -------------------------------------------------------------------------

#[test]
fn display_del_lparen() {
  assert_eq!(text(&Token::Del(Delimiter::LParen)).trim(), "(");
}

#[test]
fn display_del_rparen() {
  assert_eq!(text(&Token::Del(Delimiter::RParen)).trim(), ")");
}

// -------------------------------------------------------------------------
// Literals
// -------------------------------------------------------------------------

#[test]
fn display_lit_true() {
  assert!(
    text(&Token::Lit(Literal::True))
      .to_lowercase()
      .contains("true")
  );
}

#[test]
fn display_lit_false() {
  assert!(
    text(&Token::Lit(Literal::False))
      .to_lowercase()
      .contains("false")
  );
}

#[test]
fn display_lit_int_positive() {
  assert!(text(&Token::Lit(Literal::Int(42))).contains("42"));
}

#[test]
fn display_lit_int_zero() {
  assert!(text(&Token::Lit(Literal::Int(0))).contains("0"));
}

#[test]
fn display_lit_int_negative() {
  assert!(text(&Token::Lit(Literal::Int(-7))).contains("-7"));
}

// -------------------------------------------------------------------------
// Identifier
// -------------------------------------------------------------------------

#[test]
fn display_identifier_variable() {
  let tok = Token::Idf(Identifier::Variable("myvar".to_string()));
  assert!(text(&tok).contains("myvar"));
}

// -------------------------------------------------------------------------
// EOF token
// -------------------------------------------------------------------------

#[test]
fn display_end_token_is_non_empty() {
  // Just assert it produces some output — the exact formatting may change
  assert!(!text(&Token::End).trim().is_empty());
}


