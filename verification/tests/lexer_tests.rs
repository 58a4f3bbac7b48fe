use while_compiler::error::{LexError, UserDefinedError};
use while_compiler::lexer::{lex_int, parse_tokens, Delimiter, Identifier, Keyword, Literal, Operator, Token};


// -------------------------------------------------------------------------
// Helpers
// -------------------------------------------------------------------------

fn lex(src: &str) -> Result<Vec<Token>, UserDefinedError> {
  let chars: Vec<char> = src.chars().collect();
  let mut tokens: Vec<Token> = Vec::new();
  parse_tokens(&chars, &mut tokens)?;
  Ok(tokens)
}

// Extracts the discriminant name so tests don't need to match every field
fn token_kind(t: &Token) -> &'static str {
  match t {
    Token::Kw(Keyword::If) => "If",
    Token::Kw(Keyword::Then) => "Then",
    Token::Kw(Keyword::Else) => "Else",
    Token::Kw(Keyword::While) => "While",
    Token::Kw(Keyword::Do) => "Do",
    Token::Kw(Keyword::Skip) => "Skip",
    Token::Kw(Keyword::End) => "End",
    Token::Op(Operator::Assign) => "Assign",
    Token::Op(Operator::Add) => "Add",
    Token::Op(Operator::Sub) => "Sub",
    Token::Op(Operator::Mul) => "Mul",
    Token::Op(Operator::Equ) => "Equ",
    Token::Op(Operator::Leq) => "Leq",
    Token::Op(Operator::Not) => "Not",
    Token::Op(Operator::And) => "And",
    Token::Op(Operator::Semicolon) => "Semicolon",
    Token::Del(Delimiter::LParen) => "LParen",
    Token::Del(Delimiter::RParen) => "RParen",
    Token::Lit(Literal::True) => "True",
    Token::Lit(Literal::False) => "False",
    Token::Lit(Literal::Int(_)) => "Int",
    Token::Idf(Identifier::Variable(_)) => "Variable",
    Token::End => "End",
  }
}

fn kinds(tokens: &[Token]) -> Vec<&'static str> {
  tokens.iter().map(token_kind).collect()
}

// -------------------------------------------------------------------------
// lex_int
// -------------------------------------------------------------------------

#[test]
fn lex_int_single_digit() {
  let chars: Vec<char> = "7".chars().collect();
  let (val, skip) = lex_int(&chars);
  assert_eq!(val, 7);
  assert_eq!(skip, 1);
}

#[test]
fn lex_int_multi_digit() {
  let chars: Vec<char> = "42".chars().collect();
  let (val, skip) = lex_int(&chars);
  assert_eq!(val, 42);
  assert_eq!(skip, 2);
}

#[test]
fn lex_int_stops_at_non_digit() {
  let chars: Vec<char> = "123abc".chars().collect();
  let (val, skip) = lex_int(&chars);
  assert_eq!(val, 123);
  assert_eq!(skip, 3);
}

#[test]
fn lex_int_large_number() {
  let chars: Vec<char> = "9999999".chars().collect();
  let (val, skip) = lex_int(&chars);
  assert_eq!(val, 9999999);
  assert_eq!(skip, 7);
}

#[test]
fn lex_int_zero() {
  let chars: Vec<char> = "0".chars().collect();
  let (val, skip) = lex_int(&chars);
  assert_eq!(val, 0);
  assert_eq!(skip, 1);
}

// -------------------------------------------------------------------------
// Operators
// -------------------------------------------------------------------------

#[test]
fn lex_assign() {
  let tokens = lex(":=").unwrap();
  assert_eq!(kinds(&tokens), vec!["Assign", "End"]);
}

#[test]
fn lex_leq() {
  let tokens = lex("<=").unwrap();
  assert_eq!(kinds(&tokens), vec!["Leq", "End"]);
}

#[test]
fn lex_equ() {
  let tokens = lex("=").unwrap();
  assert_eq!(kinds(&tokens), vec!["Equ", "End"]);
}

#[test]
fn lex_add() {
  let tokens = lex("+").unwrap();
  assert_eq!(kinds(&tokens), vec!["Add", "End"]);
}

#[test]
fn lex_sub() {
  let tokens = lex("-").unwrap();
  assert_eq!(kinds(&tokens), vec!["Sub", "End"]);
}

#[test]
fn lex_mul() {
  let tokens = lex("*").unwrap();
  assert_eq!(kinds(&tokens), vec!["Mul", "End"]);
}

#[test]
fn lex_not() {
  let tokens = lex("!").unwrap();
  assert_eq!(kinds(&tokens), vec!["Not", "End"]);
}

#[test]
fn lex_and() {
  let tokens = lex("&").unwrap();
  assert_eq!(kinds(&tokens), vec!["And", "End"]);
}

#[test]
fn lex_semicolon() {
  let tokens = lex(";").unwrap();
  assert_eq!(kinds(&tokens), vec!["Semicolon", "End"]);
}

// -------------------------------------------------------------------------
// Delimiters
// -------------------------------------------------------------------------

#[test]
fn lex_parens() {
  let tokens = lex("()").unwrap();
  assert_eq!(kinds(&tokens), vec!["LParen", "RParen", "End"]);
}

// -------------------------------------------------------------------------
// Keywords
// -------------------------------------------------------------------------

#[test]
fn lex_keyword_if() {
  let tokens = lex("if").unwrap();
  assert_eq!(kinds(&tokens), vec!["If", "End"]);
}

#[test]
fn lex_keyword_then() {
  let tokens = lex("then").unwrap();
  assert_eq!(kinds(&tokens), vec!["Then", "End"]);
}

#[test]
fn lex_keyword_else() {
  let tokens = lex("else").unwrap();
  assert_eq!(kinds(&tokens), vec!["Else", "End"]);
}

#[test]
fn lex_keyword_while() {
  let tokens = lex("while").unwrap();
  assert_eq!(kinds(&tokens), vec!["While", "End"]);
}

#[test]
fn lex_keyword_do() {
  let tokens = lex("do").unwrap();
  assert_eq!(kinds(&tokens), vec!["Do", "End"]);
}

#[test]
fn lex_keyword_skip() {
  let tokens = lex("skip").unwrap();
  assert_eq!(kinds(&tokens), vec!["Skip", "End"]);
}

#[test]
fn lex_keyword_end() {
  let tokens = lex("end").unwrap();
  assert_eq!(kinds(&tokens), vec!["End", "End"]);
}

// -------------------------------------------------------------------------
// Literals
// -------------------------------------------------------------------------

#[test]
fn lex_literal_true() {
  let tokens = lex("true").unwrap();
  assert_eq!(kinds(&tokens), vec!["True", "End"]);
}

#[test]
fn lex_literal_false() {
  let tokens = lex("false").unwrap();
  assert_eq!(kinds(&tokens), vec!["False", "End"]);
}

#[test]
fn lex_integer_literal() {
  let tokens = lex("42").unwrap();
  assert_eq!(kinds(&tokens), vec!["Int", "End"]);
  if let Token::Lit(Literal::Int(n)) = &tokens[0] {
    assert_eq!(*n, 42);
  } else {
    panic!("expected Int literal");
  }
}

// -------------------------------------------------------------------------
// Whitespace
// -------------------------------------------------------------------------

#[test]
fn lex_skips_spaces() {
  let tokens = lex("+ +").unwrap();
  assert_eq!(kinds(&tokens), vec!["Add", "Add", "End"]);
}

#[test]
fn lex_skips_newlines_and_tabs() {
  let tokens = lex("+\n\t\r+").unwrap();
  assert_eq!(kinds(&tokens), vec!["Add", "Add", "End"]);
}

// -------------------------------------------------------------------------
// Sequences
// -------------------------------------------------------------------------

#[test]
fn lex_assignment_statement() {
  // x := 5
  let tokens = lex("x := 5").unwrap();
  assert_eq!(kinds(&tokens), vec!["Variable", "Assign", "Int", "End"]);
}

#[test]
fn lex_sequence_with_semicolon() {
  // x := 1 ; y := 2
  let tokens = lex("x := 1 ; y := 2").unwrap();
  assert_eq!(
    kinds(&tokens),
    vec![
      "Variable",
      "Assign",
      "Int",
      "Semicolon",
      "Variable",
      "Assign",
      "Int",
      "End"
    ]
  );
}

#[test]
fn lex_while_loop() {
  let tokens = lex("while x do skip end").unwrap();
  assert_eq!(
    kinds(&tokens),
    vec!["While", "Variable", "Do", "Skip", "End", "End"]
  );
}

#[test]
fn lex_if_statement() {
  let tokens = lex("if true then skip else skip end").unwrap();
  assert_eq!(
    kinds(&tokens),
    vec!["If", "True", "Then", "Skip", "Else", "Skip", "End", "End"]
  );
}

#[test]
fn lex_leq_vs_assign_no_confusion() {
  // '<=' and ':=' must not be confused with '<' or ':'
  let tokens = lex("<= :=").unwrap();
  assert_eq!(kinds(&tokens), vec!["Leq", "Assign", "End"]);
}

// -------------------------------------------------------------------------
// EOF / empty input
// -------------------------------------------------------------------------

#[test]
fn lex_empty_string() {
  let tokens = lex("").unwrap();
  assert_eq!(kinds(&tokens), vec!["End"]);
}

#[test]
fn lex_only_whitespace() {
  let tokens = lex("   \n\t  ").unwrap();
  assert_eq!(kinds(&tokens), vec!["End"]);
}

// -------------------------------------------------------------------------
// Error cases
// -------------------------------------------------------------------------

#[test]
fn lex_unidentified_token_returns_err() {
  let result = lex("@");
  assert!(result.is_err());
  if let Err(UserDefinedError::Lex(LexError::UnidentifiedToken(c))) = result {
    assert_eq!(c, '@');
  } else {
    panic!("expected UnidentifiedToken('@')");
  }
}

#[test]
fn lex_unidentified_token_in_middle_returns_err() {
  // Valid tokens before the bad one — should still error
  let result = lex("x := @");
  assert!(result.is_err());
}

#[test]
fn lex_bare_colon_returns_err() {
  // ':' without '=' is not a valid token
  let result = lex(":");
  assert!(result.is_err());
}

