use while_compiler::ast::{AExpression, BExpression, Statement};
use while_compiler::doc::Doc;
use while_compiler::error::{LexError, SemanticError, SyntaxError, UserDefinedError};
use while_compiler::helpers::{color_word, error_report, highlight_syntax, pretty_ast, token_row, Color};
use while_compiler::lexer::{Literal, Token};

fn message(err: &UserDefinedError) -> Option<(String, i32)> {
    error_report(err).map(|r| {
        let texts: Vec<String> = r.pieces.iter().map(|p| p.text.clone()).collect();
        (texts.join(" "), r.exit_code)
    })
}

#[test]
fn error_codes_follow_the_table() {
    let cases = vec![
        (SyntaxError::UndefinedEnd, 30),
        (SyntaxError::ThenWithoutIf, 31),
        (SyntaxError::ElseWithoutIf, 32),
        (SyntaxError::DoWithoutWhile, 33),
        (SyntaxError::EndWithoutBlock, 34),
        (SyntaxError::InvalidAssign, 35),
        (SyntaxError::ExpectedThen, 36),
        (SyntaxError::ExpectedElse, 37),
        (SyntaxError::ExpectedDo, 38),
        (SyntaxError::ExpectedEnd, 39),
        (SyntaxError::UnconsumedTokens, 40),
    ];
    for (e, code) in cases {
        assert_eq!(message(&UserDefinedError::Syntax(e)).unwrap().1, code);
    }
    assert!(error_report(&UserDefinedError::Syntax(SyntaxError::NoMatch)).is_none());
    assert_eq!(
        message(&UserDefinedError::Lex(LexError::UnidentifiedToken('@'))).unwrap(),
        ("Error: Invalid Character: @".to_string(), 20)
    );
    assert_eq!(
        message(&UserDefinedError::Semantic(SemanticError::UninitializedVariable("q".to_string()))).unwrap(),
        ("Error:  Uninitialised Variable q".to_string(), 50)
    );
}

#[test]
fn error_messages_name_the_keywords() {
    assert_eq!(
        message(&UserDefinedError::Syntax(SyntaxError::DoWithoutWhile)).unwrap().0,
        "Error:  `do`  statement without  `while`  statement"
    );
    assert_eq!(
        message(&UserDefinedError::Syntax(SyntaxError::ExpectedEnd)).unwrap().0,
        "Error:  expected `end` to close block"
    );
    let r = error_report(&UserDefinedError::Syntax(SyntaxError::EndWithoutBlock)).unwrap();
    assert_eq!(r.pieces[1].color, Color::Blue);
    assert_eq!(r.pieces[3].text, "any block");
}

#[test]
fn token_rows_give_kind_text_and_colour() {
    let (kind, piece) = token_row(&Token::Lit(Literal::Int(-42)));
    assert_eq!(kind, "Literal");
    assert_eq!(piece.text, "-42");
    assert_eq!(piece.color, Color::White);
    let (kind, piece) = token_row(&Token::End);
    assert_eq!(kind, "EOF");
    assert_eq!(piece.text, "END");
    assert_eq!(piece.color, Color::Red);
}

#[test]
fn words_are_coloured_by_kind() {
    assert_eq!(color_word("while"), Color::Blue);
    assert_eq!(color_word("and"), Color::Green);
    assert_eq!(color_word("false"), Color::White);
    assert_eq!(color_word("0042"), Color::White);
    assert_eq!(color_word("result"), Color::Cyan);
    assert_eq!(color_word("ends"), Color::Cyan);
}

#[test]
fn highlighting_keeps_the_text() {
    let code = "if x <= 10 then\n  y := (x + 1)\nelse skip end";
    let pieces = highlight_syntax(code);
    let joined: String = pieces.iter().map(|p| p.text.clone()).collect();
    assert_eq!(joined, code);
    assert_eq!(pieces[0].text, "if");
    assert_eq!(pieces[0].color, Color::Blue);
    assert_eq!(pieces[2].text, "x");
    assert_eq!(pieces[2].color, Color::Cyan);
    assert_eq!(pieces[4].text, "<");
    assert_eq!(pieces[4].color, Color::Green);
    assert_eq!(pieces[7].text, "10");
    assert_eq!(pieces[7].color, Color::White);
    let paren = pieces.iter().find(|p| p.text == "(").unwrap();
    assert_eq!(paren.color, Color::Yellow);
    let newline = pieces.iter().find(|p| p.text == "\n").unwrap();
    assert_eq!(newline.color, Color::Plain);
}

#[test]
fn display_of_large_and_small_integers() {
    assert_eq!(AExpression::Int(i64::MIN).to_string(), "-9223372036854775808");
    assert_eq!(AExpression::Int(i64::MAX).to_string(), "9223372036854775807");
    assert_eq!(AExpression::Int(0).to_string(), "0");
}

#[test]
fn display_of_nested_statements() {
    let s = Statement::While(
        BExpression::And(
            Box::new(BExpression::Not(Box::new(BExpression::Leq(AExpression::Var("x".to_string()), AExpression::Int(0))))),
            Box::new(BExpression::True),
        ),
        Box::new(Statement::Sequence(
            Box::new(Statement::Assign("x".to_string(), AExpression::Int(1))),
            Box::new(Statement::Skip),
        )),
    );
    assert_eq!(s.to_string(), "while !x <= 0 & true do x := 1; Skip");
}

fn flat(d: &Doc, indent: isize, out: &mut String) {
    match d {
        Doc::Text(s) => out.push_str(s),
        Doc::Hardline => {
            out.push('\n');
            for _ in 0..indent {
                out.push(' ');
            }
        },
        Doc::Append(a, b) => {
            flat(a, indent, out);
            flat(b, indent, out);
        },
        Doc::Nest(n, x) => flat(x, indent + n, out),
    }
}

#[test]
fn documents_lay_out_blocks() {
    let s = Statement::Sequence(
        Box::new(Statement::Assign(
            "x".to_string(),
            AExpression::Mul(
                Box::new(AExpression::Add(Box::new(AExpression::Int(1)), Box::new(AExpression::Int(2)))),
                Box::new(AExpression::Int(3)),
            ),
        )),
        Box::new(Statement::If(
            BExpression::Not(Box::new(BExpression::True)),
            Box::new(Statement::Skip),
            Box::new(Statement::While(BExpression::False, Box::new(Statement::Skip))),
        )),
    );
    let mut out = String::new();
    flat(&s.to_doc(), 0, &mut out);
    assert_eq!(
        out,
        "x := (1 + 2) * 3;\nif not (true) then\n  skip\nelse\n  while false do\n    skip\n  end\nend"
    );
}

#[test]
fn pretty_printing_renders_and_colours_the_program() {
    let s = Statement::Sequence(
        Box::new(Statement::Assign("x".to_string(), AExpression::Int(1))),
        Box::new(Statement::If(
            BExpression::Leq(AExpression::Var("x".to_string()), AExpression::Int(2)),
            Box::new(Statement::Assign("y".to_string(), AExpression::Var("x".to_string()))),
            Box::new(Statement::While(BExpression::False, Box::new(Statement::Skip))),
        )),
    );
    let pieces = pretty_ast(&s);
    let text: String = pieces.iter().map(|p| p.text.clone()).collect();
    assert_eq!(text, "x := 1;\nif x <= 2 then\n  y := x\nelse\n  while false do\n    skip\n  end\nend");
    let keyword = pieces.iter().find(|p| p.text == "while").expect("a piece for the keyword");
    assert_eq!(keyword.color, color_word("while"));
    assert!(pieces.iter().any(|p| p.text == "\n"));
}
