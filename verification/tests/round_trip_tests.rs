use while_compiler::ast::{parse, parse_aexpr, parse_bexpr, AExpression, BExpression, Statement};
use while_compiler::labeler::label_ast;
use while_compiler::lexer::{lex, Token};

fn tokens_of(src: &str) -> Vec<Token> {
    let chars: Vec<char> = format!("{}\n", src).chars().collect();
    lex(&chars).expect("lexing does not panic").expect("lexing succeeds")
}

fn num(i: i64) -> Box<AExpression> {
    Box::new(AExpression::Int(i))
}

fn var(x: &str) -> Box<AExpression> {
    Box::new(AExpression::Var(x.to_string()))
}

fn written_and_read(e: &AExpression) -> (AExpression, usize, usize) {
    let mut tokens = e.to_tokens();
    let n = tokens.len();
    tokens.push(Token::End);
    let (read, consumed) = parse_aexpr(&tokens).expect("reads back");
    (read, consumed, n)
}

#[test]
fn arithmetic_grouping_reads_back() {
    // (a - (b - c)) * -3 + d * (e * f)
    let e = AExpression::Add(
        Box::new(AExpression::Mul(
            Box::new(AExpression::Sub(var("a"), Box::new(AExpression::Sub(var("b"), var("c"))))),
            num(-3),
        )),
        Box::new(AExpression::Mul(var("d"), Box::new(AExpression::Mul(var("e"), var("f"))))),
    );
    let (read, consumed, n) = written_and_read(&e);
    assert_eq!(read, e);
    assert_eq!(consumed, n);
}

#[test]
fn left_nested_sums_read_back_without_parentheses() {
    let e = AExpression::Sub(Box::new(AExpression::Add(num(1), num(2))), num(3));
    let tokens = e.to_tokens();
    assert_eq!(tokens.len(), 5);
    let (read, consumed, n) = written_and_read(&e);
    assert_eq!(read, e);
    assert_eq!(consumed, n);
}

#[test]
fn boolean_grouping_reads_back() {
    // !(x <= 1 & true) & (false & y = 2)
    let b = BExpression::And(
        Box::new(BExpression::Not(Box::new(BExpression::And(
            Box::new(BExpression::Leq(*var("x"), *num(1))),
            Box::new(BExpression::True),
        )))),
        Box::new(BExpression::And(
            Box::new(BExpression::False),
            Box::new(BExpression::Equ(*var("y"), *num(2))),
        )),
    );
    let mut tokens = b.to_tokens();
    let n = tokens.len();
    tokens.push(Token::End);
    let (read, consumed) = parse_bexpr(&tokens).expect("reads back");
    assert_eq!(read, b);
    assert_eq!(consumed, n);
}

#[test]
fn labelled_program_reads_back() {
    let src = "i := 0;\nsum := 0;\nwhile i <= 10 do\n  j := 0;\n  while j <= i do\n    sum := sum + j;\n    j := j + 1\n  end;\n  if !(sum <= 100) & true then skip else i := i + 1 end\nend";
    let program = parse(&tokens_of(src)).expect("parses");
    let mut counter = 1;
    let labelled = label_ast(program.clone(), &mut counter);
    let mut tokens = labelled.to_tokens();
    tokens.push(Token::End);
    assert_eq!(parse(&tokens).expect("reads back"), program);
}

#[test]
fn left_nested_sequence_reads_back_nested_to_the_right() {
    let skip = || Box::new(Statement::Skip);
    let left_nested = Statement::Sequence(Box::new(Statement::Sequence(skip(), skip())), skip());
    let mut counter = 1;
    let mut tokens = label_ast(left_nested, &mut counter).to_tokens();
    tokens.push(Token::End);
    let right_nested = Statement::Sequence(skip(), Box::new(Statement::Sequence(skip(), skip())));
    assert_eq!(parse(&tokens).expect("reads back"), right_nested);
}
