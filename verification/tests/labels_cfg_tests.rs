use while_compiler::ast::{parse, AExpression, BExpression, Statement};
use while_compiler::cfg::{build_cfg, Cfg, Edge};
use while_compiler::labeler::label_ast;
use while_compiler::labelled_ast::StatementL;
use while_compiler::lexer::{lex, Identifier, Keyword, Literal, Operator, Token};

fn program(src: &str) -> Statement {
    let chars: Vec<char> = src.chars().collect();
    let tokens = lex(&chars).unwrap().unwrap();
    parse(&tokens).unwrap()
}

fn edges(cfg: &Cfg) -> Vec<(usize, usize)> {
    cfg.edges.iter().map(|e| (e.from, e.to)).collect()
}

#[test]
fn labels_are_given_in_preorder_from_the_counter() {
    let mut counter = 1;
    let l = label_ast(program("x := 1; if x <= 1 then skip else y := 2 end; while true do skip end "), &mut counter);
    assert_eq!(counter, 7);
    assert_eq!(l.to_string(), "[x := 1]ˡ1; [if x <= 1]ˡ2; [while true]ˡ5");
    match l {
        StatementL::Sequence(a, rest) => {
            assert!(matches!(*a, StatementL::Assign(1, _, _)));
            match *rest {
                StatementL::Sequence(i, w) => {
                    match *i {
                        StatementL::If(2, _, t, e) => {
                            assert_eq!(*t, StatementL::Skip(3));
                            assert!(matches!(*e, StatementL::Assign(4, _, _)));
                        },
                        _ => panic!("expected an if"),
                    }
                    match *w {
                        StatementL::While(5, _, b) => assert_eq!(*b, StatementL::Skip(6)),
                        _ => panic!("expected a while"),
                    }
                },
                _ => panic!("expected a sequence"),
            }
        },
        _ => panic!("expected a sequence"),
    }
}

#[test]
fn cfg_of_sequence_if_and_while() {
    let mut counter = 1;
    let l = label_ast(
        program("x := 1 + 2; if 1 = 2 then y := 3 else skip end; while x <= 5 do x := x + 1 end; w := x "),
        &mut counter,
    );
    let mut cfg = Cfg::new();
    let (entry, exits) = build_cfg(&l, &mut cfg);
    assert_eq!(entry, 1);
    assert_eq!(exits, vec![7]);
    assert_eq!(cfg.nodes, vec![1, 2, 3, 4, 5, 6, 7]);
    assert_eq!(edges(&cfg), vec![(2, 3), (2, 4), (5, 6), (6, 5), (5, 7), (3, 5), (4, 5), (1, 2)]);
    assert_eq!(cfg.statement_map.len(), 7);
    assert_eq!(
        cfg.statement_map[&1],
        vec![
            Token::Idf(Identifier::Variable("x".to_string())),
            Token::Op(Operator::Assign),
            Token::Lit(Literal::Int(1)),
            Token::Op(Operator::Add),
            Token::Lit(Literal::Int(2)),
        ]
    );
    assert_eq!(cfg.statement_map[&4], vec![Token::Kw(Keyword::Skip)]);
}

#[test]
fn add_node_and_edge_do_not_repeat() {
    let mut cfg = Cfg::new();
    let s = StatementL::Skip(1);
    cfg.add_node(1, &s);
    cfg.add_node(1, &StatementL::Skip(9));
    cfg.add_edge(1, 1);
    cfg.add_edge(1, 1);
    assert_eq!(cfg.nodes, vec![1]);
    assert_eq!(cfg.edges, vec![Edge { from: 1, to: 1 }]);
    assert_eq!(cfg.statement_map[&1], vec![Token::Kw(Keyword::Skip)]);
}

#[test]
fn to_tokens_parenthesises_only_where_needed() {
    // (1 + 2) * 3 - (4 - 5)
    let e = AExpression::Sub(
        Box::new(AExpression::Mul(
            Box::new(AExpression::Add(Box::new(AExpression::Int(1)), Box::new(AExpression::Int(2)))),
            Box::new(AExpression::Int(3)),
        )),
        Box::new(AExpression::Sub(Box::new(AExpression::Int(4)), Box::new(AExpression::Int(5)))),
    );
    let mut tokens = e.to_tokens();
    assert_eq!(tokens.len(), 13);
    assert_eq!(tokens[0], Token::Del(while_compiler::lexer::Delimiter::LParen));
    tokens.push(Token::End);
    let (back, n) = while_compiler::ast::parse_aexpr(&tokens).unwrap();
    assert_eq!(back, e);
    assert_eq!(n, 13);
    let b = BExpression::Not(Box::new(BExpression::And(Box::new(BExpression::True), Box::new(BExpression::False))));
    let mut bt = b.to_tokens();
    bt.push(Token::End);
    let (bb, _) = while_compiler::ast::parse_bexpr(&bt).unwrap();
    assert_eq!(bb, b);
}

#[test]
fn statement_tokens_parse_back() {
    let src = "x := 6; while !(x <= 0) do x := x - 1 end; if x = 0 & true then y := 1 else skip end ";
    let mut counter = 1;
    let l = label_ast(program(src), &mut counter);
    let mut tokens = l.to_tokens();
    tokens.push(Token::End);
    assert_eq!(parse(&tokens).unwrap(), program(src));
}

#[test]
fn test_nodes_hold_only_their_test() {
    let s = StatementL::If(
        1,
        BExpression::Equ(AExpression::Int(1), AExpression::Int(2)),
        Box::new(StatementL::Skip(2)),
        Box::new(StatementL::Skip(3)),
    );
    let mut cfg = Cfg::new();
    build_cfg(&s, &mut cfg);
    assert_eq!(
        cfg.statement_map[&1],
        vec![Token::Kw(Keyword::If), Token::Lit(Literal::Int(1)), Token::Op(Operator::Equ), Token::Lit(Literal::Int(2))]
    );
    assert_eq!(cfg.statement_map[&2], vec![Token::Kw(Keyword::Skip)]);
    let w = StatementL::While(4, BExpression::True, Box::new(StatementL::Skip(5)));
    let mut cfg = Cfg::new();
    build_cfg(&w, &mut cfg);
    assert_eq!(cfg.statement_map[&4], vec![Token::Kw(Keyword::While), Token::Lit(Literal::True)]);
}
