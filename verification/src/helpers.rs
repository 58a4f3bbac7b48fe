use vstd::prelude::*;
use crate::ast::Statement;
use crate::doc::{pretty_render, render_doc, stmt_doc, texts, unbroken};
use crate::error::{LexError, SemanticError, SyntaxError, UserDefinedError};
use crate::lexer::{is_ident_char, Delimiter, Identifier, Keyword, Literal, Operator, Token};
use crate::text::{char_is_alphanumeric, int_text, push_char, push_int, push_str};

verus! {

/// The colours in which the terminal front end shows text.
#[derive(Debug, PartialEq, Eq, Structural, Clone, Copy)]
pub enum Color {
    Plain,
    Red,
    Blue,
    Green,
    Yellow,
    Cyan,
    White,
}

/// A piece of text in a colour.
pub struct Piece {
    pub text: String,
    pub color: Color,
}

/// The pieces as (characters, colour) pairs.
pub open spec fn pieces_view(ps: Seq<Piece>) -> Seq<(Seq<char>, Color)> {
    ps.map_values(|p: Piece| (p.text@, p.color))
}

fn piece(text: &str, color: Color) -> (p: Piece)
    ensures
        p.text@ == text@,
        p.color == color,
{
    let mut s = String::new();
    push_str(&mut s, text);
    assert(s@ =~= text@);
    Piece { text: s, color }
}

// ---------------------------------------------------------------------
// Error reports
// ---------------------------------------------------------------------

/// How an error is reported: the pieces of the message, which are shown
/// separated by single spaces, and the exit code.
pub struct ErrorReport {
    pub pieces: Vec<Piece>,
    pub exit_code: i32,
}

/// The exit code for each error; `None` for `NoMatch`, which is not
/// reported.
pub open spec fn exit_code_of(e: UserDefinedError) -> Option<i32> {
    match e {
        UserDefinedError::Lex(_) => Some(20),
        UserDefinedError::Syntax(s) => match s {
            SyntaxError::UndefinedEnd => Some(30),
            SyntaxError::ThenWithoutIf => Some(31),
            SyntaxError::ElseWithoutIf => Some(32),
            SyntaxError::DoWithoutWhile => Some(33),
            SyntaxError::EndWithoutBlock => Some(34),
            SyntaxError::InvalidAssign => Some(35),
            SyntaxError::ExpectedThen => Some(36),
            SyntaxError::ExpectedElse => Some(37),
            SyntaxError::ExpectedDo => Some(38),
            SyntaxError::ExpectedEnd => Some(39),
            SyntaxError::UnconsumedTokens => Some(40),
            SyntaxError::NoMatch => None,
        },
        UserDefinedError::Semantic(_) => Some(50),
    }
}

/// `keyword` used without `block`: the message of the orphaned-keyword
/// errors.
pub open spec fn without_pieces(keyword: Seq<char>, block: Seq<char>) -> Seq<(Seq<char>, Color)> {
    seq![
        ("Error: "@, Color::Red),
        (keyword, Color::Blue),
        (" statement without "@, Color::Red),
        (block, Color::Blue),
        (" statement"@, Color::Red),
    ]
}

/// `expected` missing where `place` says: the message of the
/// missing-keyword errors.
pub open spec fn expected_pieces(expected: Seq<char>, place: Seq<char>) -> Seq<(Seq<char>, Color)> {
    seq![("Error: "@, Color::Red), (expected, Color::Blue), (place, Color::Red)]
}

/// The message of each reported error.
pub open spec fn message_of(e: UserDefinedError) -> Seq<(Seq<char>, Color)> {
    match e {
        UserDefinedError::Lex(LexError::UnidentifiedToken(c)) => seq![
            ("Error: Invalid Character:"@, Color::Red),
            (seq![c], Color::Blue),
        ],
        UserDefinedError::Syntax(s) => match s {
            SyntaxError::DoWithoutWhile => without_pieces("`do`"@, "`while`"@),
            SyntaxError::ElseWithoutIf => without_pieces("`else`"@, "`if`"@),
            SyntaxError::InvalidAssign => seq![("Invalid Assign!"@, Color::Red)],
            SyntaxError::EndWithoutBlock => without_pieces("`end`"@, "any block"@),
            SyntaxError::ThenWithoutIf => without_pieces("`then`"@, "`if`"@),
            SyntaxError::UndefinedEnd => seq![
                ("Error: Termination of block not defined"@, Color::Red),
            ],
            SyntaxError::ExpectedThen => expected_pieces(
                "expected `then`"@,
                "after if condition"@,
            ),
            SyntaxError::ExpectedElse => expected_pieces(
                "expected `else`"@,
                "after then-branch"@,
            ),
            SyntaxError::ExpectedDo => expected_pieces("expected `do`"@, "after while condition"@),
            SyntaxError::ExpectedEnd => expected_pieces("expected `end`"@, "to close block"@),
            SyntaxError::UnconsumedTokens => seq![
                (
                    "Error: unexpected tokens after end of program — missing `;` or stray token"@,
                    Color::Red,
                ),
            ],
            SyntaxError::NoMatch => seq![],
        },
        UserDefinedError::Semantic(SemanticError::UninitializedVariable(v)) => seq![
            ("Error: "@, Color::Red),
            ("Uninitialised Variable"@, Color::Blue),
            (v@, Color::Red),
        ],
    }
}

fn without_report(keyword: &str, block: &str, code: i32) -> (r: ErrorReport)
    ensures
        pieces_view(r.pieces@) == without_pieces(keyword@, block@),
        r.exit_code == code,
{
    let pieces = vec![
        piece("Error: ", Color::Red),
        piece(keyword, Color::Blue),
        piece(" statement without ", Color::Red),
        piece(block, Color::Blue),
        piece(" statement", Color::Red),
    ];
    assert(pieces_view(pieces@) =~= without_pieces(keyword@, block@));
    ErrorReport { pieces, exit_code: code }
}

fn expected_report(expected: &str, place: &str, code: i32) -> (r: ErrorReport)
    ensures
        pieces_view(r.pieces@) == expected_pieces(expected@, place@),
        r.exit_code == code,
{
    let pieces = vec![
        piece("Error: ", Color::Red),
        piece(expected, Color::Blue),
        piece(place, Color::Red),
    ];
    assert(pieces_view(pieces@) =~= expected_pieces(expected@, place@));
    ErrorReport { pieces, exit_code: code }
}

fn single_report(text: &str, code: i32) -> (r: ErrorReport)
    ensures
        pieces_view(r.pieces@) == seq![(text@, Color::Red)],
        r.exit_code == code,
{
    let pieces = vec![piece(text, Color::Red)];
    assert(pieces_view(pieces@) =~= seq![(text@, Color::Red)]);
    ErrorReport { pieces, exit_code: code }
}

/// How `err` is reported: its message and exit code. `None` for
/// `NoMatch`, of which nothing is reported.
pub fn error_report(err: &UserDefinedError) -> (r: Option<ErrorReport>)
    ensures
        match exit_code_of(*err) {
            None => r is None,
            Some(code) => r matches Some(rep) && rep.exit_code == code && pieces_view(rep.pieces@)
                == message_of(*err),
        },
{
    match err {
        UserDefinedError::Lex(LexError::UnidentifiedToken(t)) => {
            let mut c = String::new();
            push_char(&mut c, *t);
            let pieces = vec![
                piece("Error: Invalid Character:", Color::Red),
                Piece { text: c, color: Color::Blue },
            ];
            assert(pieces_view(pieces@) =~= message_of(*err));
            Some(ErrorReport { pieces, exit_code: 20 })
        },
        UserDefinedError::Syntax(s) => match s {
            SyntaxError::DoWithoutWhile => Some(without_report("`do`", "`while`", 33)),
            SyntaxError::ElseWithoutIf => Some(without_report("`else`", "`if`", 32)),
            SyntaxError::InvalidAssign => Some(single_report("Invalid Assign!", 35)),
            SyntaxError::EndWithoutBlock => Some(without_report("`end`", "any block", 34)),
            SyntaxError::ThenWithoutIf => Some(without_report("`then`", "`if`", 31)),
            SyntaxError::UndefinedEnd => Some(
                single_report("Error: Termination of block not defined", 30),
            ),
            SyntaxError::ExpectedThen => Some(
                expected_report("expected `then`", "after if condition", 36),
            ),
            SyntaxError::ExpectedElse => Some(
                expected_report("expected `else`", "after then-branch", 37),
            ),
            SyntaxError::ExpectedDo => Some(
                expected_report("expected `do`", "after while condition", 38),
            ),
            SyntaxError::ExpectedEnd => Some(expected_report("expected `end`", "to close block", 39)),
            SyntaxError::UnconsumedTokens => Some(
                single_report(
                    "Error: unexpected tokens after end of program — missing `;` or stray token",
                    40,
                ),
            ),
            SyntaxError::NoMatch => None,
        },
        UserDefinedError::Semantic(SemanticError::UninitializedVariable(varname)) => {
            let pieces = vec![
                piece("Error: ", Color::Red),
                piece("Uninitialised Variable", Color::Blue),
                Piece { text: varname.clone(), color: Color::Red },
            ];
            assert(pieces_view(pieces@) =~= message_of(*err));
            Some(ErrorReport { pieces, exit_code: 50 })
        },
    }
}

// ---------------------------------------------------------------------
// Token listing
// ---------------------------------------------------------------------

/// The kind column of the token listing.
pub open spec fn token_kind_spec(t: Token) -> Seq<char> {
    match t {
        Token::Kw(_) => "Keyword"@,
        Token::Op(_) => "Operator"@,
        Token::Del(_) => "Delimiter"@,
        Token::Idf(_) => "Identifier"@,
        Token::Lit(_) => "Literal"@,
        Token::End => "EOF"@,
    }
}

pub open spec fn keyword_text(k: Keyword) -> Seq<char> {
    match k {
        Keyword::If => "if"@,
        Keyword::Then => "then"@,
        Keyword::Else => "else"@,
        Keyword::While => "while"@,
        Keyword::Do => "do"@,
        Keyword::Skip => "skip"@,
        Keyword::End => "end"@,
    }
}

pub open spec fn operator_text(o: Operator) -> Seq<char> {
    match o {
        Operator::Assign => ":="@,
        Operator::Add => "+"@,
        Operator::Sub => "-"@,
        Operator::Mul => "*"@,
        Operator::Equ => "="@,
        Operator::Leq => "<="@,
        Operator::Not => "not"@,
        Operator::And => "and"@,
        Operator::Semicolon => ";"@,
    }
}

/// The text column of the token listing.
pub open spec fn token_text_spec(t: Token) -> Seq<char> {
    match t {
        Token::Kw(k) => keyword_text(k),
        Token::Op(o) => operator_text(o),
        Token::Del(Delimiter::LParen) => "("@,
        Token::Del(Delimiter::RParen) => ")"@,
        Token::Idf(Identifier::Variable(v)) => v@,
        Token::Lit(Literal::True) => "true"@,
        Token::Lit(Literal::False) => "false"@,
        Token::Lit(Literal::Int(i)) => int_text(i as int),
        Token::End => "END"@,
    }
}

/// The colour of the text column of the token listing.
pub open spec fn token_color_spec(t: Token) -> Color {
    match t {
        Token::Kw(_) => Color::Blue,
        Token::Op(_) => Color::Green,
        Token::Del(_) => Color::Yellow,
        Token::Idf(_) => Color::Cyan,
        Token::Lit(_) => Color::White,
        Token::End => Color::Red,
    }
}

fn keyword_str(k: Keyword) -> (r: &'static str)
    ensures
        r@ == keyword_text(k),
{
    match k {
        Keyword::If => "if",
        Keyword::Then => "then",
        Keyword::Else => "else",
        Keyword::While => "while",
        Keyword::Do => "do",
        Keyword::Skip => "skip",
        Keyword::End => "end",
    }
}

fn operator_str(o: Operator) -> (r: &'static str)
    ensures
        r@ == operator_text(o),
{
    match o {
        Operator::Assign => ":=",
        Operator::Add => "+",
        Operator::Sub => "-",
        Operator::Mul => "*",
        Operator::Equ => "=",
        Operator::Leq => "<=",
        Operator::Not => "not",
        Operator::And => "and",
        Operator::Semicolon => ";",
    }
}

/// One line of the token listing: the token's kind, and its text in its
/// colour.
pub fn token_row(token: &Token) -> (r: (&'static str, Piece))
    ensures
        r.0@ == token_kind_spec(*token),
        r.1.text@ == token_text_spec(*token),
        r.1.color == token_color_spec(*token),
{
    match token {
        Token::Kw(kw) => ("Keyword", piece(keyword_str(*kw), Color::Blue)),
        Token::Op(op) => ("Operator", piece(operator_str(*op), Color::Green)),
        Token::Del(Delimiter::LParen) => ("Delimiter", piece("(", Color::Yellow)),
        Token::Del(Delimiter::RParen) => ("Delimiter", piece(")", Color::Yellow)),
        Token::Idf(Identifier::Variable(v)) => ("Identifier", Piece { text: v.clone(), color: Color::Cyan }),
        Token::Lit(Literal::True) => ("Literal", piece("true", Color::White)),
        Token::Lit(Literal::False) => ("Literal", piece("false", Color::White)),
        Token::Lit(Literal::Int(i)) => {
            let mut s = String::new();
            push_int(&mut s, *i);
            assert(s@ =~= int_text(*i as int));
            ("Literal", Piece { text: s, color: Color::White })
        },
        Token::End => ("EOF", piece("END", Color::Red)),
    }
}

// ---------------------------------------------------------------------
// Syntax highlighting
// ---------------------------------------------------------------------

pub open spec fn is_all_digits(w: Seq<char>) -> bool {
    forall|i: int| 0 <= i < w.len() ==> '0' <= #[trigger] w[i] <= '9'
}

/// The colour of a word of the pretty-printed program: keywords blue,
/// `not` and `and` green, `true`, `false` and numbers white, other words
/// (variables) cyan.
pub open spec fn word_color(w: Seq<char>) -> Color {
    if w == "if"@ || w == "then"@ || w == "else"@ || w == "while"@ || w == "do"@ || w == "skip"@
        || w == "end"@ {
        Color::Blue
    } else if w == "not"@ || w == "and"@ {
        Color::Green
    } else if w == "true"@ || w == "false"@ {
        Color::White
    } else if is_all_digits(w) {
        Color::White
    } else {
        Color::Cyan
    }
}

/// The colour of a character that is not part of a word: operators green,
/// parentheses yellow, the rest plain.
pub open spec fn symbol_color(c: char) -> Color {
    if c == '+' || c == '-' || c == '*' || c == '=' || c == '<' || c == ';' || c == ':' {
        Color::Green
    } else if c == '(' || c == ')' {
        Color::Yellow
    } else {
        Color::Plain
    }
}

/// The pieces of `code[..i]` and the word still being read at `i`: words
/// are maximal runs of identifier characters; every other character is a
/// piece of its own.
pub open spec fn highlight_upto(code: Seq<char>, i: int) -> (Seq<(Seq<char>, Color)>, Seq<char>)
    decreases i,
{
    if i <= 0 {
        (seq![], seq![])
    } else {
        let (pieces, word) = highlight_upto(code, i - 1);
        let c = code[i - 1];
        if is_ident_char(c) {
            (pieces, word.push(c))
        } else {
            let flushed = if word.len() > 0 {
                pieces.push((word, word_color(word)))
            } else {
                pieces
            };
            (flushed.push((seq![c], symbol_color(c))), seq![])
        }
    }
}

/// The coloured pieces of `code`.
pub open spec fn highlight_spec(code: Seq<char>) -> Seq<(Seq<char>, Color)> {
    let (pieces, word) = highlight_upto(code, code.len() as int);
    if word.len() > 0 {
        pieces.push((word, word_color(word)))
    } else {
        pieces
    }
}

fn str_is(a: &str, b: &str) -> (r: bool)
    ensures
        r == (a@ == b@),
{
    let n = a.unicode_len();
    if n != b.unicode_len() {
        return false;
    }
    let mut i: usize = 0;
    while i < n
        invariant
            n == a@.len(),
            n == b@.len(),
            i <= n,
            forall|j: int| 0 <= j < i ==> a@[j] == b@[j],
        decreases n - i,
    {
        if a.get_char(i) != b.get_char(i) {
            return false;
        }
        i = i + 1;
    }
    assert(a@ =~= b@);
    true
}

fn all_digits(w: &str) -> (r: bool)
    ensures
        r == is_all_digits(w@),
{
    let n = w.unicode_len();
    let mut i: usize = 0;
    while i < n
        invariant
            n == w@.len(),
            i <= n,
            forall|j: int| 0 <= j < i ==> '0' <= #[trigger] w@[j] <= '9',
        decreases n - i,
    {
        let c = w.get_char(i);
        if !('0' <= c && c <= '9') {
            return false;
        }
        i = i + 1;
    }
    true
}

/// The colour of a word of the pretty-printed program (see `word_color`).
pub fn color_word(word: &str) -> (r: Color)
    ensures
        r == word_color(word@),
{
    if str_is(word, "if") || str_is(word, "then") || str_is(word, "else") || str_is(word, "while")
        || str_is(word, "do") || str_is(word, "skip") || str_is(word, "end") {
        Color::Blue
    } else if str_is(word, "not") || str_is(word, "and") {
        Color::Green
    } else if str_is(word, "true") || str_is(word, "false") {
        Color::White
    } else if all_digits(word) {
        Color::White
    } else {
        Color::Cyan
    }
}

fn symbol_piece(c: char) -> (p: Piece)
    ensures
        p.text@ == seq![c],
        p.color == symbol_color(c),
{
    let mut s = String::new();
    push_char(&mut s, c);
    assert(s@ =~= seq![c]);
    let color = if c == '+' || c == '-' || c == '*' || c == '=' || c == '<' || c == ';' || c == ':' {
        Color::Green
    } else if c == '(' || c == ')' {
        Color::Yellow
    } else {
        Color::Plain
    };
    Piece { text: s, color }
}

/// Splits the pretty-printed program `code` into coloured pieces (see
/// `highlight_spec`).
pub fn highlight_syntax(code: &str) -> (r: Vec<Piece>)
    ensures
        pieces_view(r@) == highlight_spec(code@),
{
    let n = code.unicode_len();
    let mut out: Vec<Piece> = Vec::new();
    let mut current_word = String::new();
    let mut i: usize = 0;
    while i < n
        invariant
            n == code@.len(),
            i <= n,
            (pieces_view(out@), current_word@) == highlight_upto(code@, i as int),
        decreases n - i,
    {
        let c = code.get_char(i);
        if char_is_alphanumeric(c) || c == '_' {
            push_char(&mut current_word, c);
        } else {
            if current_word.unicode_len() > 0 {
                let color = color_word(current_word.as_str());
                let ghost before = out@;
                out.push(Piece { text: current_word, color });
                assert(pieces_view(out@) =~= pieces_view(before).push(
                    (highlight_upto(code@, i as int).1, color),
                ));
                current_word = String::new();
            }
            let ghost before = out@;
            out.push(symbol_piece(c));
            assert(pieces_view(out@) =~= pieces_view(before).push((seq![c], symbol_color(c))));
        }
        i = i + 1;
    }
    if current_word.unicode_len() > 0 {
        let color = color_word(current_word.as_str());
        let ghost before = out@;
        out.push(Piece { text: current_word, color });
        assert(pieces_view(out@) =~= pieces_view(before).push(
            (highlight_upto(code@, n as int).1, color),
        ));
    }
    out
}

/// The text of the pieces, one after the other.
pub open spec fn pieces_text(ps: Seq<(Seq<char>, Color)>) -> Seq<char>
    decreases ps.len(),
{
    if ps.len() == 0 {
        seq![]
    } else {
        pieces_text(ps.drop_last()) + ps.last().0
    }
}

proof fn lemma_pieces_text_push(ps: Seq<(Seq<char>, Color)>, p: (Seq<char>, Color))
    ensures
        pieces_text(ps.push(p)) == pieces_text(ps) + p.0,
{
    assert(ps.push(p).drop_last() =~= ps);
}

proof fn lemma_highlight_upto_text(code: Seq<char>, i: int)
    requires
        0 <= i <= code.len(),
    ensures
        pieces_text(highlight_upto(code, i).0) + highlight_upto(code, i).1 == code.subrange(0, i),
    decreases i,
{
    if i > 0 {
        lemma_highlight_upto_text(code, i - 1);
        let (pieces, word) = highlight_upto(code, i - 1);
        let c = code[i - 1];
        if !is_ident_char(c) {
            if word.len() > 0 {
                lemma_pieces_text_push(pieces, (word, word_color(word)));
                lemma_pieces_text_push(pieces.push((word, word_color(word))), (seq![c], symbol_color(c)));
            } else {
                lemma_pieces_text_push(pieces, (seq![c], symbol_color(c)));
            }
        }
        assert(code.subrange(0, i - 1).push(c) =~= code.subrange(0, i));
        assert(pieces_text(highlight_upto(code, i).0) + highlight_upto(code, i).1 =~= code.subrange(0, i));
    } else {
        assert(code.subrange(0, 0) =~= Seq::<char>::empty());
    }
}

/// Highlighting only colours: the pieces, put together, are the code.
pub proof fn law_highlight_keeps_text(code: Seq<char>)
    ensures
        pieces_text(highlight_spec(code)) == code,
{
    lemma_highlight_upto_text(code, code.len() as int);
    let (pieces, word) = highlight_upto(code, code.len() as int);
    if word.len() > 0 {
        lemma_pieces_text_push(pieces, (word, word_color(word)));
    } else {
        assert(pieces_text(pieces) + word =~= pieces_text(pieces));
    }
    assert(code.subrange(0, code.len() as int) =~= code);
}

/// The pretty-printed program in coloured pieces: the document of `stmt`
/// rendered by the `pretty` crate in lines of 80 columns, then split and
/// coloured by `highlight_syntax`.
pub fn pretty_ast(stmt: &Statement) -> (r: Vec<Piece>)
    ensures
        pieces_view(r@) == highlight_spec(pretty_render(stmt_doc(*stmt), 80)),
        unbroken(stmt_doc(*stmt)) ==> pieces_view(r@) == highlight_spec(texts(stmt_doc(*stmt))),
{
    let text = render_doc(&stmt.to_doc(), 80);
    highlight_syntax(text.as_str())
}

} // verus!
