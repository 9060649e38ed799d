use minic::ast::{Expr, Item, Stmt, Type};
use minic::grammar::{Expected, SyntaxError};
use minic::lexer::{lex, Span, Token, TokenKind};
use minic::parser::{parse, parse_number, range_fits, Parser};

fn parse_text(text: &str) -> Result<Vec<Item>, SyntaxError> {
    parse(&lex(text), text)
}

fn body_of(text: &str) -> Vec<Stmt> {
    let mut items = parse_text(text).unwrap();
    assert_eq!(items.len(), 1);
    match items.pop().unwrap() {
        Item::Proc { name, body } => {
            assert_eq!(name, "f");
            body
        }
    }
}

fn local(name: &str) -> Expr {
    Expr::Local(name.to_string())
}

fn var(name: &str, value: Expr) -> Stmt {
    Stmt::LocalDef { name: name.to_string(), value, ty: Type::U64 }
}

fn token(kind: TokenKind, start: u32, end: u32) -> Token {
    Token { kind, range: Span { start, end } }
}

#[test]
fn parses_a_bare_constant() {
    assert_eq!(body_of("proc f() { var x u64 = 5 }"), vec![var("x", Expr::Int(5))]);
}

#[test]
fn parses_a_rebinding() {
    assert_eq!(
        body_of("proc f() { var x u64 = 5  var y u64 = x }"),
        vec![var("x", Expr::Int(5)), var("y", local("x"))]
    );
}

#[test]
fn parses_an_assignment_of_a_sum() {
    assert_eq!(
        body_of("proc f() { var x u64 = 1 set x = + x 2 }"),
        vec![
            var("x", Expr::Int(1)),
            Stmt::LocalSet {
                name: "x".to_string(),
                new_value: Expr::Add(Box::new(local("x")), Box::new(Expr::Int(2))),
            },
        ]
    );
}

#[test]
fn parses_loops_and_jumps() {
    assert_eq!(
        body_of("proc f() { loop { break } }"),
        vec![Stmt::Loop { stmts: vec![Stmt::Break] }]
    );
    assert_eq!(
        body_of("proc f() { loop { loop { continue } } }"),
        vec![Stmt::Loop { stmts: vec![Stmt::Loop { stmts: vec![Stmt::Continue] }] }]
    );
}

#[test]
fn parses_an_if_with_both_branches() {
    assert_eq!(
        body_of("proc f() { if = 1 2 { var a u64 = 3 } else { var b u64 = 4 } }"),
        vec![Stmt::If {
            condition: Expr::Equal(Box::new(Expr::Int(1)), Box::new(Expr::Int(2))),
            true_branch: vec![var("a", Expr::Int(3))],
            false_branch: vec![var("b", Expr::Int(4))],
        }]
    );
}

#[test]
fn parses_nested_prefix_expressions() {
    assert_eq!(
        body_of("proc f() { var x u64 = + + 1 2 = a 3 }"),
        vec![var(
            "x",
            Expr::Add(
                Box::new(Expr::Add(Box::new(Expr::Int(1)), Box::new(Expr::Int(2)))),
                Box::new(Expr::Equal(Box::new(local("a")), Box::new(Expr::Int(3)))),
            ),
        )]
    );
}

#[test]
fn parses_several_items() {
    let items = parse_text("proc f() {} proc g() { break }").unwrap();
    assert_eq!(
        items,
        vec![
            Item::Proc { name: "f".to_string(), body: vec![] },
            Item::Proc { name: "g".to_string(), body: vec![Stmt::Break] },
        ]
    );
    assert_eq!(parse_text(""), Ok(vec![]));
}

#[test]
fn the_largest_number_is_accepted_and_the_next_is_not() {
    assert_eq!(
        body_of("proc f() { var x u64 = 18446744073709551615 }"),
        vec![var("x", Expr::Int(u64::MAX))]
    );
    assert_eq!(
        parse_text("proc f() { var x u64 = 18446744073709551616 }"),
        Err(SyntaxError::BadNumber { at: token(TokenKind::Int, 23, 43) })
    );
}

#[test]
fn parse_number_reads_decimal_digits() {
    assert_eq!(parse_number(b"0"), Some(0));
    assert_eq!(parse_number(b"007"), Some(7));
    assert_eq!(parse_number(b"1234567890"), Some(1234567890));
    assert_eq!(parse_number(b"18446744073709551615"), Some(u64::MAX));
    assert_eq!(parse_number(b"18446744073709551616"), None);
    assert_eq!(parse_number(b"99999999999999999999"), None);
    assert_eq!(parse_number(b""), None);
    assert_eq!(parse_number(b"12a"), None);
    assert_eq!(parse_number(b"+5"), None);
}

#[test]
fn something_else_than_an_item_is_refused() {
    assert_eq!(
        parse_text("var"),
        Err(SyntaxError::Unexpected {
            expected: Expected::Item,
            found: token(TokenKind::Var, 0, 3),
        })
    );
}

#[test]
fn something_else_than_a_statement_is_refused() {
    assert_eq!(
        parse_text("proc f() { 5 }"),
        Err(SyntaxError::Unexpected {
            expected: Expected::Statement,
            found: token(TokenKind::Int, 11, 12),
        })
    );
}

#[test]
fn something_else_than_an_expression_is_refused() {
    assert_eq!(
        parse_text("proc f() { set x = } }"),
        Err(SyntaxError::Unexpected {
            expected: Expected::Expression,
            found: token(TokenKind::RBrace, 19, 20),
        })
    );
}

#[test]
fn a_missing_token_is_named() {
    assert_eq!(
        parse_text("proc f( {}"),
        Err(SyntaxError::Unexpected {
            expected: Expected::Kind(TokenKind::RParen),
            found: token(TokenKind::LBrace, 8, 9),
        })
    );
    assert_eq!(
        parse_text("proc f() { var x = 5 }"),
        Err(SyntaxError::Unexpected {
            expected: Expected::Kind(TokenKind::U64),
            found: token(TokenKind::Eq, 17, 18),
        })
    );
    assert_eq!(
        parse_text("proc f() { if 1 { } }"),
        Err(SyntaxError::Unexpected {
            expected: Expected::Kind(TokenKind::Else),
            found: token(TokenKind::RBrace, 20, 21),
        })
    );
}

#[test]
fn an_error_token_is_refused_where_it_stands() {
    assert_eq!(
        parse_text("proc f() { var x u64 = @ }"),
        Err(SyntaxError::Unexpected {
            expected: Expected::Expression,
            found: token(TokenKind::Error, 23, 24),
        })
    );
}

#[test]
fn the_end_of_the_tokens_is_reported() {
    assert_eq!(
        parse_text("proc f() { loop {"),
        Err(SyntaxError::UnexpectedEnd { expected: Expected::Statement })
    );
    assert_eq!(
        parse_text("proc f() { var x u64 = +  1"),
        Err(SyntaxError::UnexpectedEnd { expected: Expected::Expression })
    );
    assert_eq!(
        parse_text("proc f"),
        Err(SyntaxError::UnexpectedEnd { expected: Expected::Kind(TokenKind::LParen) })
    );
}

#[test]
fn tokens_that_do_not_lie_in_the_text_are_refused() {
    let text = "proc é";
    let outside = token(TokenKind::Proc, 0, 40);
    assert_eq!(parse(&[outside], text), Err(SyntaxError::BadRange { at: outside }));
    let backwards = token(TokenKind::Proc, 4, 0);
    assert_eq!(parse(&[backwards], text), Err(SyntaxError::BadRange { at: backwards }));
    let cutting = token(TokenKind::Ident, 5, 6);
    assert_eq!(
        parse(&[token(TokenKind::Proc, 0, 4), cutting], text),
        Err(SyntaxError::BadRange { at: cutting })
    );
    assert!(range_fits(text, Span { start: 5, end: 7 }));
    assert!(!range_fits(text, Span { start: 5, end: 6 }));
    assert!(!range_fits(text, Span { start: 0, end: 8 }));
    assert!(!range_fits(text, Span { start: 3, end: 2 }));
}

#[test]
fn a_number_token_that_is_no_number_is_refused() {
    let text = "proc f() { var x u64 = ab }";
    let mut tokens = lex(text);
    let fake = token(TokenKind::Int, 23, 25);
    tokens[9] = fake;
    assert_eq!(parse(&tokens, text), Err(SyntaxError::BadNumber { at: fake }));
}

#[test]
fn expect_takes_one_token_and_hands_out_its_text() {
    let text = "proc main";
    let tokens = lex(text);
    let mut parser = Parser { tokens: &tokens, cursor: 0, input: text };
    assert!(parser.at(TokenKind::Proc));
    assert_eq!(parser.expect(TokenKind::Proc), Ok("proc".to_string()));
    assert_eq!(parser.cursor, 1);
    assert_eq!(parser.current(), Some(token(TokenKind::Ident, 5, 9)));
    assert_eq!(
        parser.expect(TokenKind::LParen),
        Err(SyntaxError::Unexpected {
            expected: Expected::Kind(TokenKind::LParen),
            found: token(TokenKind::Ident, 5, 9),
        })
    );
    assert_eq!(parser.cursor, 1);
    assert_eq!(parser.expect(TokenKind::Ident), Ok("main".to_string()));
    assert_eq!(parser.current(), None);
    assert!(!parser.at(TokenKind::Ident));
    assert_eq!(
        parser.error(Expected::Statement),
        SyntaxError::UnexpectedEnd { expected: Expected::Statement }
    );
}

#[test]
fn an_expression_ends_where_its_operands_end() {
    let text = "+ 1 = x 2 3";
    let tokens = lex(text);
    let mut parser = Parser { tokens: &tokens, cursor: 0, input: text };
    assert_eq!(
        parser.expr(),
        Ok(Expr::Add(
            Box::new(Expr::Int(1)),
            Box::new(Expr::Equal(Box::new(local("x")), Box::new(Expr::Int(2)))),
        ))
    );
    assert_eq!(parser.cursor, 5);
}
