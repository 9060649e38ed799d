use minic::diagnostics::context;
use minic::grammar::{Expected, SyntaxError};
use minic::lexer::{lex, Span, Token, TokenKind};
use minic::lower::LowerError;
use minic::parser::parse;

fn token(kind: TokenKind, start: u32, end: u32) -> Token {
    Token { kind, range: Span { start, end } }
}

#[test]
fn kinds_have_their_names() {
    assert_eq!(TokenKind::Proc.name(), "Proc");
    assert_eq!(TokenKind::SetKw.name(), "Set");
    assert_eq!(TokenKind::U64.name(), "U64");
    assert_eq!(TokenKind::LBrace.name(), "LBrace");
    assert_eq!(TokenKind::Error.name(), "Error");
}

#[test]
fn expectations_are_put_in_words() {
    assert_eq!(Expected::Item.describe(), "item");
    assert_eq!(Expected::Statement.describe(), "statement");
    assert_eq!(Expected::Expression.describe(), "expression");
    assert_eq!(Expected::Kind(TokenKind::RParen).describe(), "RParen");
}

#[test]
fn tokens_print_with_their_range() {
    assert_eq!(token(TokenKind::Proc, 0, 4).render(), "Proc@0..4");
    assert_eq!(token(TokenKind::Ident, 10, 123).render(), "Ident@10..123");
    assert_eq!(Span { start: 7, end: 7 }.render(), "7..7");
}

#[test]
fn context_shows_twenty_bytes_on_each_side() {
    let text = "0123456789abcdefghijklmnopqrstuvwxyzABCDEFGHIJKLMNOPQRSTUVWXYZ";
    assert_eq!(
        context(text, Span { start: 30, end: 32 }),
        "abcdefghijklmnopqrstuvwxyzABCDEFGHIJKLMNOP"
    );
    assert_eq!(context(text, Span { start: 2, end: 3 }), "0123456789abcdefghijklm");
    assert_eq!(context(text, Span { start: 60, end: 62 }), "EFGHIJKLMNOPQRSTUVWXYZ");
    assert_eq!(context("short", Span { start: 1, end: 2 }), "short");
    assert_eq!(context("", Span { start: 0, end: 0 }), "");
}

#[test]
fn context_cuts_no_character() {
    // twenty bytes before the x is the second byte of the first character,
    // twenty bytes after it the second byte of the last but one
    let text = "é0123456789012345678xé01234567890123456€z";
    assert_eq!(
        context(text, Span { start: 21, end: 22 }),
        "é0123456789012345678xé01234567890123456€"
    );
    let text = "ab€0123456789012345678x";
    assert_eq!(context(text, Span { start: 24, end: 25 }), "€0123456789012345678x");
}

#[test]
fn context_of_a_stretch_outside_the_text_is_what_there_is() {
    assert_eq!(context("hello", Span { start: 40, end: 50 }), "hello");
    assert_eq!(context("hello", Span { start: 50, end: 2 }), "hello");
    let text = "0123456789abcdefghijklmnopqrstuvwxyzABCDEFGHIJKLMNOPQRSTUVWXYZ";
    assert_eq!(context(text, Span { start: 61, end: 0 }), "");
}

#[test]
fn an_unexpected_token_is_shown_in_its_context() {
    let text = "proc f() { 5 }";
    let err = parse(&lex(text), text).unwrap_err();
    assert_eq!(
        err.message(text),
        "syntax error: expected statement, got Int at 11..12\nproc f() { 5 }"
    );
    assert_eq!(err.wanted(), "statement");
    assert_eq!(err.token(), Some(token(TokenKind::Int, 11, 12)));
}

#[test]
fn a_missing_token_is_named_in_the_message() {
    let text = "proc f( {}";
    let err = parse(&lex(text), text).unwrap_err();
    assert_eq!(
        err.message(text),
        "syntax error: expected RParen, got LBrace at 8..9\nproc f( {}"
    );
}

#[test]
fn the_end_of_the_text_is_named_in_the_message() {
    let err = SyntaxError::UnexpectedEnd { expected: Expected::Expression };
    assert_eq!(
        err.message("proc"),
        "syntax error: expected expression, got the end of the text"
    );
    assert_eq!(err.token(), None);
}

#[test]
fn a_number_that_is_too_large_is_named_in_the_message() {
    let text = "proc f() { var x u64 = 18446744073709551616 }";
    let err = parse(&lex(text), text).unwrap_err();
    assert_eq!(
        err.message(text),
        "syntax error: expected a number that fits 64 bits, got Int at 23..43\n\
         c f() { var x u64 = 18446744073709551616 }"
    );
}

#[test]
fn a_token_outside_the_text_is_named_in_the_message() {
    let err = SyntaxError::BadRange { at: token(TokenKind::Ident, 3, 90) };
    assert_eq!(
        err.message("proc"),
        "syntax error: expected a token inside the text, got Ident at 3..90\nproc"
    );
}

#[test]
fn lowering_errors_have_their_messages() {
    assert_eq!(
        LowerError::UndefinedVariable("x".to_string()).message(),
        "error: undefined variable `x`"
    );
    assert_eq!(LowerError::TypeMismatch.message(), "error: mismatched types");
    assert_eq!(LowerError::BreakOutsideLoop.message(), "error: `break` outside of a loop");
    assert_eq!(
        LowerError::ContinueOutsideLoop.message(),
        "error: `continue` outside of a loop"
    );
    assert_eq!(
        LowerError::OutOfRegisters.message(),
        "error: the procedure needs too many registers"
    );
    assert_eq!(
        LowerError::OutOfLabels.message(),
        "error: the procedure needs too many labels"
    );
}
