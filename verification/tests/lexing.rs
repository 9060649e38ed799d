use minic::lexer::{lex, scan, Class, Span, Token, TokenKind};

fn kinds(text: &str) -> Vec<TokenKind> {
    lex(text).iter().map(|t| t.kind).collect()
}

fn token(kind: TokenKind, start: u32, end: u32) -> Token {
    Token { kind, range: Span { start, end } }
}

#[test]
fn empty_text_has_no_tokens() {
    assert!(lex("").is_empty());
    assert!(lex(" \t\n  ").is_empty());
}

#[test]
fn keywords_are_told_apart() {
    assert_eq!(
        kinds("proc var set loop if else break continue u64"),
        vec![
            TokenKind::Proc,
            TokenKind::Var,
            TokenKind::SetKw,
            TokenKind::Loop,
            TokenKind::If,
            TokenKind::Else,
            TokenKind::Break,
            TokenKind::Continue,
            TokenKind::U64,
        ]
    );
}

#[test]
fn punctuation_is_told_apart() {
    assert_eq!(
        kinds("=+{}()"),
        vec![
            TokenKind::Eq,
            TokenKind::Plus,
            TokenKind::LBrace,
            TokenKind::RBrace,
            TokenKind::LParen,
            TokenKind::RParen,
        ]
    );
}

#[test]
fn tokens_carry_their_byte_ranges() {
    assert_eq!(
        lex("proc f() {\n\tvar x u64 = 5\n}"),
        vec![
            token(TokenKind::Proc, 0, 4),
            token(TokenKind::Ident, 5, 6),
            token(TokenKind::LParen, 6, 7),
            token(TokenKind::RParen, 7, 8),
            token(TokenKind::LBrace, 9, 10),
            token(TokenKind::Var, 12, 15),
            token(TokenKind::Ident, 16, 17),
            token(TokenKind::U64, 18, 21),
            token(TokenKind::Eq, 22, 23),
            token(TokenKind::Int, 24, 25),
            token(TokenKind::RBrace, 26, 27),
        ]
    );
}

#[test]
fn a_word_that_goes_on_after_a_keyword_is_an_identifier() {
    assert_eq!(lex("procedure"), vec![token(TokenKind::Ident, 0, 9)]);
    assert_eq!(lex("u64x"), vec![token(TokenKind::Ident, 0, 4)]);
    assert_eq!(lex("u6"), vec![token(TokenKind::Ident, 0, 2)]);
    assert_eq!(lex("iF"), vec![token(TokenKind::Ident, 0, 2)]);
    assert_eq!(lex("if_"), vec![token(TokenKind::Ident, 0, 3)]);
}

#[test]
fn identifiers_take_letters_digits_and_underscores() {
    assert_eq!(lex("aB_9z"), vec![token(TokenKind::Ident, 0, 5)]);
    assert_eq!(
        lex("a-b"),
        vec![
            token(TokenKind::Ident, 0, 1),
            token(TokenKind::Error, 1, 2),
            token(TokenKind::Ident, 2, 3),
        ]
    );
}

#[test]
fn a_number_ends_where_its_digits_end() {
    assert_eq!(
        lex("123abc"),
        vec![token(TokenKind::Int, 0, 3), token(TokenKind::Ident, 3, 6)]
    );
    assert_eq!(lex("007"), vec![token(TokenKind::Int, 0, 3)]);
}

#[test]
fn an_upper_case_letter_begins_no_token() {
    assert_eq!(
        lex("Abc"),
        vec![token(TokenKind::Error, 0, 1), token(TokenKind::Ident, 1, 3)]
    );
    assert_eq!(
        lex("_x"),
        vec![token(TokenKind::Error, 0, 1), token(TokenKind::Ident, 1, 2)]
    );
}

#[test]
fn an_error_is_one_character() {
    assert_eq!(
        lex("@@"),
        vec![token(TokenKind::Error, 0, 1), token(TokenKind::Error, 1, 2)]
    );
    assert_eq!(
        lex("é€😀x"),
        vec![
            token(TokenKind::Error, 0, 2),
            token(TokenKind::Error, 2, 5),
            token(TokenKind::Error, 5, 9),
            token(TokenKind::Ident, 9, 10),
        ]
    );
}

#[test]
fn a_carriage_return_is_no_blank() {
    assert_eq!(
        lex("a\r\nb"),
        vec![
            token(TokenKind::Ident, 0, 1),
            token(TokenKind::Error, 1, 2),
            token(TokenKind::Ident, 3, 4),
        ]
    );
}

#[test]
fn every_token_lies_between_characters() {
    let text = "proc é() { var x u64 = 12€ }";
    for t in lex(text) {
        assert!(t.range.start < t.range.end);
        assert!(text.is_char_boundary(t.range.start as usize));
        assert!(text.is_char_boundary(t.range.end as usize));
    }
}

#[test]
fn scan_finds_the_end_of_a_run() {
    let bytes = b"  \tab12_ 9";
    assert_eq!(scan(bytes, 0, Class::Space), 3);
    assert_eq!(scan(bytes, 3, Class::Space), 3);
    assert_eq!(scan(bytes, 3, Class::Word), 8);
    assert_eq!(scan(bytes, 5, Class::Digit), 7);
    assert_eq!(scan(bytes, 9, Class::Digit), 10);
    assert_eq!(scan(bytes, 10, Class::Digit), 10);
    assert!(Class::Continuation.contains(0x80));
    assert!(Class::Continuation.contains(0xbf));
    assert!(!Class::Continuation.contains(0xc0));
    assert!(!Class::Continuation.contains(0x7f));
}
