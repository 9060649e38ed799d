//! Tokens, and the lexer that cuts a source text into them.
//!
//! A token is a keyword, an identifier (`[a-z][a-zA-Z0-9_]*`), a number
//! (`[0-9]+`), a punctuation mark, or an error: one character that begins
//! none of these. Blanks, tabs and newlines separate tokens and are dropped.
//! Identifiers and numbers run as far as they can; a word that is spelled
//! like a keyword is that keyword.

use vstd::prelude::*;
use crate::boundaries::lemma_tokens_fit;
use crate::grammar::fits;
use vstd::string::StringSliceAdditionalSpecFns;
use vstd::utf8::encode_utf8_valid_utf8;

verus! {

/// What a token is.
#[derive(Debug, Clone, Copy, PartialEq, Eq, Structural)]
pub enum TokenKind {
    Proc,
    Var,
    SetKw,
    Loop,
    If,
    Else,
    Break,
    Continue,
    U64,
    Ident,
    Int,
    Eq,
    Plus,
    LBrace,
    RBrace,
    LParen,
    RParen,
    Error,
}

/// A stretch of the source text, in bytes from `start` up to `end`.
#[derive(Debug, Clone, Copy, PartialEq, Eq, Structural)]
pub struct Span {
    pub start: u32,
    pub end: u32,
}

/// A token: what it is, and where it stands.
#[derive(Debug, Clone, Copy, PartialEq, Eq, Structural)]
pub struct Token {
    pub kind: TokenKind,
    pub range: Span,
}

/// The sets of bytes that the lexer takes runs of.
#[derive(Debug, Clone, Copy, PartialEq, Eq, Structural)]
pub enum Class {
    /// Blank, tab, newline.
    Space,
    /// What an identifier goes on with: letters, digits, underscore.
    Word,
    /// Decimal digits.
    Digit,
    /// The bytes with which a character of more than one byte goes on.
    Continuation,
}

impl Class {
    /// Whether the byte belongs to the class.
    pub open spec fn has(self, b: u8) -> bool {
        match self {
            Class::Space => b == 0x20 || b == 0x09 || b == 0x0a,
            Class::Word => (0x61 <= b <= 0x7a) || (0x41 <= b <= 0x5a) || (0x30 <= b <= 0x39) || b
                == 0x5f,
            Class::Digit => 0x30 <= b <= 0x39,
            Class::Continuation => 0x80 <= b <= 0xbf,
        }
    }
}

/// Where the run of bytes of one class that starts at `from` ends.
pub open spec fn run_end(bytes: Seq<u8>, from: int, class: Class) -> int
    decreases bytes.len() - from,
{
    if 0 <= from < bytes.len() && class.has(bytes[from]) {
        run_end(bytes, from + 1, class)
    } else {
        from
    }
}

/// The keyword that is spelled `word`, if there is one.
pub open spec fn keyword(word: Seq<u8>) -> Option<TokenKind> {
    if word == "proc".spec_bytes() {
        Some(TokenKind::Proc)
    } else if word == "var".spec_bytes() {
        Some(TokenKind::Var)
    } else if word == "set".spec_bytes() {
        Some(TokenKind::SetKw)
    } else if word == "loop".spec_bytes() {
        Some(TokenKind::Loop)
    } else if word == "if".spec_bytes() {
        Some(TokenKind::If)
    } else if word == "else".spec_bytes() {
        Some(TokenKind::Else)
    } else if word == "break".spec_bytes() {
        Some(TokenKind::Break)
    } else if word == "continue".spec_bytes() {
        Some(TokenKind::Continue)
    } else if word == "u64".spec_bytes() {
        Some(TokenKind::U64)
    } else {
        None
    }
}

/// The punctuation mark that a byte is, if it is one.
pub open spec fn punctuation(b: u8) -> Option<TokenKind> {
    if b == 0x3d {
        Some(TokenKind::Eq)
    } else if b == 0x2b {
        Some(TokenKind::Plus)
    } else if b == 0x7b {
        Some(TokenKind::LBrace)
    } else if b == 0x7d {
        Some(TokenKind::RBrace)
    } else if b == 0x28 {
        Some(TokenKind::LParen)
    } else if b == 0x29 {
        Some(TokenKind::RParen)
    } else {
        None
    }
}

/// Where the token that starts at `at` ends.
pub open spec fn token_end(bytes: Seq<u8>, at: int) -> int
    recommends
        0 <= at < bytes.len(),
{
    let b = bytes[at];
    if 0x61 <= b <= 0x7a {
        run_end(bytes, at + 1, Class::Word)
    } else if Class::Digit.has(b) {
        run_end(bytes, at + 1, Class::Digit)
    } else if punctuation(b) is Some {
        at + 1
    } else {
        run_end(bytes, at + 1, Class::Continuation)
    }
}

/// What the token is that starts at `at`.
pub open spec fn token_kind(bytes: Seq<u8>, at: int) -> TokenKind
    recommends
        0 <= at < bytes.len(),
{
    let b = bytes[at];
    if 0x61 <= b <= 0x7a {
        match keyword(bytes.subrange(at, token_end(bytes, at))) {
            Some(k) => k,
            None => TokenKind::Ident,
        }
    } else if Class::Digit.has(b) {
        TokenKind::Int
    } else {
        match punctuation(b) {
            Some(k) => k,
            None => TokenKind::Error,
        }
    }
}

/// A run ends at or after its start, and inside the text.
pub proof fn lemma_run_end(bytes: Seq<u8>, from: int, class: Class)
    requires
        0 <= from <= bytes.len(),
    ensures
        from <= run_end(bytes, from, class) <= bytes.len(),
        forall|i: int| from <= i < run_end(bytes, from, class) ==> class.has(#[trigger] bytes[i]),
        run_end(bytes, from, class) < bytes.len() ==> !class.has(
            bytes[run_end(bytes, from, class)],
        ),
    decreases bytes.len() - from,
{
    if from < bytes.len() && class.has(bytes[from]) {
        lemma_run_end(bytes, from + 1, class);
    }
}

/// The tokens of the text from position `from` on.
pub open spec fn tokens_from(bytes: Seq<u8>, from: int) -> Seq<Token>
    decreases bytes.len() - from,
{
    let at = run_end(bytes, from, Class::Space);
    if 0 <= from <= at < bytes.len() {
        let end = token_end(bytes, at);
        proof {
            lemma_run_end(bytes, at + 1, Class::Word);
            lemma_run_end(bytes, at + 1, Class::Digit);
            lemma_run_end(bytes, at + 1, Class::Continuation);
        }
        seq![
            Token { kind: token_kind(bytes, at), range: Span { start: at as u32, end: end as u32 } },
        ] + tokens_from(bytes, end)
    } else {
        Seq::empty()
    }
}

impl Class {
    /// Whether the byte belongs to the class.
    pub fn contains(&self, b: u8) -> (r: bool)
        ensures
            r == self.has(b),
    {
        match self {
            Class::Space => b == 0x20 || b == 0x09 || b == 0x0a,
            Class::Word => (0x61 <= b && b <= 0x7a) || (0x41 <= b && b <= 0x5a) || (0x30 <= b && b
                <= 0x39) || b == 0x5f,
            Class::Digit => 0x30 <= b && b <= 0x39,
            Class::Continuation => 0x80 <= b && b <= 0xbf,
        }
    }
}

/// Where the run of bytes of one class that starts at `from` ends.
pub fn scan(bytes: &[u8], from: usize, class: Class) -> (end: usize)
    requires
        from <= bytes@.len(),
    ensures
        end == run_end(bytes@, from as int, class),
        from <= end <= bytes@.len(),
{
    let mut end = from;
    while end < bytes.len() && class.contains(bytes[end])
        invariant
            from <= end <= bytes@.len(),
            run_end(bytes@, from as int, class) == run_end(bytes@, end as int, class),
        decreases bytes@.len() - end,
    {
        end += 1;
    }
    end
}

/// Whether the bytes from `start` up to `end` spell `word`.
fn spells(bytes: &[u8], start: usize, end: usize, word: &str) -> (r: bool)
    requires
        start <= end <= bytes@.len(),
    ensures
        r == (bytes@.subrange(start as int, end as int) == word.spec_bytes()),
{
    let letters = word.as_bytes();
    if letters.len() != end - start {
        return false;
    }
    let mut i: usize = 0;
    while i < letters.len()
        invariant
            0 <= i <= letters@.len(),
            letters@ == word.spec_bytes(),
            letters@.len() == end - start,
            start <= end <= bytes@.len(),
            forall|j: int| 0 <= j < i ==> bytes@[start + j] == letters@[j],
        decreases letters@.len() - i,
    {
        if bytes[start + i] != letters[i] {
            assert(bytes@.subrange(start as int, end as int)[i as int] != letters@[i as int]);
            return false;
        }
        i += 1;
    }
    assert(bytes@.subrange(start as int, end as int) =~= letters@);
    true
}

/// The keyword that the bytes from `start` up to `end` spell, if they
/// spell one.
fn keyword_at(bytes: &[u8], start: usize, end: usize) -> (r: Option<TokenKind>)
    requires
        start <= end <= bytes@.len(),
    ensures
        r == keyword(bytes@.subrange(start as int, end as int)),
{
    if spells(bytes, start, end, "proc") {
        Some(TokenKind::Proc)
    } else if spells(bytes, start, end, "var") {
        Some(TokenKind::Var)
    } else if spells(bytes, start, end, "set") {
        Some(TokenKind::SetKw)
    } else if spells(bytes, start, end, "loop") {
        Some(TokenKind::Loop)
    } else if spells(bytes, start, end, "if") {
        Some(TokenKind::If)
    } else if spells(bytes, start, end, "else") {
        Some(TokenKind::Else)
    } else if spells(bytes, start, end, "break") {
        Some(TokenKind::Break)
    } else if spells(bytes, start, end, "continue") {
        Some(TokenKind::Continue)
    } else if spells(bytes, start, end, "u64") {
        Some(TokenKind::U64)
    } else {
        None
    }
}

/// The punctuation mark that a byte is, if it is one.
fn punctuation_of(b: u8) -> (r: Option<TokenKind>)
    ensures
        r == punctuation(b),
{
    if b == 0x3d {
        Some(TokenKind::Eq)
    } else if b == 0x2b {
        Some(TokenKind::Plus)
    } else if b == 0x7b {
        Some(TokenKind::LBrace)
    } else if b == 0x7d {
        Some(TokenKind::RBrace)
    } else if b == 0x28 {
        Some(TokenKind::LParen)
    } else if b == 0x29 {
        Some(TokenKind::RParen)
    } else {
        None
    }
}

/// The token that starts at `at`: what it is, and where it ends.
fn token_at(bytes: &[u8], at: usize) -> (res: (TokenKind, usize))
    requires
        at < bytes@.len(),
    ensures
        res.0 == token_kind(bytes@, at as int),
        res.1 == token_end(bytes@, at as int),
        at < res.1 <= bytes@.len(),
{
    let b = bytes[at];
    if 0x61 <= b && b <= 0x7a {
        let end = scan(bytes, at + 1, Class::Word);
        match keyword_at(bytes, at, end) {
            Some(k) => (k, end),
            None => (TokenKind::Ident, end),
        }
    } else if Class::Digit.contains(b) {
        (TokenKind::Int, scan(bytes, at + 1, Class::Digit))
    } else {
        match punctuation_of(b) {
            Some(k) => (k, at + 1),
            None => (TokenKind::Error, scan(bytes, at + 1, Class::Continuation)),
        }
    }
}

/// Cuts a source text into its tokens. Every token lies in the text and
/// starts and ends between two characters.
pub fn lex(text: &str) -> (tokens: Vec<Token>)
    requires
        text.len() <= u32::MAX,
    ensures
        tokens@ == tokens_from(text.spec_bytes(), 0),
        forall|i: int| 0 <= i < tokens@.len() ==> fits(text.spec_bytes(), (#[trigger] tokens@[i]).range),
{
    let bytes = text.as_bytes();
    let len = bytes.len();
    proof {
        assert(text.spec_bytes().len() == len);
        encode_utf8_valid_utf8(text@);
        lemma_tokens_fit(text.spec_bytes(), 0);
    }
    let mut tokens: Vec<Token> = Vec::new();
    let mut pos: usize = 0;
    assert(tokens@ + tokens_from(bytes@, 0) =~= tokens_from(bytes@, 0));
    loop
        invariant
            bytes@ == text.spec_bytes(),
            bytes@.len() <= u32::MAX,
            0 <= pos <= bytes@.len(),
            tokens@ + tokens_from(bytes@, pos as int) == tokens_from(bytes@, 0),
        ensures
            tokens@ == tokens_from(bytes@, 0),
        decreases bytes@.len() - pos,
    {
        let at = scan(bytes, pos, Class::Space);
        if at >= bytes.len() {
            assert(tokens@ + Seq::<Token>::empty() =~= tokens@);
            break;
        }
        let (kind, end) = token_at(bytes, at);
        let ghost before = tokens@;
        let token = Token { kind, range: Span { start: at as u32, end: end as u32 } };
        tokens.push(token);
        assert(tokens@ + tokens_from(bytes@, end as int) =~= before + (seq![token] + tokens_from(
            bytes@,
            end as int,
        )));
        pos = end;
    }
    tokens
}

} // verus!
