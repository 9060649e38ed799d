//! The messages that go with the errors of the front end.

use crate::grammar::{Expected, SyntaxError};
use crate::lexer::{Span, Token, TokenKind};
use crate::lower::LowerError;
use crate::model::Fault;
use crate::render::{decimal, decimal_string};
use vstd::prelude::*;
use vstd::string::{StringExecFns, StringSliceAdditionalSpecFns};
use crate::boundaries::lemma_starts_char;
use vstd::utf8::{
    decode_utf8, encode_utf8_decode_utf8, encode_utf8_valid_utf8, is_char_boundary,
    is_char_boundary_start_end_of_seq, valid_utf8, valid_utf8_split,
};

verus! {

/// The name of a kind of token.
pub open spec fn kind_text(kind: TokenKind) -> Seq<char> {
    match kind {
        TokenKind::Proc => "Proc"@,
        TokenKind::Var => "Var"@,
        TokenKind::SetKw => "Set"@,
        TokenKind::Loop => "Loop"@,
        TokenKind::If => "If"@,
        TokenKind::Else => "Else"@,
        TokenKind::Break => "Break"@,
        TokenKind::Continue => "Continue"@,
        TokenKind::U64 => "U64"@,
        TokenKind::Ident => "Ident"@,
        TokenKind::Int => "Int"@,
        TokenKind::Eq => "Eq"@,
        TokenKind::Plus => "Plus"@,
        TokenKind::LBrace => "LBrace"@,
        TokenKind::RBrace => "RBrace"@,
        TokenKind::LParen => "LParen"@,
        TokenKind::RParen => "RParen"@,
        TokenKind::Error => "Error"@,
    }
}

/// What was expected, in words.
pub open spec fn expected_text(expected: Expected) -> Seq<char> {
    match expected {
        Expected::Item => "item"@,
        Expected::Statement => "statement"@,
        Expected::Expression => "expression"@,
        Expected::Kind(kind) => kind_text(kind),
    }
}

/// A stretch as `start..end`.
pub open spec fn span_text(r: Span) -> Seq<char> {
    decimal(r.start as nat) + ".."@ + decimal(r.end as nat)
}

/// A token as `Kind@start..end`.
pub open spec fn token_text(t: Token) -> Seq<char> {
    kind_text(t.kind) + "@"@ + span_text(t.range)
}

impl TokenKind {
    /// The name of the kind.
    pub fn name(&self) -> (s: &'static str)
        ensures
            s@ == kind_text(*self),
    {
        match self {
            TokenKind::Proc => "Proc",
            TokenKind::Var => "Var",
            TokenKind::SetKw => "Set",
            TokenKind::Loop => "Loop",
            TokenKind::If => "If",
            TokenKind::Else => "Else",
            TokenKind::Break => "Break",
            TokenKind::Continue => "Continue",
            TokenKind::U64 => "U64",
            TokenKind::Ident => "Ident",
            TokenKind::Int => "Int",
            TokenKind::Eq => "Eq",
            TokenKind::Plus => "Plus",
            TokenKind::LBrace => "LBrace",
            TokenKind::RBrace => "RBrace",
            TokenKind::LParen => "LParen",
            TokenKind::RParen => "RParen",
            TokenKind::Error => "Error",
        }
    }
}

impl Expected {
    /// What was expected, in words.
    pub fn describe(&self) -> (s: &'static str)
        ensures
            s@ == expected_text(*self),
    {
        match self {
            Expected::Item => "item",
            Expected::Statement => "statement",
            Expected::Expression => "expression",
            Expected::Kind(kind) => kind.name(),
        }
    }
}

impl Span {
    /// The stretch as `start..end`.
    pub fn render(&self) -> (s: String)
        ensures
            s@ == span_text(*self),
    {
        let mut s = decimal_string(self.start as u64);
        s.append("..");
        s.append(decimal_string(self.end as u64).as_str());
        s
    }
}

impl Token {
    /// The token as `Kind@start..end`.
    pub fn render(&self) -> (s: String)
        ensures
            s@ == token_text(*self),
    {
        let mut s = String::new();
        s.append(self.kind.name());
        s.append("@");
        s.append(self.range.render().as_str());
        assert(s@ =~= token_text(*self));
        s
    }
}

/// The last boundary between characters that is not after `i`.
pub open spec fn boundary_before(bytes: Seq<u8>, i: int) -> int
    decreases i,
{
    if i <= 0 {
        0
    } else if i <= bytes.len() && is_char_boundary(bytes, i) {
        i
    } else {
        boundary_before(bytes, i - 1)
    }
}

/// The first boundary between characters that is not before `i`.
pub open spec fn boundary_after(bytes: Seq<u8>, i: int) -> int
    decreases bytes.len() - i,
{
    if i >= bytes.len() {
        bytes.len() as int
    } else if 0 <= i && is_char_boundary(bytes, i) {
        i
    } else {
        boundary_after(bytes, i + 1)
    }
}

/// Where the text starts that is shown around a stretch: twenty bytes
/// before the stretch, or as many as there are, and then back to where a
/// character starts.
pub open spec fn window_start(bytes: Seq<u8>, r: Span) -> int {
    let start = if r.start <= bytes.len() {
        r.start as int
    } else {
        bytes.len() as int
    };
    boundary_before(bytes, start - 20)
}

/// Where the text ends that is shown around a stretch: twenty bytes after
/// the stretch, or as many as there are, and then on to where a character
/// ends; never before the start of what is shown.
pub open spec fn window_end(bytes: Seq<u8>, r: Span) -> int {
    let end = boundary_after(bytes, r.end + 20);
    if end < window_start(bytes, r) {
        window_start(bytes, r)
    } else {
        end
    }
}

/// The bytes that are shown around a stretch.
pub open spec fn window(bytes: Seq<u8>, r: Span) -> Seq<u8> {
    bytes.subrange(window_start(bytes, r), window_end(bytes, r))
}

/// A boundary between characters of a text is one of each stretch of the
/// text that starts at the start and ends at a boundary not before it.
proof fn lemma_boundary_in_prefix(bytes: Seq<u8>, lo: int, hi: int)
    requires
        valid_utf8(bytes),
        0 <= lo <= hi <= bytes.len(),
        is_char_boundary(bytes, lo),
        is_char_boundary(bytes, hi),
    ensures
        valid_utf8(bytes.subrange(0, hi)),
        is_char_boundary(bytes.subrange(0, hi), lo),
{
    valid_utf8_split(bytes, hi);
    let head = bytes.subrange(0, hi);
    lemma_starts_char(bytes, lo);
    lemma_starts_char(head, lo);
    if lo < hi {
        assert(head[lo] == bytes[lo]);
    }
}

/// The text that is shown around a stretch of the input.
pub fn context(input: &str, range: Span) -> (s: String)
    ensures
        s@ == decode_utf8(window(input.spec_bytes(), range)),
{
    let ghost bytes = input.spec_bytes();
    proof {
        encode_utf8_valid_utf8(input@);
        is_char_boundary_start_end_of_seq(bytes);
    }
    let len = input.as_bytes().len();
    let start = if range.start as usize <= len {
        range.start as usize
    } else {
        len
    };
    let mut lo: usize = if start >= 20 {
        start - 20
    } else {
        0
    };
    while lo > 0 && !input.is_char_boundary(lo)
        invariant
            bytes == input.spec_bytes(),
            valid_utf8(bytes),
            len == bytes.len(),
            0 <= lo <= len,
            boundary_before(bytes, lo as int) == window_start(bytes, range),
        decreases lo,
    {
        lo -= 1;
    }
    assert(lo == window_start(bytes, range));
    assert(is_char_boundary(bytes, lo as int));
    let end = range.end as usize;
    let mut hi: usize = if end > len || len - end < 20 {
        len
    } else {
        end + 20
    };
    let ghost wanted = range.end + 20;
    assert(boundary_after(bytes, hi as int) == boundary_after(bytes, wanted));
    while hi < len && !input.is_char_boundary(hi)
        invariant
            bytes == input.spec_bytes(),
            valid_utf8(bytes),
            len == bytes.len(),
            0 <= hi <= len,
            is_char_boundary(bytes, len as int),
            boundary_after(bytes, hi as int) == boundary_after(bytes, wanted),
        decreases len - hi,
    {
        hi += 1;
    }
    assert(is_char_boundary(bytes, hi as int));
    if hi < lo {
        hi = lo;
    }
    assert(hi == window_end(bytes, range));
    proof {
        lemma_boundary_in_prefix(bytes, lo as int, hi as int);
    }
    let (head, _) = input.split_at(hi);
    let (_, shown) = head.split_at(lo);
    let s = shown.to_owned();
    proof {
        assert(shown.spec_bytes() =~= window(bytes, range));
        encode_utf8_decode_utf8(s@);
    }
    s
}

/// What a syntax error says was expected.
pub open spec fn wanted_text(e: SyntaxError) -> Seq<char> {
    match e {
        SyntaxError::Unexpected { expected, found } => expected_text(expected),
        SyntaxError::UnexpectedEnd { expected } => expected_text(expected),
        SyntaxError::BadNumber { at } => "a number that fits 64 bits"@,
        SyntaxError::BadRange { at } => "a token inside the text"@,
    }
}

/// The token that a syntax error points at, if it points at one.
pub open spec fn blamed(e: SyntaxError) -> Option<Token> {
    match e {
        SyntaxError::Unexpected { expected, found } => Some(found),
        SyntaxError::UnexpectedEnd { expected } => None,
        SyntaxError::BadNumber { at } => Some(at),
        SyntaxError::BadRange { at } => Some(at),
    }
}

/// The message of a syntax error in a text: what was expected, what stands
/// there and where, and on a line of its own the text around it.
pub open spec fn syntax_text(e: SyntaxError, bytes: Seq<u8>) -> Seq<char> {
    let head = "syntax error: expected "@ + wanted_text(e) + ", got "@;
    match blamed(e) {
        Some(t) => head + kind_text(t.kind) + " at "@ + span_text(t.range) + "\n"@ + decode_utf8(
            window(bytes, t.range),
        ),
        None => head + "the end of the text"@,
    }
}

impl SyntaxError {
    /// What the error says was expected.
    pub fn wanted(&self) -> (s: &'static str)
        ensures
            s@ == wanted_text(*self),
    {
        match self {
            SyntaxError::Unexpected { expected, found } => expected.describe(),
            SyntaxError::UnexpectedEnd { expected } => expected.describe(),
            SyntaxError::BadNumber { at } => "a number that fits 64 bits",
            SyntaxError::BadRange { at } => "a token inside the text",
        }
    }

    /// The token that the error points at, if it points at one.
    pub fn token(&self) -> (t: Option<Token>)
        ensures
            t == blamed(*self),
    {
        match self {
            SyntaxError::Unexpected { expected, found } => Some(*found),
            SyntaxError::UnexpectedEnd { expected } => None,
            SyntaxError::BadNumber { at } => Some(*at),
            SyntaxError::BadRange { at } => Some(*at),
        }
    }

    /// The message of the error, for the text that was parsed.
    pub fn message(&self, input: &str) -> (s: String)
        ensures
            s@ == syntax_text(*self, input.spec_bytes()),
    {
        let mut s = String::new();
        s.append("syntax error: expected ");
        s.append(self.wanted());
        s.append(", got ");
        match self.token() {
            Some(t) => {
                s.append(t.kind.name());
                s.append(" at ");
                s.append(t.range.render().as_str());
                s.append("\n");
                s.append(context(input, t.range).as_str());
                assert(s@ =~= syntax_text(*self, input.spec_bytes()));
            },
            None => {
                s.append("the end of the text");
                assert(s@ =~= syntax_text(*self, input.spec_bytes()));
            },
        }
        s
    }
}

/// The message of a fault of lowering.
pub open spec fn fault_text(f: Fault) -> Seq<char> {
    match f {
        Fault::Undefined(name) => "error: undefined variable `"@ + name + "`"@,
        Fault::TypeMismatch => "error: mismatched types"@,
        Fault::BreakOutsideLoop => "error: `break` outside of a loop"@,
        Fault::ContinueOutsideLoop => "error: `continue` outside of a loop"@,
        Fault::OutOfRegisters => "error: the procedure needs too many registers"@,
        Fault::OutOfLabels => "error: the procedure needs too many labels"@,
    }
}

impl LowerError {
    /// The message of the error.
    pub fn message(&self) -> (s: String)
        ensures
            s@ == fault_text(self@),
    {
        let mut s = String::new();
        match self {
            LowerError::UndefinedVariable(name) => {
                s.append("error: undefined variable `");
                s.append(name.as_str());
                s.append("`");
                assert(s@ =~= fault_text(self@));
            },
            LowerError::TypeMismatch => {
                s.append("error: mismatched types");
                assert(s@ =~= fault_text(self@));
            },
            LowerError::BreakOutsideLoop => {
                s.append("error: `break` outside of a loop");
                assert(s@ =~= fault_text(self@));
            },
            LowerError::ContinueOutsideLoop => {
                s.append("error: `continue` outside of a loop");
                assert(s@ =~= fault_text(self@));
            },
            LowerError::OutOfRegisters => {
                s.append("error: the procedure needs too many registers");
                assert(s@ =~= fault_text(self@));
            },
            LowerError::OutOfLabels => {
                s.append("error: the procedure needs too many labels");
                assert(s@ =~= fault_text(self@));
            },
        }
        s
    }
}

} // verus!
