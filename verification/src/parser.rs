//! The parser: from tokens and the text that they were cut from to the
//! syntax tree, or to the first thing that is wrong.

use crate::ast::{Expr, Item, Stmt, Type};
use crate::complete::lemma_programs_are_read;
use crate::grammar::{
    block_size, expr_size, fits, is_number, item_size, items_size, number, past, stmt_size,
    stmts_size, Expected, Source, SyntaxError,
};
use crate::lexer::{Span, Token, TokenKind};
use text_size::{TextRange, TextSize};
use vstd::prelude::*;
use vstd::string::StringSliceAdditionalSpecFns;
use vstd::utf8::encode_utf8;

verus! {

/// The stretch `range` of `input`, as a string of its own.
///
/// This is `text_size`'s indexing of a `str` by a `TextRange`, which is the
/// indexing of the `str` by the byte range from the start of the
/// `TextRange` up to its end. The contract says that the bytes of the
/// result are those bytes of the input. It leaves out the ranges on which
/// making the `TextRange` or indexing the `str` panics: those that end
/// before they start, that reach past the text, or that cut a character.
#[verifier::external_body]
fn slice_text(input: &str, range: Span) -> (s: String)
    requires
        fits(input.spec_bytes(), range),
    ensures
        encode_utf8(s@) == input.spec_bytes().subrange(range.start as int, range.end as int),
{
    input[TextRange::new(TextSize::from(range.start), TextSize::from(range.end))].to_string()
}

/// Whether a stretch lies in the text and cuts no character.
pub fn range_fits(input: &str, range: Span) -> (r: bool)
    ensures
        r == fits(input.spec_bytes(), range),
{
    let len = input.as_bytes().len();
    range.start <= range.end && range.end as usize <= len && input.is_char_boundary(
        range.start as usize,
    ) && input.is_char_boundary(range.end as usize)
}

/// A longer run of digits is no smaller number.
proof fn lemma_number_grows(digits: Seq<u8>, n: int)
    requires
        0 <= n <= digits.len(),
        forall|i: int| 0 <= i < digits.len() ==> 0x30 <= #[trigger] digits[i] <= 0x39,
    ensures
        number(digits.take(n)) <= number(digits),
    decreases digits.len() - n,
{
    if n == digits.len() {
        assert(digits.take(n) =~= digits);
    } else {
        assert(digits.take(n + 1).drop_last() =~= digits.take(n));
        lemma_number_grows(digits, n + 1);
    }
}

/// The value of a run of decimal digits, if it is one and fits 64 bits.
pub fn parse_number(digits: &[u8]) -> (r: Option<u64>)
    ensures
        r == (if is_number(digits@) && number(digits@) <= u64::MAX {
            Some(number(digits@) as u64)
        } else {
            None
        }),
{
    if digits.len() == 0 {
        return None;
    }
    let mut value: u64 = 0;
    let mut i: usize = 0;
    assert(digits@.take(0) =~= Seq::<u8>::empty());
    while i < digits.len()
        invariant
            0 <= i <= digits@.len(),
            digits@.len() > 0,
            forall|j: int| 0 <= j < i ==> 0x30 <= #[trigger] digits@[j] <= 0x39,
            value == number(digits@.take(i as int)),
        decreases digits@.len() - i,
    {
        let b = digits[i];
        if b < 0x30 || b > 0x39 {
            return None;
        }
        let d: u64 = (b - 0x30) as u64;
        proof {
            assert(digits@.take(i + 1).drop_last() =~= digits@.take(i as int));
            assert(digits@.take(i + 1).last() == b);
        }
        if value > (u64::MAX - d) / 10 {
            proof {
                assert(number(digits@.take(i + 1)) > u64::MAX);
                if is_number(digits@) {
                    lemma_number_grows(digits@, i + 1);
                }
            }
            return None;
        }
        value = value * 10 + d;
        i += 1;
    }
    assert(digits@.take(i as int) =~= digits@);
    Some(value)
}

/// A parser at work: the tokens, the position of the next one, and the
/// text that the tokens were cut from.
pub struct Parser<'a> {
    pub tokens: &'a [Token],
    pub cursor: usize,
    pub input: &'a str,
}

impl<'a> Parser<'a> {
    /// What the parser reads.
    pub open spec fn source(&self) -> Source {
        Source { tokens: self.tokens@, bytes: self.input.spec_bytes() }
    }

    /// Whether the position is at a token or at the end.
    pub open spec fn wf(&self) -> bool {
        self.cursor <= self.tokens@.len()
    }

    /// Whether the parser went from `before` to this one by moving on to
    /// position `next` and nothing else.
    pub open spec fn moved(&self, before: &Parser<'a>, next: int) -> bool {
        &&& self.source() == before.source()
        &&& self.cursor == next
        &&& self.wf()
    }

    /// The token at the position, if the tokens have not ended.
    pub fn current(&self) -> (t: Option<Token>)
        ensures
            match t {
                Some(token) => self.cursor < self.tokens@.len() && token
                    == self.tokens@[self.cursor as int],
                None => self.cursor >= self.tokens@.len(),
            },
    {
        if self.cursor < self.tokens.len() {
            Some(self.tokens[self.cursor])
        } else {
            None
        }
    }

    /// Whether the token at the position is of this kind.
    pub fn at(&self, kind: TokenKind) -> (r: bool)
        ensures
            r == self.source().is_at(self.cursor as int, kind),
    {
        match self.current() {
            Some(token) => token.kind == kind,
            None => false,
        }
    }

    /// What is wrong at the position, where `expected` does not stand.
    pub fn error(&self, expected: Expected) -> (e: SyntaxError)
        ensures
            e == self.source().error_at(self.cursor as int, expected),
    {
        match self.current() {
            Some(found) => SyntaxError::Unexpected { expected, found },
            None => SyntaxError::UnexpectedEnd { expected },
        }
    }

    /// Takes a token of this kind and hands out its text.
    pub fn expect(&mut self, kind: TokenKind) -> (res: Result<String, SyntaxError>)
        requires
            old(self).wf(),
        ensures
            final(self).source() == old(self).source(),
            final(self).wf(),
            match res {
                Ok(text) => {
                    &&& old(self).source().expect_end(old(self).cursor as int, kind) == Ok::<
                        int,
                        SyntaxError,
                    >(final(self).cursor as int)
                    &&& final(self).cursor == old(self).cursor + 1
                    &&& encode_utf8(text@) == old(self).source().text(old(self).cursor as int)
                },
                Err(e) => {
                    &&& old(self).source().expect_end(old(self).cursor as int, kind) == Err::<
                        int,
                        SyntaxError,
                    >(e)
                    &&& final(self).cursor == old(self).cursor
                },
            },
    {
        let token = match self.current() {
            Some(t) => t,
            None => {
                return Err(self.error(Expected::Kind(kind)));
            },
        };
        if token.kind != kind {
            return Err(self.error(Expected::Kind(kind)));
        }
        if !range_fits(self.input, token.range) {
            return Err(SyntaxError::BadRange { at: token });
        }
        let len = self.tokens.len();
        self.cursor += 1;
        Ok(slice_text(self.input, token.range))
    }
}

impl<'a> Parser<'a> {
    /// Parses an expression.
    pub fn expr(&mut self) -> (res: Result<Expr, SyntaxError>)
        requires
            old(self).wf(),
        ensures
            final(self).source() == old(self).source(),
            final(self).wf(),
            match res {
                Ok(e) => {
                    &&& old(self).source().expr_end(old(self).cursor as int) == Ok::<
                        int,
                        SyntaxError,
                    >(final(self).cursor as int)
                    &&& old(self).source().expr_at(e, old(self).cursor as int)
                    &&& final(self).cursor == old(self).cursor + expr_size(e)
                },
                Err(err) => old(self).source().expr_end(old(self).cursor as int) == Err::<
                    int,
                    SyntaxError,
                >(err),
            },
        decreases old(self).tokens@.len() - old(self).cursor,
    {
        let ghost src = self.source();
        let ghost c = self.cursor as int;
        let token = match self.current() {
            Some(t) => t,
            None => {
                return Err(self.error(Expected::Expression));
            },
        };
        match token.kind {
            TokenKind::Ident => {
                match self.expect(TokenKind::Ident) {
                    Ok(name) => Ok(Expr::Local(name)),
                    Err(e) => Err(e),
                }
            },
            TokenKind::Int => {
                let text = match self.expect(TokenKind::Int) {
                    Ok(t) => t,
                    Err(e) => {
                        return Err(e);
                    },
                };
                match parse_number(text.as_str().as_bytes()) {
                    Some(value) => Ok(Expr::Int(value)),
                    None => Err(SyntaxError::BadNumber { at: token }),
                }
            },
            TokenKind::Plus => {
                match self.expect(TokenKind::Plus) {
                    Ok(_) => {},
                    Err(e) => {
                        return Err(e);
                    },
                }
                let lhs = match self.expr() {
                    Ok(e) => e,
                    Err(e) => {
                        return Err(e);
                    },
                };
                let rhs = match self.expr() {
                    Ok(e) => e,
                    Err(e) => {
                        return Err(e);
                    },
                };
                Ok(Expr::Add(Box::new(lhs), Box::new(rhs)))
            },
            TokenKind::Eq => {
                match self.expect(TokenKind::Eq) {
                    Ok(_) => {},
                    Err(e) => {
                        return Err(e);
                    },
                }
                let lhs = match self.expr() {
                    Ok(e) => e,
                    Err(e) => {
                        return Err(e);
                    },
                };
                let rhs = match self.expr() {
                    Ok(e) => e,
                    Err(e) => {
                        return Err(e);
                    },
                };
                Ok(Expr::Equal(Box::new(lhs), Box::new(rhs)))
            },
            _ => Err(self.error(Expected::Expression)),
        }
    }
}

impl<'a> Parser<'a> {
    /// Parses `var IDENT u64 = expr`.
    pub fn local_def(&mut self) -> (res: Result<Stmt, SyntaxError>)
        requires
            old(self).wf(),
        ensures
            final(self).source() == old(self).source(),
            final(self).wf(),
            match res {
                Ok(s) => {
                    &&& old(self).source().local_def_end(old(self).cursor as int) == Ok::<
                        int,
                        SyntaxError,
                    >(final(self).cursor as int)
                    &&& old(self).source().stmt_at(s, old(self).cursor as int)
                    &&& final(self).cursor == old(self).cursor + stmt_size(s)
                },
                Err(err) => old(self).source().local_def_end(old(self).cursor as int) == Err::<
                    int,
                    SyntaxError,
                >(err),
            },
            res matches Ok(s) ==> s is LocalDef,
    {
        proof {
            reveal_with_fuel(Source::row_end, 5);
        }
        match self.expect(TokenKind::Var) {
            Ok(_) => {},
            Err(e) => {
                return Err(e);
            },
        }
        let name = match self.expect(TokenKind::Ident) {
            Ok(n) => n,
            Err(e) => {
                return Err(e);
            },
        };
        match self.expect(TokenKind::U64) {
            Ok(_) => {},
            Err(e) => {
                return Err(e);
            },
        }
        match self.expect(TokenKind::Eq) {
            Ok(_) => {},
            Err(e) => {
                return Err(e);
            },
        }
        match self.expr() {
            Ok(value) => Ok(Stmt::LocalDef { name, value, ty: Type::U64 }),
            Err(e) => Err(e),
        }
    }

    /// Parses `set IDENT = expr`.
    pub fn local_set(&mut self) -> (res: Result<Stmt, SyntaxError>)
        requires
            old(self).wf(),
        ensures
            final(self).source() == old(self).source(),
            final(self).wf(),
            match res {
                Ok(s) => {
                    &&& old(self).source().local_set_end(old(self).cursor as int) == Ok::<
                        int,
                        SyntaxError,
                    >(final(self).cursor as int)
                    &&& old(self).source().stmt_at(s, old(self).cursor as int)
                    &&& final(self).cursor == old(self).cursor + stmt_size(s)
                },
                Err(err) => old(self).source().local_set_end(old(self).cursor as int) == Err::<
                    int,
                    SyntaxError,
                >(err),
            },
            res matches Ok(s) ==> s is LocalSet,
    {
        proof {
            reveal_with_fuel(Source::row_end, 4);
        }
        match self.expect(TokenKind::SetKw) {
            Ok(_) => {},
            Err(e) => {
                return Err(e);
            },
        }
        let name = match self.expect(TokenKind::Ident) {
            Ok(n) => n,
            Err(e) => {
                return Err(e);
            },
        };
        match self.expect(TokenKind::Eq) {
            Ok(_) => {},
            Err(e) => {
                return Err(e);
            },
        }
        match self.expr() {
            Ok(new_value) => Ok(Stmt::LocalSet { name, new_value }),
            Err(e) => Err(e),
        }
    }

    /// Parses `loop block`.
    pub fn loop_(&mut self) -> (res: Result<Stmt, SyntaxError>)
        requires
            old(self).wf(),
        ensures
            final(self).source() == old(self).source(),
            final(self).wf(),
            match res {
                Ok(s) => {
                    &&& old(self).source().loop_end(old(self).cursor as int) == Ok::<
                        int,
                        SyntaxError,
                    >(final(self).cursor as int)
                    &&& old(self).source().stmt_at(s, old(self).cursor as int)
                    &&& final(self).cursor == old(self).cursor + stmt_size(s)
                },
                Err(err) => old(self).source().loop_end(old(self).cursor as int) == Err::<
                    int,
                    SyntaxError,
                >(err),
            },
            res matches Ok(s) ==> s is Loop,
        decreases old(self).tokens@.len() - old(self).cursor, 0int,
    {
        match self.expect(TokenKind::Loop) {
            Ok(_) => {},
            Err(e) => {
                return Err(e);
            },
        }
        match self.block() {
            Ok(stmts) => Ok(Stmt::Loop { stmts }),
            Err(e) => Err(e),
        }
    }

    /// Parses `if expr block else block`.
    pub fn if_(&mut self) -> (res: Result<Stmt, SyntaxError>)
        requires
            old(self).wf(),
        ensures
            final(self).source() == old(self).source(),
            final(self).wf(),
            match res {
                Ok(s) => {
                    &&& old(self).source().if_end(old(self).cursor as int) == Ok::<
                        int,
                        SyntaxError,
                    >(final(self).cursor as int)
                    &&& old(self).source().stmt_at(s, old(self).cursor as int)
                    &&& final(self).cursor == old(self).cursor + stmt_size(s)
                },
                Err(err) => old(self).source().if_end(old(self).cursor as int) == Err::<
                    int,
                    SyntaxError,
                >(err),
            },
            res matches Ok(s) ==> s is If,
        decreases old(self).tokens@.len() - old(self).cursor, 0int,
    {
        match self.expect(TokenKind::If) {
            Ok(_) => {},
            Err(e) => {
                return Err(e);
            },
        }
        let condition = match self.expr() {
            Ok(e) => e,
            Err(e) => {
                return Err(e);
            },
        };
        let true_branch = match self.block() {
            Ok(b) => b,
            Err(e) => {
                return Err(e);
            },
        };
        match self.expect(TokenKind::Else) {
            Ok(_) => {},
            Err(e) => {
                return Err(e);
            },
        }
        let false_branch = match self.block() {
            Ok(b) => b,
            Err(e) => {
                return Err(e);
            },
        };
        Ok(Stmt::If { condition, true_branch, false_branch })
    }

    /// Parses `break`.
    pub fn break_(&mut self) -> (res: Result<Stmt, SyntaxError>)
        requires
            old(self).wf(),
        ensures
            final(self).source() == old(self).source(),
            final(self).wf(),
            match res {
                Ok(s) => {
                    &&& old(self).source().expect_end(old(self).cursor as int, TokenKind::Break)
                        == Ok::<int, SyntaxError>(final(self).cursor as int)
                    &&& s is Break
                },
                Err(err) => old(self).source().expect_end(
                    old(self).cursor as int,
                    TokenKind::Break,
                ) == Err::<int, SyntaxError>(err),
            },
    {
        match self.expect(TokenKind::Break) {
            Ok(_) => Ok(Stmt::Break),
            Err(e) => Err(e),
        }
    }

    /// Parses `continue`.
    pub fn continue_(&mut self) -> (res: Result<Stmt, SyntaxError>)
        requires
            old(self).wf(),
        ensures
            final(self).source() == old(self).source(),
            final(self).wf(),
            match res {
                Ok(s) => {
                    &&& old(self).source().expect_end(
                        old(self).cursor as int,
                        TokenKind::Continue,
                    ) == Ok::<int, SyntaxError>(final(self).cursor as int)
                    &&& s is Continue
                },
                Err(err) => old(self).source().expect_end(
                    old(self).cursor as int,
                    TokenKind::Continue,
                ) == Err::<int, SyntaxError>(err),
            },
    {
        match self.expect(TokenKind::Continue) {
            Ok(_) => Ok(Stmt::Continue),
            Err(e) => Err(e),
        }
    }

    /// Parses a statement.
    pub fn stmt(&mut self) -> (res: Result<Stmt, SyntaxError>)
        requires
            old(self).wf(),
        ensures
            final(self).source() == old(self).source(),
            final(self).wf(),
            match res {
                Ok(s) => {
                    &&& old(self).source().stmt_end(old(self).cursor as int) == Ok::<
                        int,
                        SyntaxError,
                    >(final(self).cursor as int)
                    &&& old(self).source().stmt_at(s, old(self).cursor as int)
                    &&& final(self).cursor == old(self).cursor + stmt_size(s)
                },
                Err(err) => old(self).source().stmt_end(old(self).cursor as int) == Err::<
                    int,
                    SyntaxError,
                >(err),
            },
        decreases old(self).tokens@.len() - old(self).cursor, 1int,
    {
        let token = match self.current() {
            Some(t) => t,
            None => {
                return Err(self.error(Expected::Statement));
            },
        };
        match token.kind {
            TokenKind::Var => self.local_def(),
            TokenKind::SetKw => self.local_set(),
            TokenKind::Loop => self.loop_(),
            TokenKind::If => self.if_(),
            TokenKind::Break => self.break_(),
            TokenKind::Continue => self.continue_(),
            _ => Err(self.error(Expected::Statement)),
        }
    }

    /// Parses a block: statements between braces.
    pub fn block(&mut self) -> (res: Result<Vec<Stmt>, SyntaxError>)
        requires
            old(self).wf(),
        ensures
            final(self).source() == old(self).source(),
            final(self).wf(),
            match res {
                Ok(stmts) => {
                    &&& old(self).source().block_end(old(self).cursor as int) == Ok::<
                        int,
                        SyntaxError,
                    >(final(self).cursor as int)
                    &&& old(self).source().block_at(stmts@, old(self).cursor as int)
                    &&& final(self).cursor == old(self).cursor + block_size(stmts@)
                },
                Err(err) => old(self).source().block_end(old(self).cursor as int) == Err::<
                    int,
                    SyntaxError,
                >(err),
            },
        decreases old(self).tokens@.len() - old(self).cursor, 3int,
    {
        let ghost src = self.source();
        let ghost c = self.cursor as int;
        let mut stmts: Vec<Stmt> = Vec::new();
        match self.expect(TokenKind::LBrace) {
            Ok(_) => {},
            Err(e) => {
                return Err(e);
            },
        }
        while !self.at(TokenKind::RBrace)
            invariant
                src == old(self).source(),
                c == old(self).cursor,
                self.source() == src,
                self.wf(),
                c + 1 <= self.cursor,
                c < src.tokens.len(),
                src.is_at(c, TokenKind::LBrace),
                src.expect_end(c, TokenKind::LBrace) is Ok,
                src.stmts_end(c + 1) == src.stmts_end(self.cursor as int),
                src.stmts_at(stmts@, c + 1),
                self.cursor == c + 1 + stmts_size(stmts@),
            decreases src.tokens.len() - self.cursor,
        {
            let ghost before = stmts@;
            let ghost at = self.cursor as int;
            let stmt = match self.stmt() {
                Ok(s) => s,
                Err(e) => {
                    return Err(e);
                },
            };
            stmts.push(stmt);
            proof {
                assert(stmts@.drop_last() =~= before);
                assert(past(at, self.cursor as int) == self.cursor);
            }
        }
        match self.expect(TokenKind::RBrace) {
            Ok(_) => Ok(stmts),
            Err(e) => Err(e),
        }
    }

    /// Parses `proc IDENT ( ) block`.
    pub fn proc(&mut self) -> (res: Result<Item, SyntaxError>)
        requires
            old(self).wf(),
        ensures
            final(self).source() == old(self).source(),
            final(self).wf(),
            match res {
                Ok(item) => {
                    &&& old(self).source().proc_end(old(self).cursor as int) == Ok::<
                        int,
                        SyntaxError,
                    >(final(self).cursor as int)
                    &&& old(self).source().item_at(item, old(self).cursor as int)
                    &&& final(self).cursor == old(self).cursor + item_size(item)
                },
                Err(err) => old(self).source().proc_end(old(self).cursor as int) == Err::<
                    int,
                    SyntaxError,
                >(err),
            },
    {
        proof {
            reveal_with_fuel(Source::row_end, 5);
        }
        match self.expect(TokenKind::Proc) {
            Ok(_) => {},
            Err(e) => {
                return Err(e);
            },
        }
        let name = match self.expect(TokenKind::Ident) {
            Ok(n) => n,
            Err(e) => {
                return Err(e);
            },
        };
        match self.expect(TokenKind::LParen) {
            Ok(_) => {},
            Err(e) => {
                return Err(e);
            },
        }
        match self.expect(TokenKind::RParen) {
            Ok(_) => {},
            Err(e) => {
                return Err(e);
            },
        }
        match self.block() {
            Ok(body) => Ok(Item::Proc { name, body }),
            Err(e) => Err(e),
        }
    }

    /// Parses an item.
    pub fn item(&mut self) -> (res: Result<Item, SyntaxError>)
        requires
            old(self).wf(),
        ensures
            final(self).source() == old(self).source(),
            final(self).wf(),
            match res {
                Ok(item) => {
                    &&& old(self).source().item_end(old(self).cursor as int) == Ok::<
                        int,
                        SyntaxError,
                    >(final(self).cursor as int)
                    &&& old(self).source().item_at(item, old(self).cursor as int)
                    &&& final(self).cursor == old(self).cursor + item_size(item)
                },
                Err(err) => old(self).source().item_end(old(self).cursor as int) == Err::<
                    int,
                    SyntaxError,
                >(err),
            },
    {
        if self.at(TokenKind::Proc) {
            self.proc()
        } else {
            Err(self.error(Expected::Item))
        }
    }

    /// Parses items up to the end of the tokens.
    pub fn parse(&mut self) -> (res: Result<Vec<Item>, SyntaxError>)
        requires
            old(self).wf(),
        ensures
            final(self).source() == old(self).source(),
            final(self).wf(),
            match res {
                Ok(items) => {
                    &&& old(self).source().items_end(old(self).cursor as int) is Ok
                    &&& old(self).source().items_at(items@, old(self).cursor as int)
                    &&& final(self).cursor == old(self).cursor + items_size(items@)
                    &&& final(self).cursor == final(self).tokens@.len()
                },
                Err(err) => old(self).source().items_end(old(self).cursor as int) == Err::<
                    int,
                    SyntaxError,
                >(err),
            },
    {
        let ghost src = self.source();
        let ghost c = self.cursor as int;
        let mut items: Vec<Item> = Vec::new();
        while self.cursor < self.tokens.len()
            invariant
                src == old(self).source(),
                c == old(self).cursor,
                self.source() == src,
                self.wf(),
                c <= self.cursor,
                src.items_end(c) == src.items_end(self.cursor as int),
                src.items_at(items@, c),
                self.cursor == c + items_size(items@),
            decreases src.tokens.len() - self.cursor,
        {
            let ghost before = items@;
            let ghost at = self.cursor as int;
            let item = match self.item() {
                Ok(i) => i,
                Err(e) => {
                    return Err(e);
                },
            };
            items.push(item);
            proof {
                assert(items@.drop_last() =~= before);
                assert(past(at, self.cursor as int) == self.cursor);
            }
        }
        Ok(items)
    }
}

/// What `parse` reads.
pub open spec fn source_of(tokens: &[Token], input: &str) -> Source {
    Source { tokens: tokens@, bytes: input.spec_bytes() }
}

/// Parses the tokens of a source text into its items.
///
/// The items that come out are what stands from the first token to the
/// last. Where the tokens lie in the text, parsing succeeds whenever there
/// are such items. Where it fails, the error is the first thing that is
/// wrong on the way through the tokens.
pub fn parse(tokens: &[Token], input: &str) -> (res: Result<Vec<Item>, SyntaxError>)
    ensures
        match res {
            Ok(items) => {
                &&& source_of(tokens, input).items_end(0) is Ok
                &&& source_of(tokens, input).items_at(items@, 0)
                &&& items_size(items@) == tokens@.len()
            },
            Err(err) => source_of(tokens, input).items_end(0) == Err::<int, SyntaxError>(err),
        },
        forall|items: Seq<Item>|
            source_of(tokens, input).all_fit() && #[trigger] source_of(tokens, input).items_at(
                items,
                0,
            ) && items_size(items) == tokens@.len() ==> res is Ok,
{
    let mut parser = Parser { tokens, cursor: 0, input };
    let res = parser.parse();
    proof {
        let src = source_of(tokens, input);
        assert forall|items: Seq<Item>|
            src.all_fit() && #[trigger] src.items_at(items, 0) && items_size(items)
                == tokens@.len() implies res is Ok by {
            lemma_programs_are_read(src, items);
        }
    }
    res
}

} // verus!
