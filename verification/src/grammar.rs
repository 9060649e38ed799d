//! The grammar of the language, over tokens:
//!
//! ```text
//! item  := 'proc' IDENT '(' ')' block
//! block := '{' stmt* '}'
//! stmt  := 'var' IDENT 'u64' '=' expr | 'set' IDENT '=' expr | 'loop' block
//!        | 'if' expr block 'else' block | 'break' | 'continue'
//! expr  := IDENT | INT | '+' expr expr | '=' expr expr
//! ```
//!
//! It is stated twice. The functions whose names end in `_end` read tokens
//! from a position on and say where a construct ends, or what is wrong and
//! where. The functions whose names end in `_at` take a syntax tree and say
//! whether it is what stands at a position.

use crate::ast::{Expr, Item, Stmt};
use crate::lexer::{Span, Token, TokenKind};
use vstd::prelude::*;
use vstd::utf8::{encode_utf8, is_char_boundary};

verus! {

/// What the parser looks for at a position.
#[derive(Debug, Clone, Copy, PartialEq, Eq, Structural)]
pub enum Expected {
    Item,
    Statement,
    Expression,
    Kind(TokenKind),
}

/// Why a token sequence is no program.
#[derive(Debug, Clone, Copy, PartialEq, Eq, Structural)]
pub enum SyntaxError {
    /// Another token stands where something was expected.
    Unexpected { expected: Expected, found: Token },
    /// The tokens end where something was expected.
    UnexpectedEnd { expected: Expected },
    /// A number does not fit 64 bits, or is not made of digits.
    BadNumber { at: Token },
    /// A token does not lie in the text, or cuts a character.
    BadRange { at: Token },
}

/// What a parser reads: the tokens, and the bytes of the text that they
/// were cut from.
pub struct Source {
    pub tokens: Seq<Token>,
    pub bytes: Seq<u8>,
}

/// Whether a stretch lies in the text and cuts no character.
pub open spec fn fits(bytes: Seq<u8>, r: Span) -> bool {
    &&& r.start <= r.end <= bytes.len()
    &&& is_char_boundary(bytes, r.start as int)
    &&& is_char_boundary(bytes, r.end as int)
}

/// The value of a run of decimal digits.
pub open spec fn number(digits: Seq<u8>) -> nat
    decreases digits.len(),
{
    if digits.len() == 0 {
        0
    } else {
        number(digits.drop_last()) * 10 + (digits.last() - 0x30) as nat
    }
}

/// Whether the bytes are decimal digits, and at least one.
pub open spec fn is_number(digits: Seq<u8>) -> bool {
    digits.len() > 0 && forall|i: int| 0 <= i < digits.len() ==> 0x30 <= #[trigger] digits[i] <= 0x39
}

/// A position that is past `c`. Where `m` is the end of a construct that
/// starts at `c` or later, this is `m`: a construct ends after its start.
/// Reading goes on from such a position, so that it comes to an end.
pub open spec fn past(c: int, m: int) -> int {
    if m > c {
        m
    } else {
        c + 1
    }
}

impl Source {
    /// The number of tokens from position `c` on.
    pub open spec fn left(self, c: int) -> nat {
        if c < self.tokens.len() {
            (self.tokens.len() - c) as nat
        } else {
            0
        }
    }

    /// The bytes of the token at position `c`.
    pub open spec fn text(self, c: int) -> Seq<u8> {
        self.bytes.subrange(self.tokens[c].range.start as int, self.tokens[c].range.end as int)
    }

    /// Whether the token at position `c` is of this kind.
    pub open spec fn is_at(self, c: int, kind: TokenKind) -> bool {
        0 <= c < self.tokens.len() && self.tokens[c].kind == kind
    }

    /// What is wrong at position `c`, where `expected` does not stand.
    pub open spec fn error_at(self, c: int, expected: Expected) -> SyntaxError {
        if 0 <= c < self.tokens.len() {
            SyntaxError::Unexpected { expected, found: self.tokens[c] }
        } else {
            SyntaxError::UnexpectedEnd { expected }
        }
    }

    /// Where a token of this kind ends that stands at `c`.
    pub open spec fn expect_end(self, c: int, kind: TokenKind) -> Result<int, SyntaxError> {
        if !self.is_at(c, kind) {
            Err(self.error_at(c, Expected::Kind(kind)))
        } else if !fits(self.bytes, self.tokens[c].range) {
            Err(SyntaxError::BadRange { at: self.tokens[c] })
        } else {
            Ok(c + 1)
        }
    }

    /// Where the number ends that stands at `c`.
    pub open spec fn number_end(self, c: int) -> Result<int, SyntaxError> {
        match self.expect_end(c, TokenKind::Int) {
            Err(e) => Err(e),
            Ok(m) => if is_number(self.text(c)) && number(self.text(c)) <= u64::MAX {
                Ok(m)
            } else {
                Err(SyntaxError::BadNumber { at: self.tokens[c] })
            },
        }
    }

    /// Where the expression ends that starts at `c`.
    pub open spec fn expr_end(self, c: int) -> Result<int, SyntaxError>
        decreases self.left(c),
    {
        if 0 <= c < self.tokens.len() {
            match self.tokens[c].kind {
                TokenKind::Ident => self.expect_end(c, TokenKind::Ident),
                TokenKind::Int => self.number_end(c),
                TokenKind::Plus => match self.expect_end(c, TokenKind::Plus) {
                    Err(e) => Err(e),
                    Ok(_) => match self.expr_end(c + 1) {
                        Err(e) => Err(e),
                        Ok(m) => self.expr_end(past(c, m)),
                    },
                },
                TokenKind::Eq => match self.expect_end(c, TokenKind::Eq) {
                    Err(e) => Err(e),
                    Ok(_) => match self.expr_end(c + 1) {
                        Err(e) => Err(e),
                        Ok(m) => self.expr_end(past(c, m)),
                    },
                },
                _ => Err(self.error_at(c, Expected::Expression)),
            }
        } else {
            Err(self.error_at(c, Expected::Expression))
        }
    }

    /// Where tokens of these kinds end that stand in a row from `c` on.
    pub open spec fn row_end(self, c: int, kinds: Seq<TokenKind>) -> Result<int, SyntaxError>
        decreases kinds.len(),
    {
        if kinds.len() == 0 {
            Ok(c)
        } else {
            match self.expect_end(c, kinds[0]) {
                Err(e) => Err(e),
                Ok(m) => self.row_end(m, kinds.drop_first()),
            }
        }
    }

    /// Where `var IDENT u64 = expr` ends that starts at `c`.
    pub open spec fn local_def_end(self, c: int) -> Result<int, SyntaxError> {
        match self.row_end(
            c,
            seq![TokenKind::Var, TokenKind::Ident, TokenKind::U64, TokenKind::Eq],
        ) {
            Err(e) => Err(e),
            Ok(m) => self.expr_end(m),
        }
    }

    /// Where `set IDENT = expr` ends that starts at `c`.
    pub open spec fn local_set_end(self, c: int) -> Result<int, SyntaxError> {
        match self.row_end(c, seq![TokenKind::SetKw, TokenKind::Ident, TokenKind::Eq]) {
            Err(e) => Err(e),
            Ok(m) => self.expr_end(m),
        }
    }

    /// Where `loop block` ends that starts at `c`.
    pub open spec fn loop_end(self, c: int) -> Result<int, SyntaxError>
        decreases self.left(c), 0int,
    {
        match self.expect_end(c, TokenKind::Loop) {
            Err(e) => Err(e),
            Ok(_) => self.block_end(c + 1),
        }
    }

    /// Where `if expr block else block` ends that starts at `c`.
    pub open spec fn if_end(self, c: int) -> Result<int, SyntaxError>
        decreases self.left(c), 0int,
    {
        match self.expect_end(c, TokenKind::If) {
            Err(e) => Err(e),
            Ok(_) => match self.expr_end(c + 1) {
                Err(e) => Err(e),
                Ok(m1) => match self.block_end(past(c, m1)) {
                    Err(e) => Err(e),
                    Ok(m2) => match self.expect_end(m2, TokenKind::Else) {
                        Err(e) => Err(e),
                        Ok(_) => self.block_end(past(c, m2) + 1),
                    },
                },
            },
        }
    }

    /// Where the statement ends that starts at `c`.
    pub open spec fn stmt_end(self, c: int) -> Result<int, SyntaxError>
        decreases self.left(c), 1int,
    {
        if 0 <= c < self.tokens.len() {
            match self.tokens[c].kind {
                TokenKind::Var => self.local_def_end(c),
                TokenKind::SetKw => self.local_set_end(c),
                TokenKind::Loop => self.loop_end(c),
                TokenKind::If => self.if_end(c),
                TokenKind::Break => self.expect_end(c, TokenKind::Break),
                TokenKind::Continue => self.expect_end(c, TokenKind::Continue),
                _ => Err(self.error_at(c, Expected::Statement)),
            }
        } else {
            Err(self.error_at(c, Expected::Statement))
        }
    }

    /// Where the block ends whose statements start at `c`: after the
    /// closing brace.
    pub open spec fn stmts_end(self, c: int) -> Result<int, SyntaxError>
        decreases self.left(c), 2int,
    {
        if self.is_at(c, TokenKind::RBrace) {
            self.expect_end(c, TokenKind::RBrace)
        } else if 0 <= c < self.tokens.len() {
            match self.stmt_end(c) {
                Err(e) => Err(e),
                Ok(m) => self.stmts_end(past(c, m)),
            }
        } else {
            Err(self.error_at(c, Expected::Statement))
        }
    }

    /// Where the block ends that starts at `c`.
    pub open spec fn block_end(self, c: int) -> Result<int, SyntaxError>
        decreases self.left(c), 3int,
    {
        match self.expect_end(c, TokenKind::LBrace) {
            Err(e) => Err(e),
            Ok(_) => self.stmts_end(c + 1),
        }
    }

    /// Where `proc IDENT ( ) block` ends that starts at `c`.
    pub open spec fn proc_end(self, c: int) -> Result<int, SyntaxError> {
        match self.row_end(
            c,
            seq![TokenKind::Proc, TokenKind::Ident, TokenKind::LParen, TokenKind::RParen],
        ) {
            Err(e) => Err(e),
            Ok(m) => self.block_end(m),
        }
    }

    /// Where the item ends that starts at `c`.
    pub open spec fn item_end(self, c: int) -> Result<int, SyntaxError> {
        if self.is_at(c, TokenKind::Proc) {
            self.proc_end(c)
        } else {
            Err(self.error_at(c, Expected::Item))
        }
    }

    /// Whether items stand in a row from `c` to the end of the tokens, or
    /// else what is wrong.
    pub open spec fn items_end(self, c: int) -> Result<int, SyntaxError>
        decreases self.left(c),
    {
        if 0 <= c < self.tokens.len() {
            match self.item_end(c) {
                Err(e) => Err(e),
                Ok(m) => self.items_end(past(c, m)),
            }
        } else {
            Ok(c)
        }
    }
}

/// The number of tokens of an expression.
pub open spec fn expr_size(e: Expr) -> nat
    decreases e,
{
    match e {
        Expr::Local(_) => 1,
        Expr::Int(_) => 1,
        Expr::Add(l, r) => 1 + expr_size(*l) + expr_size(*r),
        Expr::Equal(l, r) => 1 + expr_size(*l) + expr_size(*r),
    }
}

/// The number of tokens of a statement.
pub open spec fn stmt_size(s: Stmt) -> nat
    decreases s, 0int,
{
    match s {
        Stmt::LocalDef { name, value, ty } => 4 + expr_size(value),
        Stmt::LocalSet { name, new_value } => 3 + expr_size(new_value),
        Stmt::Loop { stmts } => 1 + block_size(stmts@),
        Stmt::If { condition, true_branch, false_branch } => 2 + expr_size(condition)
            + block_size(true_branch@) + block_size(false_branch@),
        Stmt::Break => 1,
        Stmt::Continue => 1,
    }
}

/// The number of tokens of statements in a row.
pub open spec fn stmts_size(ss: Seq<Stmt>) -> nat
    decreases ss, 1int,
{
    if ss.len() == 0 {
        0
    } else {
        stmts_size(ss.drop_last()) + stmt_size(ss.last())
    }
}

/// The number of tokens of a block: its statements and two braces.
pub open spec fn block_size(ss: Seq<Stmt>) -> nat
    decreases ss, 2int,
{
    stmts_size(ss) + 2
}

/// The number of tokens of an item.
pub open spec fn item_size(item: Item) -> nat {
    match item {
        Item::Proc { name, body } => 4 + block_size(body@),
    }
}

/// The number of tokens of items in a row.
pub open spec fn items_size(items: Seq<Item>) -> nat
    decreases items.len(),
{
    if items.len() == 0 {
        0
    } else {
        items_size(items.drop_last()) + item_size(items.last())
    }
}

impl Source {
    /// Whether the token at `c` is an identifier that spells `name`.
    pub open spec fn names(self, c: int, name: Seq<char>) -> bool {
        self.is_at(c, TokenKind::Ident) && encode_utf8(name) == self.text(c)
    }

    /// Whether the expression is what stands at `c`.
    pub open spec fn expr_at(self, e: Expr, c: int) -> bool
        decreases e,
    {
        match e {
            Expr::Local(name) => self.names(c, name@),
            Expr::Int(k) => self.is_at(c, TokenKind::Int) && is_number(self.text(c)) && number(
                self.text(c),
            ) == k,
            Expr::Add(l, r) => self.is_at(c, TokenKind::Plus) && self.expr_at(*l, c + 1)
                && self.expr_at(*r, c + 1 + expr_size(*l)),
            Expr::Equal(l, r) => self.is_at(c, TokenKind::Eq) && self.expr_at(*l, c + 1)
                && self.expr_at(*r, c + 1 + expr_size(*l)),
        }
    }

    /// Whether the statement is what stands at `c`.
    pub open spec fn stmt_at(self, s: Stmt, c: int) -> bool
        decreases s, 0int,
    {
        match s {
            Stmt::LocalDef { name, value, ty } => {
                &&& self.is_at(c, TokenKind::Var)
                &&& self.names(c + 1, name@)
                &&& self.is_at(c + 2, TokenKind::U64)
                &&& self.is_at(c + 3, TokenKind::Eq)
                &&& self.expr_at(value, c + 4)
            },
            Stmt::LocalSet { name, new_value } => {
                &&& self.is_at(c, TokenKind::SetKw)
                &&& self.names(c + 1, name@)
                &&& self.is_at(c + 2, TokenKind::Eq)
                &&& self.expr_at(new_value, c + 3)
            },
            Stmt::Loop { stmts } => self.is_at(c, TokenKind::Loop) && self.block_at(stmts@, c + 1),
            Stmt::If { condition, true_branch, false_branch } => {
                let yes = c + 1 + expr_size(condition);
                let no = yes + block_size(true_branch@) + 1;
                &&& self.is_at(c, TokenKind::If)
                &&& self.expr_at(condition, c + 1)
                &&& self.block_at(true_branch@, yes)
                &&& self.is_at(no - 1, TokenKind::Else)
                &&& self.block_at(false_branch@, no)
            },
            Stmt::Break => self.is_at(c, TokenKind::Break),
            Stmt::Continue => self.is_at(c, TokenKind::Continue),
        }
    }

    /// Whether the statements are what stands in a row from `c` on.
    pub open spec fn stmts_at(self, ss: Seq<Stmt>, c: int) -> bool
        decreases ss, 1int,
    {
        if ss.len() == 0 {
            true
        } else {
            self.stmts_at(ss.drop_last(), c) && self.stmt_at(
                ss.last(),
                c + stmts_size(ss.drop_last()),
            )
        }
    }

    /// Whether the block of these statements is what stands at `c`.
    pub open spec fn block_at(self, ss: Seq<Stmt>, c: int) -> bool
        decreases ss, 2int,
    {
        &&& self.is_at(c, TokenKind::LBrace)
        &&& self.stmts_at(ss, c + 1)
        &&& self.is_at(c + 1 + stmts_size(ss), TokenKind::RBrace)
    }

    /// Whether the item is what stands at `c`.
    pub open spec fn item_at(self, item: Item, c: int) -> bool {
        match item {
            Item::Proc { name, body } => {
                &&& self.is_at(c, TokenKind::Proc)
                &&& self.names(c + 1, name@)
                &&& self.is_at(c + 2, TokenKind::LParen)
                &&& self.is_at(c + 3, TokenKind::RParen)
                &&& self.block_at(body@, c + 4)
            },
        }
    }

    /// Whether the items are what stands in a row from `c` on.
    pub open spec fn items_at(self, items: Seq<Item>, c: int) -> bool
        decreases items.len(),
    {
        if items.len() == 0 {
            true
        } else {
            self.items_at(items.drop_last(), c) && self.item_at(
                items.last(),
                c + items_size(items.drop_last()),
            )
        }
    }
}

} // verus!
