//! The two statements of the grammar agree: where a syntax tree stands,
//! reading the tokens finds a construct that ends where the tree ends.
//! Besides, what is read ends after its start, and tokens that lie in the
//! text are never refused for their place in it.

use crate::ast::{Expr, Item, Stmt};
use crate::grammar::{
    block_size, expr_size, fits, item_size, items_size, past, stmt_size, stmts_size, Source,
    SyntaxError,
};
use crate::lexer::TokenKind;
use vstd::prelude::*;

verus! {

impl Source {
    /// Whether every token lies in the text and cuts no character.
    pub open spec fn all_fit(self) -> bool {
        forall|i: int| 0 <= i < self.tokens.len() ==> fits(self.bytes, (#[trigger] self.tokens[i]).range)
    }
}

/// Every expression has a token.
pub proof fn lemma_expr_size(e: Expr)
    ensures
        expr_size(e) >= 1,
    decreases e,
{
    match e {
        Expr::Add(l, r) => {
            lemma_expr_size(*l);
        },
        Expr::Equal(l, r) => {
            lemma_expr_size(*l);
        },
        _ => {},
    }
}

/// Where an expression stands, an expression is read, and it ends where
/// the expression ends.
pub proof fn lemma_expr_read(src: Source, e: Expr, c: int)
    requires
        src.all_fit(),
        src.expr_at(e, c),
    ensures
        src.expr_end(c) == Ok::<int, SyntaxError>(c + expr_size(e)),
    decreases e,
{
    match e {
        Expr::Local(name) => {},
        Expr::Int(k) => {},
        Expr::Add(l, r) => {
            lemma_expr_size(*l);
            lemma_expr_read(src, *l, c + 1);
            lemma_expr_read(src, *r, c + 1 + expr_size(*l));
        },
        Expr::Equal(l, r) => {
            lemma_expr_size(*l);
            lemma_expr_read(src, *l, c + 1);
            lemma_expr_read(src, *r, c + 1 + expr_size(*l));
        },
    }
}

/// The first of statements in a row stands where they start, and the
/// others after it.
pub proof fn lemma_stmts_front(src: Source, ss: Seq<Stmt>, c: int)
    requires
        ss.len() > 0,
    ensures
        stmts_size(ss) == stmt_size(ss[0]) + stmts_size(ss.drop_first()),
        src.stmts_at(ss, c) <==> src.stmt_at(ss[0], c) && src.stmts_at(
            ss.drop_first(),
            c + stmt_size(ss[0]),
        ),
    decreases ss.len(),
{
    let tail = ss.drop_first();
    let c1 = c + stmt_size(ss[0]);
    if ss.len() == 1 {
        assert(ss.drop_last() =~= Seq::<Stmt>::empty());
        assert(tail =~= Seq::<Stmt>::empty());
        assert(stmts_size(ss.drop_last()) == 0);
        assert(stmts_size(tail) == 0);
        assert(ss.last() == ss[0]);
        assert(src.stmts_at(ss.drop_last(), c));
        assert(src.stmts_at(tail, c1));
    } else {
        let front = ss.drop_last();
        lemma_stmts_front(src, front, c);
        assert(front[0] == ss[0]);
        assert(front.drop_first() =~= tail.drop_last());
        assert(tail.last() == ss.last());
        assert(stmts_size(tail) == stmts_size(tail.drop_last()) + stmt_size(tail.last()));
        assert(src.stmts_at(tail, c1) == (src.stmts_at(tail.drop_last(), c1) && src.stmt_at(
            tail.last(),
            c1 + stmts_size(tail.drop_last()),
        )));
        assert(src.stmts_at(ss, c) == (src.stmts_at(front, c) && src.stmt_at(
            ss.last(),
            c + stmts_size(front),
        )));
    }
}

/// Where a statement stands, a statement is read, and it ends where the
/// statement ends.
pub proof fn lemma_stmt_read(src: Source, s: Stmt, c: int)
    requires
        src.all_fit(),
        src.stmt_at(s, c),
    ensures
        src.stmt_end(c) == Ok::<int, SyntaxError>(c + stmt_size(s)),
        !src.is_at(c, TokenKind::RBrace),
    decreases s, 0int,
{
    reveal_with_fuel(Source::row_end, 5);
    match s {
        Stmt::LocalDef { name, value, ty } => {
            lemma_expr_read(src, value, c + 4);
        },
        Stmt::LocalSet { name, new_value } => {
            lemma_expr_read(src, new_value, c + 3);
        },
        Stmt::Loop { stmts } => {
            lemma_block_read(src, stmts@, c + 1);
        },
        Stmt::If { condition, true_branch, false_branch } => {
            lemma_expr_size(condition);
            lemma_expr_read(src, condition, c + 1);
            let yes = c + 1 + expr_size(condition);
            lemma_block_read(src, true_branch@, yes);
            let no = yes + block_size(true_branch@) + 1;
            lemma_block_read(src, false_branch@, no);
            assert(past(c, yes) == yes);
            assert(past(c, no - 1) + 1 == no);
        },
        Stmt::Break => {},
        Stmt::Continue => {},
    }
}

/// Where statements stand in a row before a closing brace, they are read
/// up to after the brace.
pub proof fn lemma_stmts_read(src: Source, ss: Seq<Stmt>, c: int)
    requires
        src.all_fit(),
        src.stmts_at(ss, c),
        src.is_at(c + stmts_size(ss), TokenKind::RBrace),
    ensures
        src.stmts_end(c) == Ok::<int, SyntaxError>(c + stmts_size(ss) + 1),
    decreases ss, 1int,
{
    if ss.len() > 0 {
        lemma_stmts_front(src, ss, c);
        lemma_stmt_read(src, ss[0], c);
        lemma_stmt_size(ss[0]);
        lemma_stmts_read(src, ss.drop_first(), c + stmt_size(ss[0]));
    }
}

/// Where a block stands, a block is read, and it ends where the block
/// ends.
pub proof fn lemma_block_read(src: Source, ss: Seq<Stmt>, c: int)
    requires
        src.all_fit(),
        src.block_at(ss, c),
    ensures
        src.block_end(c) == Ok::<int, SyntaxError>(c + block_size(ss)),
    decreases ss, 2int,
{
    lemma_stmts_read(src, ss, c + 1);
}

/// Every statement has a token.
pub proof fn lemma_stmt_size(s: Stmt)
    ensures
        stmt_size(s) >= 1,
{
}

/// The first of items in a row stands where they start, and the others
/// after it.
pub proof fn lemma_items_front(src: Source, items: Seq<Item>, c: int)
    requires
        items.len() > 0,
    ensures
        items_size(items) == item_size(items[0]) + items_size(items.drop_first()),
        src.items_at(items, c) <==> src.item_at(items[0], c) && src.items_at(
            items.drop_first(),
            c + item_size(items[0]),
        ),
    decreases items.len(),
{
    let tail = items.drop_first();
    let c1 = c + item_size(items[0]);
    if items.len() == 1 {
        assert(items.drop_last() =~= Seq::<Item>::empty());
        assert(tail =~= Seq::<Item>::empty());
        assert(items_size(items.drop_last()) == 0);
        assert(items_size(tail) == 0);
        assert(items.last() == items[0]);
        assert(src.items_at(items.drop_last(), c));
        assert(src.items_at(tail, c1));
    } else {
        let front = items.drop_last();
        lemma_items_front(src, front, c);
        assert(front[0] == items[0]);
        assert(front.drop_first() =~= tail.drop_last());
        assert(tail.last() == items.last());
        assert(items_size(tail) == items_size(tail.drop_last()) + item_size(tail.last()));
        assert(src.items_at(tail, c1) == (src.items_at(tail.drop_last(), c1) && src.item_at(
            tail.last(),
            c1 + items_size(tail.drop_last()),
        )));
        assert(src.items_at(items, c) == (src.items_at(front, c) && src.item_at(
            items.last(),
            c + items_size(front),
        )));
    }
}

/// Where an item stands, an item is read, and it ends where the item ends.
pub proof fn lemma_item_read(src: Source, item: Item, c: int)
    requires
        src.all_fit(),
        src.item_at(item, c),
    ensures
        src.item_end(c) == Ok::<int, SyntaxError>(c + item_size(item)),
{
    reveal_with_fuel(Source::row_end, 5);
    match item {
        Item::Proc { name, body } => {
            lemma_block_read(src, body@, c + 4);
        },
    }
}

/// Where items stand in a row up to the end of the tokens, they are read up
/// to the end.
pub proof fn lemma_items_read(src: Source, items: Seq<Item>, c: int)
    requires
        src.all_fit(),
        0 <= c,
        src.items_at(items, c),
        c + items_size(items) == src.tokens.len(),
    ensures
        src.items_end(c) == Ok::<int, SyntaxError>(src.tokens.len() as int),
    decreases items.len(),
{
    if items.len() > 0 {
        lemma_items_front(src, items, c);
        lemma_item_read(src, items[0], c);
        lemma_items_read(src, items.drop_first(), c + item_size(items[0]));
    }
}

/// Tokens that lie in their text and spell a program are read as a
/// program: whenever some items are what stands from the first token to the
/// last, reading the tokens from the start succeeds.
pub proof fn lemma_programs_are_read(src: Source, items: Seq<Item>)
    requires
        src.all_fit(),
        src.items_at(items, 0),
        items_size(items) == src.tokens.len(),
    ensures
        src.items_end(0) is Ok,
{
    lemma_items_read(src, items, 0);
}

/// Tokens in a row end after as many tokens as there are kinds.
pub proof fn lemma_row_advances(src: Source, c: int, kinds: Seq<TokenKind>)
    requires
        src.row_end(c, kinds) is Ok,
    ensures
        src.row_end(c, kinds)->Ok_0 == c + kinds.len(),
        kinds.len() > 0 ==> 0 <= c && c + kinds.len() <= src.tokens.len(),
    decreases kinds.len(),
{
    if kinds.len() > 0 {
        lemma_row_advances(src, c + 1, kinds.drop_first());
    }
}

/// An expression that is read ends after its start, and among the tokens.
pub proof fn lemma_expr_advances(src: Source, c: int)
    requires
        src.expr_end(c) is Ok,
    ensures
        c < src.expr_end(c)->Ok_0 <= src.tokens.len(),
    decreases src.left(c),
{
    match src.tokens[c].kind {
        TokenKind::Plus => {
            lemma_expr_advances(src, c + 1);
            lemma_expr_advances(src, src.expr_end(c + 1)->Ok_0);
        },
        TokenKind::Eq => {
            lemma_expr_advances(src, c + 1);
            lemma_expr_advances(src, src.expr_end(c + 1)->Ok_0);
        },
        _ => {},
    }
}

/// A statement that is read ends after its start, and among the tokens.
pub proof fn lemma_stmt_advances(src: Source, c: int)
    requires
        src.stmt_end(c) is Ok,
    ensures
        c < src.stmt_end(c)->Ok_0 <= src.tokens.len(),
    decreases src.left(c), 1int,
{
    match src.tokens[c].kind {
        TokenKind::Var => {
            let kinds = seq![TokenKind::Var, TokenKind::Ident, TokenKind::U64, TokenKind::Eq];
            lemma_row_advances(src, c, kinds);
            lemma_expr_advances(src, c + 4);
        },
        TokenKind::SetKw => {
            let kinds = seq![TokenKind::SetKw, TokenKind::Ident, TokenKind::Eq];
            lemma_row_advances(src, c, kinds);
            lemma_expr_advances(src, c + 3);
        },
        TokenKind::Loop => {
            lemma_block_advances(src, c + 1);
        },
        TokenKind::If => {
            lemma_expr_advances(src, c + 1);
            let yes = src.expr_end(c + 1)->Ok_0;
            lemma_block_advances(src, yes);
            let no = src.block_end(yes)->Ok_0;
            lemma_block_advances(src, no + 1);
        },
        _ => {},
    }
}

/// Statements that are read up to a closing brace end after their start,
/// and among the tokens.
pub proof fn lemma_stmts_advance(src: Source, c: int)
    requires
        src.stmts_end(c) is Ok,
    ensures
        c < src.stmts_end(c)->Ok_0 <= src.tokens.len(),
    decreases src.left(c), 2int,
{
    if !src.is_at(c, TokenKind::RBrace) {
        lemma_stmt_advances(src, c);
        lemma_stmts_advance(src, src.stmt_end(c)->Ok_0);
    }
}

/// A block that is read ends after its start, and among the tokens.
pub proof fn lemma_block_advances(src: Source, c: int)
    requires
        src.block_end(c) is Ok,
    ensures
        c < src.block_end(c)->Ok_0 <= src.tokens.len(),
    decreases src.left(c), 3int,
{
    lemma_stmts_advance(src, c + 1);
}

/// An item that is read ends after its start, and among the tokens.
pub proof fn lemma_item_advances(src: Source, c: int)
    requires
        src.item_end(c) is Ok,
    ensures
        c < src.item_end(c)->Ok_0 <= src.tokens.len(),
{
    let kinds = seq![TokenKind::Proc, TokenKind::Ident, TokenKind::LParen, TokenKind::RParen];
    lemma_row_advances(src, c, kinds);
    lemma_block_advances(src, c + 4);
}

/// Whether a result is the error of a token that does not lie in the
/// text.
pub open spec fn is_bad_range(r: Result<int, SyntaxError>) -> bool {
    r matches Err(SyntaxError::BadRange { at })
}

/// Among tokens that lie in the text, no row of tokens is refused for its
/// place in the text.
pub proof fn lemma_row_in_range(src: Source, c: int, kinds: Seq<TokenKind>)
    requires
        src.all_fit(),
    ensures
        !is_bad_range(src.row_end(c, kinds)),
    decreases kinds.len(),
{
    if kinds.len() > 0 {
        lemma_row_in_range(src, c + 1, kinds.drop_first());
    }
}

/// Among tokens that lie in the text, no expression is refused for the
/// place of a token in the text.
pub proof fn lemma_expr_in_range(src: Source, c: int)
    requires
        src.all_fit(),
    ensures
        !is_bad_range(src.expr_end(c)),
    decreases src.left(c),
{
    if 0 <= c < src.tokens.len() {
        match src.tokens[c].kind {
            TokenKind::Plus => {
                lemma_expr_in_range(src, c + 1);
                if src.expr_end(c + 1) is Ok {
                    lemma_expr_in_range(src, past(c, src.expr_end(c + 1)->Ok_0));
                }
            },
            TokenKind::Eq => {
                lemma_expr_in_range(src, c + 1);
                if src.expr_end(c + 1) is Ok {
                    lemma_expr_in_range(src, past(c, src.expr_end(c + 1)->Ok_0));
                }
            },
            _ => {},
        }
    }
}

/// Among tokens that lie in the text, no statement is refused for the
/// place of a token in the text.
pub proof fn lemma_stmt_in_range(src: Source, c: int)
    requires
        src.all_fit(),
    ensures
        !is_bad_range(src.stmt_end(c)),
    decreases src.left(c), 1int,
{
    if 0 <= c < src.tokens.len() {
        match src.tokens[c].kind {
            TokenKind::Var => {
                let kinds = seq![TokenKind::Var, TokenKind::Ident, TokenKind::U64, TokenKind::Eq];
                lemma_row_in_range(src, c, kinds);
                if src.row_end(c, kinds) is Ok {
                    lemma_expr_in_range(src, src.row_end(c, kinds)->Ok_0);
                }
            },
            TokenKind::SetKw => {
                let kinds = seq![TokenKind::SetKw, TokenKind::Ident, TokenKind::Eq];
                lemma_row_in_range(src, c, kinds);
                if src.row_end(c, kinds) is Ok {
                    lemma_expr_in_range(src, src.row_end(c, kinds)->Ok_0);
                }
            },
            TokenKind::Loop => {
                lemma_block_in_range(src, c + 1);
            },
            TokenKind::If => {
                lemma_expr_in_range(src, c + 1);
                if src.expr_end(c + 1) is Ok {
                    let yes = past(c, src.expr_end(c + 1)->Ok_0);
                    lemma_block_in_range(src, yes);
                    if src.block_end(yes) is Ok {
                        lemma_block_in_range(src, past(c, src.block_end(yes)->Ok_0) + 1);
                    }
                }
            },
            _ => {},
        }
    }
}

/// Among tokens that lie in the text, no statements are refused for the
/// place of a token in the text.
pub proof fn lemma_stmts_in_range(src: Source, c: int)
    requires
        src.all_fit(),
    ensures
        !is_bad_range(src.stmts_end(c)),
    decreases src.left(c), 2int,
{
    if !src.is_at(c, TokenKind::RBrace) && 0 <= c < src.tokens.len() {
        lemma_stmt_in_range(src, c);
        if src.stmt_end(c) is Ok {
            lemma_stmts_in_range(src, past(c, src.stmt_end(c)->Ok_0));
        }
    }
}

/// Among tokens that lie in the text, no block is refused for the place of
/// a token in the text.
pub proof fn lemma_block_in_range(src: Source, c: int)
    requires
        src.all_fit(),
    ensures
        !is_bad_range(src.block_end(c)),
    decreases src.left(c), 3int,
{
    lemma_stmts_in_range(src, c + 1);
}

/// The tokens that the lexer cuts from a text are never refused for their
/// place in the text: among tokens that lie in the text, reading fails for
/// another reason or not at all.
pub proof fn lemma_items_in_range(src: Source, c: int)
    requires
        src.all_fit(),
    ensures
        !is_bad_range(src.items_end(c)),
    decreases src.left(c),
{
    if 0 <= c < src.tokens.len() {
        if src.is_at(c, TokenKind::Proc) {
            let kinds = seq![
                TokenKind::Proc,
                TokenKind::Ident,
                TokenKind::LParen,
                TokenKind::RParen,
            ];
            lemma_row_in_range(src, c, kinds);
            if src.row_end(c, kinds) is Ok {
                lemma_block_in_range(src, src.row_end(c, kinds)->Ok_0);
            }
        }
        if src.item_end(c) is Ok {
            lemma_items_in_range(src, past(c, src.item_end(c)->Ok_0));
        }
    }
}

} // verus!
