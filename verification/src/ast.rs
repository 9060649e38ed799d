//! The syntax tree that the parser produces and lowering consumes.

use vstd::prelude::*;

verus! {

/// The type of a local variable.
#[derive(Clone, Copy, Debug, PartialEq, Eq, Structural)]
pub enum Type {
    U64,
}

/// An expression, in prefix form.
#[derive(Debug, PartialEq, Eq)]
pub enum Expr {
    Local(String),
    Int(u64),
    Add(Box<Expr>, Box<Expr>),
    Equal(Box<Expr>, Box<Expr>),
}

/// A statement of a procedure body.
#[derive(Debug, PartialEq, Eq)]
pub enum Stmt {
    LocalDef { name: String, value: Expr, ty: Type },
    LocalSet { name: String, new_value: Expr },
    Loop { stmts: Vec<Stmt> },
    If { condition: Expr, true_branch: Vec<Stmt>, false_branch: Vec<Stmt> },
    Break,
    Continue,
}

/// A top-level item of a source file.
#[derive(Debug, PartialEq, Eq)]
pub enum Item {
    Proc { name: String, body: Vec<Stmt> },
}

impl Stmt {
    /// The statement `loop { stmts }`.
    pub open spec fn loop_of(stmts: Vec<Stmt>) -> Stmt {
        Stmt::Loop { stmts }
    }

    /// The statement `if condition { true_branch } else { false_branch }`.
    pub open spec fn if_of(condition: Expr, true_branch: Vec<Stmt>, false_branch: Vec<Stmt>) -> Stmt {
        Stmt::If { condition, true_branch, false_branch }
    }
}

/// Whether a statement holds a `break` that leaves the loop around it,
/// that is one that no loop inside the statement catches.
pub open spec fn stmt_breaks(s: Stmt) -> bool
    decreases s, 0int,
{
    match s {
        Stmt::Break => true,
        Stmt::If { condition, true_branch, false_branch } => {
            block_breaks(true_branch@) || block_breaks(false_branch@)
        },
        _ => false,
    }
}

/// Whether some statement of a block holds a `break` that leaves the loop
/// around the block.
pub open spec fn block_breaks(ss: Seq<Stmt>) -> bool
    decreases ss, 1int,
{
    exists|i: int| 0 <= i < ss.len() && stmt_breaks(#[trigger] ss[i])
}

/// Whether every `break` and `continue` of a statement stands inside a
/// loop, where `in_loop` says whether the statement itself does.
pub open spec fn stmt_jumps_enclosed(s: Stmt, in_loop: bool) -> bool
    decreases s, 0int,
{
    match s {
        Stmt::Break => in_loop,
        Stmt::Continue => in_loop,
        Stmt::Loop { stmts } => block_jumps_enclosed(stmts@, true),
        Stmt::If { condition, true_branch, false_branch } => {
            block_jumps_enclosed(true_branch@, in_loop) && block_jumps_enclosed(
                false_branch@,
                in_loop,
            )
        },
        _ => true,
    }
}

/// Whether every `break` and `continue` of a block stands inside a loop.
pub open spec fn block_jumps_enclosed(ss: Seq<Stmt>, in_loop: bool) -> bool
    decreases ss, 1int,
{
    forall|i: int| 0 <= i < ss.len() ==> stmt_jumps_enclosed(#[trigger] ss[i], in_loop)
}

} // verus!
