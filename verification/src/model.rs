//! What lowering means: a mathematical account of the code that each
//! construct of the language turns into.
//!
//! Lowering reads an environment (the position of the next instruction, the
//! counters, the labels placed so far, the scopes and the tops of the open
//! loops) and yields a fragment: the instructions that the construct adds,
//! and the environment after it. A `break` is the one branch that a fragment
//! may leave open, as a `Br` to the placeholder label; the loop around it
//! closes it.

use crate::ast::{block_breaks, Expr, Item, Stmt, Type};
use crate::mir::{BodyView, Const, Instr, Label, Reg};
use vstd::prelude::*;

verus! {

/// One lexical scope: the register and type that each name is bound to.
pub type Frame = Map<Seq<char>, (Reg, Type)>;

/// Why lowering stops.
pub enum Fault {
    /// A name is read or assigned that no open scope binds.
    Undefined(Seq<char>),
    /// A value does not have the type that its place asks for.
    TypeMismatch,
    /// A `break` stands outside every loop.
    BreakOutsideLoop,
    /// A `continue` stands outside every loop.
    ContinueOutsideLoop,
    /// The body needs more registers than there are identifiers.
    OutOfRegisters,
    /// The body needs more labels than there are identifiers.
    OutOfLabels,
}

/// Everything that lowering reads and updates besides the instructions.
pub struct Env {
    /// The index that the next instruction will get.
    pub at: nat,
    /// The number of registers handed out.
    pub next_reg: nat,
    /// The number of labels handed out.
    pub next_label: nat,
    /// The labels placed so far, by position.
    pub marks: Map<nat, Label>,
    /// The open scopes, innermost last.
    pub scopes: Seq<Frame>,
    /// The top labels of the open loops, innermost last.
    pub loop_tops: Seq<Label>,
}

/// The instructions that a construct adds, and the environment after it.
pub struct Code {
    pub instrs: Seq<Instr>,
    pub env: Env,
}

/// A lowered expression: its code, the register that holds its value, its
/// type, and whether that register was allocated for it.
pub struct Value {
    pub instrs: Seq<Instr>,
    pub env: Env,
    pub reg: Reg,
    pub ty: Type,
    pub fresh: bool,
}

/// The binding of `name` in the innermost scope that has one.
pub open spec fn lookup(scopes: Seq<Frame>, name: Seq<char>) -> Option<(Reg, Type)>
    decreases scopes.len(),
{
    if scopes.len() == 0 {
        None
    } else if scopes.last().contains_key(name) {
        Some(scopes.last()[name])
    } else {
        lookup(scopes.drop_last(), name)
    }
}

impl Env {
    /// The environment in which a procedure body starts.
    pub open spec fn start() -> Env {
        Env {
            at: 0,
            next_reg: 0,
            next_label: 0,
            marks: Map::empty(),
            scopes: Seq::empty(),
            loop_tops: Seq::empty(),
        }
    }

    /// After one more instruction.
    pub open spec fn step(self) -> Env {
        Env { at: self.at + 1, ..self }
    }

    /// With a new innermost scope.
    pub open spec fn push_scope(self) -> Env {
        Env { scopes: self.scopes.push(Map::empty()), ..self }
    }

    /// Without the innermost scope.
    pub open spec fn pop_scope(self) -> Env {
        Env { scopes: self.scopes.drop_last(), ..self }
    }

    /// With `name` bound in the innermost scope.
    pub open spec fn define(self, name: Seq<char>, reg: Reg, ty: Type) -> Env
        recommends
            self.scopes.len() > 0,
    {
        Env {
            scopes: self.scopes.update(
                self.scopes.len() - 1,
                self.scopes.last().insert(name, (reg, ty)),
            ),
            ..self
        }
    }

    /// Inside one more loop, whose top is `top`.
    pub open spec fn enter_loop(self, top: Label) -> Env {
        Env { loop_tops: self.loop_tops.push(top), ..self }
    }

    /// Outside the innermost loop.
    pub open spec fn leave_loop(self) -> Env {
        Env { loop_tops: self.loop_tops.drop_last(), ..self }
    }

    /// The next register: the counter's value, and the counter moves on.
    pub open spec fn fresh_reg(self) -> Result<(Reg, Env), Fault> {
        if self.next_reg >= u32::MAX {
            Err(Fault::OutOfRegisters)
        } else {
            Ok((Reg(self.next_reg as u32), Env { next_reg: self.next_reg + 1, ..self }))
        }
    }

    /// The label of the current position: the one that is there already, or
    /// else the next label, which is then placed there.
    pub open spec fn mark(self) -> Result<(Label, Env), Fault> {
        if self.marks.contains_key(self.at) {
            Ok((self.marks[self.at], self))
        } else if self.next_label >= u32::MAX {
            Err(Fault::OutOfLabels)
        } else {
            let l = Label(self.next_label as u32);
            Ok(
                (
                    l,
                    Env {
                        next_label: self.next_label + 1,
                        marks: self.marks.insert(self.at, l),
                        ..self
                    },
                ),
            )
        }
    }
}

/// The code in which every open `break` jumps to `to`.
pub open spec fn close_breaks(instrs: Seq<Instr>, to: Label) -> Seq<Instr> {
    instrs.map_values(|i: Instr| i.closed(to))
}

/// An arithmetic instruction of two operands.
pub open spec fn binary(sum: bool, dst: Reg, lhs: Reg, rhs: Reg) -> Instr {
    if sum {
        Instr::Add { dst, lhs, rhs }
    } else {
        Instr::CmpEq { dst, lhs, rhs }
    }
}

/// The value of an operation on two lowered operands: the code of both, then
/// the operation into a new register.
pub open spec fn join(sum: bool, l: Value, right: Result<Value, Fault>) -> Result<Value, Fault> {
    match right {
        Err(f) => Err(f),
        Ok(r) => match r.env.fresh_reg() {
            Err(f) => Err(f),
            Ok((dst, e1)) => Ok(
                Value {
                    instrs: l.instrs + r.instrs + seq![binary(sum, dst, l.reg, r.reg)],
                    env: e1.step(),
                    reg: dst,
                    ty: Type::U64,
                    fresh: true,
                },
            ),
        },
    }
}

/// The code of an expression: operands left before right, then the
/// operation into a new register. A local is its register, with no code.
pub open spec fn expr_code(e: Expr, env: Env) -> Result<Value, Fault>
    decreases e,
{
    match e {
        Expr::Local(name) => match lookup(env.scopes, name@) {
            Some((reg, ty)) => Ok(Value { instrs: Seq::empty(), env, reg, ty, fresh: false }),
            None => Err(Fault::Undefined(name@)),
        },
        Expr::Int(k) => match env.fresh_reg() {
            Ok((dst, e1)) => Ok(
                Value {
                    instrs: seq![Instr::StoreConst { dst, value: Const(k) }],
                    env: e1.step(),
                    reg: dst,
                    ty: Type::U64,
                    fresh: true,
                },
            ),
            Err(f) => Err(f),
        },
        Expr::Add(lhs, rhs) => match expr_code(*lhs, env) {
            Err(f) => Err(f),
            Ok(l) => join(true, l, expr_code(*rhs, l.env)),
        },
        Expr::Equal(lhs, rhs) => match expr_code(*lhs, env) {
            Err(f) => Err(f),
            Ok(l) => join(false, l, expr_code(*rhs, l.env)),
        },
    }
}

/// The code of `var name ty = value`: the code of the value, and a register
/// of its own for the name. The register of a value that was computed for
/// this statement is taken as it is; the value of another local is copied
/// into a new register first.
pub open spec fn local_def_code(name: Seq<char>, value: Expr, ty: Type, env: Env) -> Result<
    Code,
    Fault,
> {
    match expr_code(value, env) {
        Err(f) => Err(f),
        Ok(v) => if ty != v.ty {
            Err(Fault::TypeMismatch)
        } else if v.fresh {
            Ok(Code { instrs: v.instrs, env: v.env.define(name, v.reg, v.ty) })
        } else {
            match v.env.fresh_reg() {
                Err(f) => Err(f),
                Ok((dst, e1)) => Ok(
                    Code {
                        instrs: v.instrs.push(Instr::Store { dst, src: v.reg }),
                        env: e1.step().define(name, dst, v.ty),
                    },
                ),
            }
        },
    }
}

/// The code of `set name = value`: the code of the value, and a copy into
/// the register that the name is bound to.
pub open spec fn local_set_code(name: Seq<char>, value: Expr, env: Env) -> Result<Code, Fault> {
    match lookup(env.scopes, name) {
        None => Err(Fault::Undefined(name)),
        Some((dst, ty)) => match expr_code(value, env) {
            Err(f) => Err(f),
            Ok(v) => if ty != v.ty {
                Err(Fault::TypeMismatch)
            } else {
                Ok(
                    Code {
                        instrs: v.instrs.push(Instr::Store { dst, src: v.reg }),
                        env: v.env.step(),
                    },
                )
            },
        },
    }
}

/// The code of a statement.
pub open spec fn stmt_code(s: Stmt, env: Env) -> Result<Code, Fault>
    decreases s, 0int,
{
    match s {
        Stmt::LocalDef { name, value, ty } => local_def_code(name@, value, ty, env),
        Stmt::LocalSet { name, new_value } => local_set_code(name@, new_value, env),
        Stmt::Loop { stmts } => match env.mark() {
            Err(f) => Err(f),
            Ok((top, e1)) => match block_code(stmts@, e1.enter_loop(top)) {
                Err(f) => Err(f),
                Ok(b) => {
                    let after = b.env.step().leave_loop();
                    if !block_breaks(stmts@) {
                        Ok(Code { instrs: b.instrs.push(Instr::Br { label: top }), env: after })
                    } else {
                        match after.mark() {
                            Err(f) => Err(f),
                            Ok((bottom, e2)) => Ok(
                                Code {
                                    instrs: close_breaks(b.instrs, bottom).push(
                                        Instr::Br { label: top },
                                    ),
                                    env: e2,
                                },
                            ),
                        }
                    }
                },
            },
        },
        Stmt::If { condition, true_branch, false_branch } => match expr_code(condition, env) {
            Err(f) => Err(f),
            Ok(c) => if c.ty != Type::U64 {
                Err(Fault::TypeMismatch)
            } else {
                match block_code(false_branch@, c.env.step()) {
                    Err(f) => Err(f),
                    Ok(no) => match no.env.step().mark() {
                        Err(f) => Err(f),
                        Ok((true_top, e1)) => match block_code(true_branch@, e1) {
                            Err(f) => Err(f),
                            Ok(yes) => match yes.env.mark() {
                                Err(f) => Err(f),
                                Ok((true_bottom, e2)) => Ok(
                                    Code {
                                        instrs: c.instrs.push(
                                            Instr::CondBr { label: true_top, condition: c.reg },
                                        ) + no.instrs.push(Instr::Br { label: true_bottom })
                                            + yes.instrs,
                                        env: e2,
                                    },
                                ),
                            },
                        },
                    },
                }
            },
        },
        Stmt::Break => if env.loop_tops.len() == 0 {
            Err(Fault::BreakOutsideLoop)
        } else {
            Ok(Code { instrs: seq![Instr::Br { label: Label::placeholder() }], env: env.step() })
        },
        Stmt::Continue => if env.loop_tops.len() == 0 {
            Err(Fault::ContinueOutsideLoop)
        } else {
            Ok(Code { instrs: seq![Instr::Br { label: env.loop_tops.last() }], env: env.step() })
        },
    }
}

/// The code of statements in a row, each in the environment that the one
/// before it left.
pub open spec fn stmts_code(ss: Seq<Stmt>, env: Env) -> Result<Code, Fault>
    decreases ss, 1int,
{
    if ss.len() == 0 {
        Ok(Code { instrs: Seq::empty(), env })
    } else {
        match stmts_code(ss.drop_last(), env) {
            Err(f) => Err(f),
            Ok(before) => match stmt_code(ss.last(), before.env) {
                Err(f) => Err(f),
                Ok(last) => Ok(Code { instrs: before.instrs + last.instrs, env: last.env }),
            },
        }
    }
}

/// The code of a block: its statements, in a scope of their own.
pub open spec fn block_code(ss: Seq<Stmt>, env: Env) -> Result<Code, Fault>
    decreases ss, 2int,
{
    match stmts_code(ss, env.push_scope()) {
        Err(f) => Err(f),
        Ok(c) => Ok(Code { instrs: c.instrs, env: c.env.pop_scope() }),
    }
}

/// The body of a procedure: the code of its block, from the start.
pub open spec fn proc_code(body: Seq<Stmt>) -> Result<BodyView, Fault> {
    match block_code(body, Env::start()) {
        Err(f) => Err(f),
        Ok(c) => Ok(BodyView { instrs: c.instrs, marks: c.env.marks }),
    }
}

/// The bodies of the procedures of a program, by name. Each is lowered on
/// its own; of two procedures with one name the later one counts. The first
/// procedure that cannot be lowered decides the fault.
pub open spec fn program_code(items: Seq<Item>) -> Result<Map<Seq<char>, BodyView>, Fault>
    decreases items.len(),
{
    if items.len() == 0 {
        Ok(Map::empty())
    } else {
        match program_code(items.drop_last()) {
            Err(f) => Err(f),
            Ok(bodies) => match items.last() {
                Item::Proc { name, body } => match proc_code(body@) {
                    Err(f) => Err(f),
                    Ok(b) => Ok(bodies.insert(name@, b)),
                },
            },
        }
    }
}

} // verus!
