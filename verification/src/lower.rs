//! Lowering of the syntax tree to the intermediate representation.

use crate::ast::{block_breaks, Expr, Item, Stmt, Type};
use crate::laws::{lemma_body_closed, lemma_program_fails};
use crate::mir::{marks_of, Body, BodyView, Const, Instr, Label, Mir, Reg};
use crate::fixups::{
    extended, lemma_extended_none, lemma_extended_twice, lemma_open_breaks_complete,
    lemma_open_breaks_concat, lemma_open_breaks_none, lemma_open_breaks_one,
    lemma_open_breaks_sound, open_breaks,
};
use crate::model::{
    binary, block_code, close_breaks, expr_code, local_def_code, local_set_code, lookup,
    proc_code, program_code, stmt_code, stmts_code, Code, Env, Fault, Frame, Value,
};
use crate::shape::{
    lemma_block_shape, lemma_define, lemma_enter_loop, lemma_expr_shape, lemma_leave_loop,
    lemma_mark, lemma_push_scope, lemma_step, lemma_stmt_shape, lemma_stmts_fail,
    lemma_stmts_shape,
};
use crate::targets::{
    lemma_block_targets, lemma_stmt_targets, lemma_straight, open_break,
};
use vstd::hash_map::StringHashMap;
use vstd::prelude::*;

verus! {

/// Why a program cannot be lowered.
#[derive(Debug, PartialEq, Eq)]
pub enum LowerError {
    /// A name is read or assigned that no open scope binds.
    UndefinedVariable(String),
    /// A value does not have the type that its place asks for.
    TypeMismatch,
    /// A `break` stands outside every loop.
    BreakOutsideLoop,
    /// A `continue` stands outside every loop.
    ContinueOutsideLoop,
    /// The body needs more registers than there are identifiers.
    OutOfRegisters,
    /// The body needs more labels than there are identifiers.
    OutOfLabels,
}

impl View for LowerError {
    type V = Fault;

    open spec fn view(&self) -> Fault {
        match self {
            LowerError::UndefinedVariable(name) => Fault::Undefined(name@),
            LowerError::TypeMismatch => Fault::TypeMismatch,
            LowerError::BreakOutsideLoop => Fault::BreakOutsideLoop,
            LowerError::ContinueOutsideLoop => Fault::ContinueOutsideLoop,
            LowerError::OutOfRegisters => Fault::OutOfRegisters,
            LowerError::OutOfLabels => Fault::OutOfLabels,
        }
    }
}

/// The state of lowering one procedure body.
pub struct LowerCtx {
    pub body: Body,
    pub scopes: Vec<StringHashMap<(Reg, Type)>>,
    pub current_reg: Reg,
    pub current_label: Label,
    pub loop_tops: Vec<Label>,
    pub break_fixups: Vec<Vec<usize>>,
}

/// What lowering an expression yields: the register that holds its value,
/// its type, and whether the register was allocated for this expression.
#[derive(Clone, Copy, Debug)]
pub struct LowerExprResult {
    pub reg: Reg,
    pub ty: Type,
    pub did_allocate_new_reg: bool,
}

impl LowerExprResult {
    /// Whether this is the register, type and freshness of `v`.
    pub open spec fn is_of(self, v: Value) -> bool {
        self.reg == v.reg && self.ty == v.ty && self.did_allocate_new_reg == v.fresh
    }
}

/// The scopes as maps, innermost last.
pub open spec fn frames_of(scopes: Seq<StringHashMap<(Reg, Type)>>) -> Seq<Frame> {
    scopes.map_values(|f: StringHashMap<(Reg, Type)>| f@)
}

impl View for LowerCtx {
    type V = Env;

    open spec fn view(&self) -> Env {
        Env {
            at: self.body.instrs@.len(),
            next_reg: self.current_reg.0 as nat,
            next_label: self.current_label.0 as nat,
            marks: marks_of(self.body.labels@),
            scopes: frames_of(self.scopes@),
            loop_tops: self.loop_tops@,
        }
    }
}

impl LowerCtx {
    /// The instructions emitted so far.
    pub open spec fn instrs(&self) -> Seq<Instr> {
        self.body.instrs@
    }

    /// For each open loop, innermost last, the positions of the branches
    /// that wait for the loop's bottom label.
    pub open spec fn fixups(&self) -> Seq<Seq<int>> {
        self.break_fixups@.map_values(|v: Vec<usize>| v@.map_values(|i: usize| i as int))
    }

    /// A context at the start of a body: nothing emitted, nothing bound.
    pub fn new() -> (ctx: LowerCtx)
        ensures
            ctx@ == Env::start(),
            ctx.instrs() == Seq::<Instr>::empty(),
            ctx.fixups() == Seq::<Seq<int>>::empty(),
    {
        let ctx = LowerCtx {
            body: Body::new(),
            scopes: Vec::new(),
            current_reg: Reg(0),
            current_label: Label(0),
            loop_tops: Vec::new(),
            break_fixups: Vec::new(),
        };
        assert(ctx@.scopes =~= Seq::<Frame>::empty());
        assert(ctx.fixups() =~= Seq::<Seq<int>>::empty());
        ctx
    }

    /// Appends one instruction.
    pub fn emit(&mut self, instr: Instr)
        ensures
            final(self).instrs() == old(self).instrs().push(instr),
            final(self)@ == old(self)@.step(),
            final(self).fixups() == old(self).fixups(),
    {
        self.body.instrs.push(instr);
    }

    /// Hands out the next register.
    pub fn next_reg(&mut self) -> (res: Result<Reg, LowerError>)
        ensures
            final(self).instrs() == old(self).instrs(),
            final(self).fixups() == old(self).fixups(),
            match res {
                Ok(r) => old(self)@.fresh_reg() == Ok::<(Reg, Env), Fault>((r, final(self)@)),
                Err(e) => old(self)@.fresh_reg() == Err::<(Reg, Env), Fault>(e@)
                    && *final(self) == *old(self),
            },
    {
        let r = self.current_reg;
        if r.0 == u32::MAX {
            return Err(LowerError::OutOfRegisters);
        }
        self.current_reg = Reg(r.0 + 1);
        Ok(r)
    }

    /// The label of the current position: the one placed there before, or
    /// else the next label, which is placed there now.
    pub fn next_label(&mut self) -> (res: Result<Label, LowerError>)
        ensures
            final(self).instrs() == old(self).instrs(),
            final(self).fixups() == old(self).fixups(),
            match res {
                Ok(l) => old(self)@.mark() == Ok::<(Label, Env), Fault>((l, final(self)@)),
                Err(e) => old(self)@.mark() == Err::<(Label, Env), Fault>(e@)
                    && *final(self) == *old(self),
            },
    {
        let at = self.body.instrs.len();
        let found = match self.body.labels.get(&at) {
            Some(l) => Some(*l),
            None => None,
        };
        match found {
            Some(l) => Ok(l),
            None => {
                let l = self.current_label;
                if l.0 == u32::MAX {
                    return Err(LowerError::OutOfLabels);
                }
                self.body.labels.insert(at, l);
                self.current_label = Label(l.0 + 1);
                assert(self@.marks =~= old(self)@.marks.insert(at as nat, l));
                Ok(l)
            },
        }
    }

    /// Opens a scope inside the innermost one.
    pub fn open_scope(&mut self)
        ensures
            final(self).instrs() == old(self).instrs(),
            final(self).fixups() == old(self).fixups(),
            final(self)@ == old(self)@.push_scope(),
    {
        self.scopes.push(StringHashMap::new());
        assert(self@.scopes =~= old(self)@.push_scope().scopes);
    }

    /// Closes the innermost scope.
    pub fn close_scope(&mut self)
        requires
            old(self).scopes@.len() > 0,
        ensures
            final(self).instrs() == old(self).instrs(),
            final(self).fixups() == old(self).fixups(),
            final(self)@ == old(self)@.pop_scope(),
    {
        self.scopes.pop();
        assert(self@.scopes =~= old(self)@.pop_scope().scopes);
    }

    /// Binds `name` in the innermost scope, in place of what it may have
    /// been bound to there.
    pub fn insert_in_scope(&mut self, name: String, reg: Reg, ty: Type)
        requires
            old(self).scopes@.len() > 0,
        ensures
            final(self).instrs() == old(self).instrs(),
            final(self).fixups() == old(self).fixups(),
            final(self)@ == old(self)@.define(name@, reg, ty),
    {
        let mut frame = self.scopes.pop().unwrap();
        frame.insert(name, (reg, ty));
        self.scopes.push(frame);
        assert(self@.scopes =~= old(self)@.define(name@, reg, ty).scopes);
    }

    /// The binding of `name` in the innermost scope that has one.
    pub fn lookup_in_scope(&self, name: &str) -> (res: Result<(Reg, Type), LowerError>)
        ensures
            match res {
                Ok(b) => lookup(self@.scopes, name@) == Some(b),
                Err(e) => lookup(self@.scopes, name@) is None && e@ == Fault::Undefined(name@),
            },
    {
        let mut i = self.scopes.len();
        assert(self@.scopes.take(i as int) =~= self@.scopes);
        while i > 0
            invariant
                i <= self.scopes@.len(),
                lookup(self@.scopes, name@) == lookup(self@.scopes.take(i as int), name@),
            decreases i,
        {
            i -= 1;
            assert(self@.scopes.take(i + 1).last() == self.scopes@[i as int]@);
            assert(self@.scopes.take(i + 1).drop_last() =~= self@.scopes.take(i as int));
            match self.scopes[i].get(name) {
                Some(b) => {
                    return Ok(*b);
                },
                None => {},
            }
        }
        Err(LowerError::UndefinedVariable(name.to_owned()))
    }

    /// Whether the context went from `before` to this one by emitting the
    /// code of the value `v` and nothing else.
    pub open spec fn evaluated(&self, before: &LowerCtx, v: Value) -> bool {
        &&& self.instrs() == before.instrs() + v.instrs
        &&& self@ == v.env
        &&& self.fixups() == before.fixups()
    }

    /// Emits the code of an expression and says where its value is.
    pub fn lower_expr(&mut self, expr: &Expr) -> (res: Result<LowerExprResult, LowerError>)
        ensures
            match res {
                Ok(r) => expr_code(*expr, old(self)@) matches Ok(v) && r.is_of(v)
                    && final(self).evaluated(old(self), v),
                Err(e) => expr_code(*expr, old(self)@) == Err::<Value, Fault>(e@),
            },
        decreases expr,
    {
        match expr {
            Expr::Local(name) => {
                let (reg, ty) = match self.lookup_in_scope(name.as_str()) {
                    Ok(b) => b,
                    Err(e) => {
                        return Err(e);
                    },
                };
                assert(self.instrs() + Seq::<Instr>::empty() =~= self.instrs());
                Ok(LowerExprResult { reg, ty, did_allocate_new_reg: false })
            },
            Expr::Int(n) => {
                let dst = match self.next_reg() {
                    Ok(r) => r,
                    Err(e) => {
                        return Err(e);
                    },
                };
                self.emit(Instr::StoreConst { dst, value: Const(*n) });
                assert(old(self).instrs().push(Instr::StoreConst { dst, value: Const(*n) })
                    =~= old(self).instrs() + seq![Instr::StoreConst { dst, value: Const(*n) }]);
                Ok(LowerExprResult { reg: dst, ty: Type::U64, did_allocate_new_reg: true })
            },
            Expr::Add(lhs, rhs) => {
                let ghost l = expr_code(**lhs, old(self)@)->Ok_0;
                let ghost r = expr_code(**rhs, l.env)->Ok_0;
                let lhs = match self.lower_expr(lhs) {
                    Ok(l) => l.reg,
                    Err(e) => {
                        return Err(e);
                    },
                };
                let rhs = match self.lower_expr(rhs) {
                    Ok(r) => r.reg,
                    Err(e) => {
                        return Err(e);
                    },
                };
                let dst = match self.next_reg() {
                    Ok(r) => r,
                    Err(e) => {
                        return Err(e);
                    },
                };
                self.emit(Instr::Add { dst, lhs, rhs });
                assert(self.instrs() =~= old(self).instrs() + (l.instrs + r.instrs
                    + seq![binary(true, dst, lhs, rhs)]));
                Ok(LowerExprResult { reg: dst, ty: Type::U64, did_allocate_new_reg: true })
            },
            Expr::Equal(lhs, rhs) => {
                let ghost l = expr_code(**lhs, old(self)@)->Ok_0;
                let ghost r = expr_code(**rhs, l.env)->Ok_0;
                let lhs = match self.lower_expr(lhs) {
                    Ok(l) => l.reg,
                    Err(e) => {
                        return Err(e);
                    },
                };
                let rhs = match self.lower_expr(rhs) {
                    Ok(r) => r.reg,
                    Err(e) => {
                        return Err(e);
                    },
                };
                let dst = match self.next_reg() {
                    Ok(r) => r,
                    Err(e) => {
                        return Err(e);
                    },
                };
                self.emit(Instr::CmpEq { dst, lhs, rhs });
                assert(self.instrs() =~= old(self).instrs() + (l.instrs + r.instrs
                    + seq![binary(false, dst, lhs, rhs)]));
                Ok(LowerExprResult { reg: dst, ty: Type::U64, did_allocate_new_reg: true })
            },
        }
    }

    /// What lowering needs of the context it starts from: the invariant of
    /// environments, and one list of fixups for each open loop.
    pub open spec fn wf(&self) -> bool {
        &&& self@.inv()
        &&& self.fixups().len() == self@.loop_tops.len()
    }

    /// Whether the context went from `before` to this one by emitting the
    /// code `c` and nothing else, and by recording the open `break`s of `c`
    /// for the innermost loop.
    pub open spec fn lowered(&self, before: &LowerCtx, c: Code) -> bool {
        &&& self.instrs() == before.instrs() + c.instrs
        &&& self@ == c.env
        &&& self.fixups() == extended(
            before.fixups(),
            open_breaks(c.instrs, before.instrs().len() as int),
        )
    }

    /// Lowers `var name ty = value`. The name is bound to a register that
    /// no earlier statement got: the one that the value was computed into,
    /// or a new one that the value of another local is copied into.
    pub fn lower_local_def(&mut self, name: &str, value: &Expr, ty: &Type) -> (res: Result<
        (),
        LowerError,
    >)
        requires
            old(self).wf(),
            old(self).scopes@.len() > 0,
        ensures
            match res {
                Ok(()) => {
                    &&& local_def_code(name@, *value, *ty, old(self)@) matches Ok(c)
                    &&& final(self).lowered(old(self), c)
                    &&& final(self).wf()
                    &&& lookup(final(self)@.scopes, name@) matches Some((reg, bound_ty))
                    &&& bound_ty == *ty
                    &&& old(self)@.next_reg <= reg.0
                    &&& reg.0 + 1 == final(self)@.next_reg
                    &&& final(self).instrs().len() > old(self).instrs().len()
                    &&& final(self).instrs().last().dst() == Some(reg)
                },
                Err(e) => local_def_code(name@, *value, *ty, old(self)@) == Err::<Code, Fault>(
                    e@,
                ),
            },
    {
        let lower_result = match self.lower_expr(value) {
            Ok(r) => r,
            Err(e) => {
                return Err(e);
            },
        };
        let ghost v = expr_code(*value, old(self)@)->Ok_0;
        proof {
            lemma_expr_shape(*value, old(self)@);
        }
        match self.expect_types_match(ty, &lower_result.ty) {
            Ok(()) => {},
            Err(e) => {
                return Err(e);
            },
        }
        let reg = if lower_result.did_allocate_new_reg {
            lower_result.reg
        } else {
            let new_reg = match self.next_reg() {
                Ok(r) => r,
                Err(e) => {
                    return Err(e);
                },
            };
            proof {
                lemma_step(v.env.fresh_reg()->Ok_0.1);
            }
            self.emit(Instr::Store { dst: new_reg, src: lower_result.reg });
            new_reg
        };
        proof {
            lemma_define(self@, name@, reg, lower_result.ty);
        }
        self.insert_in_scope(name.to_owned(), reg, lower_result.ty);
        proof {
            let c = local_def_code(name@, *value, *ty, old(self)@)->Ok_0;
            assert(self.instrs() =~= old(self).instrs() + c.instrs);
            lemma_straight(c.instrs, c.env, true);
            lemma_open_breaks_none(c.instrs, old(self).instrs().len() as int);
            assert(self.fixups() =~= extended(
                old(self).fixups(),
                open_breaks(c.instrs, old(self).instrs().len() as int),
            ));
        }
        Ok(())
    }

    /// Lowers `set name = value`: the value is copied into the register
    /// that the name is bound to.
    pub fn lower_local_set(&mut self, name: &str, new_value: &Expr) -> (res: Result<
        (),
        LowerError,
    >)
        requires
            old(self).wf(),
        ensures
            match res {
                Ok(()) => {
                    &&& local_set_code(name@, *new_value, old(self)@) matches Ok(c)
                    &&& final(self).lowered(old(self), c)
                    &&& final(self).wf()
                },
                Err(e) => local_set_code(name@, *new_value, old(self)@) == Err::<Code, Fault>(e@),
            },
    {
        let (local_reg, ty) = match self.lookup_in_scope(name) {
            Ok(b) => b,
            Err(e) => {
                return Err(e);
            },
        };
        let new_value_result = match self.lower_expr(new_value) {
            Ok(r) => r,
            Err(e) => {
                return Err(e);
            },
        };
        let ghost v = expr_code(*new_value, old(self)@)->Ok_0;
        proof {
            lemma_expr_shape(*new_value, old(self)@);
            lemma_step(v.env);
        }
        match self.expect_types_match(&ty, &new_value_result.ty) {
            Ok(()) => {},
            Err(e) => {
                return Err(e);
            },
        }
        self.emit(Instr::Store { dst: local_reg, src: new_value_result.reg });
        proof {
            let c = local_set_code(name@, *new_value, old(self)@)->Ok_0;
            assert(self.instrs() =~= old(self).instrs() + c.instrs);
            lemma_straight(c.instrs, c.env, true);
            lemma_open_breaks_none(c.instrs, old(self).instrs().len() as int);
            assert(self.fixups() =~= extended(
                old(self).fixups(),
                open_breaks(c.instrs, old(self).instrs().len() as int),
            ));
        }
        Ok(())
    }

    /// Lowers one statement.
    pub fn lower_stmt(&mut self, stmt: &Stmt) -> (res: Result<(), LowerError>)
        requires
            old(self).wf(),
            stmt is LocalDef ==> old(self).scopes@.len() > 0,
        ensures
            match res {
                Ok(()) => {
                    &&& stmt_code(*stmt, old(self)@) matches Ok(c)
                    &&& final(self).lowered(old(self), c)
                    &&& final(self).wf()
                },
                Err(e) => stmt_code(*stmt, old(self)@) == Err::<Code, Fault>(e@),
            },
        decreases *stmt, 1int,
    {
        let ghost base = self.instrs().len() as int;
        match stmt {
            Stmt::LocalDef { name, value, ty } => self.lower_local_def(name.as_str(), value, ty),
            Stmt::LocalSet { name, new_value } => self.lower_local_set(name.as_str(), new_value),
            Stmt::Loop { stmts } => self.lower_loop(stmts),
            Stmt::If { condition, true_branch, false_branch } => {
                self.lower_if(condition, true_branch, false_branch)
            },
            Stmt::Break => {
                if self.break_fixups.len() == 0 {
                    return Err(LowerError::BreakOutsideLoop);
                }
                let at = self.body.instrs.len();
                let mut innermost = self.break_fixups.pop().unwrap();
                innermost.push(at);
                self.break_fixups.push(innermost);
                self.emit(Instr::Br { label: Label::unresolved() });
                proof {
                    lemma_step(old(self)@);
                    let c = stmt_code(*stmt, old(self)@)->Ok_0;
                    assert(c.instrs.drop_last() =~= Seq::<Instr>::empty());
                    reveal_with_fuel(open_breaks, 2);
                    assert(open_breaks(c.instrs, base) =~= seq![base]);
                    assert(self.instrs() =~= old(self).instrs() + c.instrs);
                    assert(self.fixups() =~= extended(old(self).fixups(), seq![base])) by {
                        let last = old(self).fixups().len() - 1;
                        assert(self.fixups()[last] =~= old(self).fixups()[last] + seq![base]);
                    }
                }
                Ok(())
            },
            Stmt::Continue => {
                if self.loop_tops.len() == 0 {
                    return Err(LowerError::ContinueOutsideLoop);
                }
                let top = self.loop_tops[self.loop_tops.len() - 1];
                self.emit(Instr::Br { label: top });
                proof {
                    lemma_stmt_shape(*stmt, old(self)@);
                    lemma_stmt_targets(*stmt, old(self)@);
                    let c = stmt_code(*stmt, old(self)@)->Ok_0;
                    lemma_open_breaks_none(c.instrs, base);
                    lemma_extended_none(old(self).fixups());
                    assert(self.instrs() =~= old(self).instrs() + c.instrs);
                }
                Ok(())
            },
        }
    }

    /// Lowers `loop { stmts }`: the top label, the body, the jump back to
    /// the top, and, if the body has a `break` of this loop, the bottom
    /// label, to which every such `break` then jumps.
    pub fn lower_loop(&mut self, stmts: &Vec<Stmt>) -> (res: Result<(), LowerError>)
        requires
            old(self).wf(),
        ensures
            match res {
                Ok(()) => {
                    &&& stmt_code(Stmt::loop_of(*stmts), old(self)@) matches Ok(c)
                    &&& final(self).lowered(old(self), c)
                    &&& final(self).wf()
                    &&& final(self)@.marks.contains_key(final(self)@.at) <==> block_breaks(stmts@)
                },
                Err(e) => stmt_code(Stmt::loop_of(*stmts), old(self)@) == Err::<Code, Fault>(e@),
            },
        decreases Stmt::loop_of(*stmts), 0int,
    {
        let ghost whole = Stmt::loop_of(*stmts);
        let ghost base = self.instrs().len() as int;
        let top = match self.next_label() {
            Ok(l) => l,
            Err(e) => {
                return Err(e);
            },
        };
        let ghost e1 = self@;
        self.loop_tops.push(top);
        self.break_fixups.push(Vec::new());
        proof {
            lemma_mark(old(self)@);
            lemma_enter_loop(e1, top);
            assert(self@ == e1.enter_loop(top));
            assert(self.fixups().last() =~= Seq::<int>::empty());
            assert(self.fixups() =~= old(self).fixups().push(Seq::empty()));
        }
        let ghost entered = *self;
        match self.lower_block(stmts) {
            Ok(()) => {},
            Err(e) => {
                return Err(e);
            },
        }
        let ghost b = block_code(stmts@, e1.enter_loop(top))->Ok_0;
        let ghost positions = open_breaks(b.instrs, base);
        self.emit(Instr::Br { label: top });
        proof {
            assert(self.fixups() =~= old(self).fixups().push(positions)) by {
                assert(entered.fixups().last() + positions =~= positions);
            }
        }
        let ghost pushed = *self;
        self.loop_tops.pop();
        let fixups = self.break_fixups.pop().unwrap();
        let ghost after = b.env.step().leave_loop();
        proof {
            lemma_block_shape(stmts@, e1.enter_loop(top));
            lemma_block_targets(stmts@, e1.enter_loop(top));
            lemma_step(b.env);
            lemma_leave_loop(b.env.step());
            assert(self@.loop_tops =~= after.loop_tops);
            assert(self@ == after);
            lemma_open_breaks_none(b.instrs, base);
            let n = pushed.break_fixups@.len() - 1;
            assert(pushed.fixups()[n] == positions);
            assert(fixups == pushed.break_fixups@[n]);
            assert(fixups@.map_values(|i: usize| i as int) == positions);
            assert(self.fixups() =~= pushed.fixups().drop_last());
            assert(self.fixups() =~= old(self).fixups());
            lemma_extended_none(old(self).fixups());
        }
        if fixups.len() == 0 {
            proof {
                let c = stmt_code(whole, old(self)@)->Ok_0;
                lemma_stmt_shape(whole, old(self)@);
                lemma_stmt_targets(whole, old(self)@);
                assert(self.instrs() =~= old(self).instrs() + c.instrs);
                lemma_open_breaks_none(c.instrs, base);
            }
            return Ok(());
        }
        let bottom = match self.next_label() {
            Ok(l) => l,
            Err(e) => {
                return Err(e);
            },
        };
        proof {
            lemma_mark(after);
            lemma_open_breaks_sound(b.instrs, base);
            lemma_stmt_shape(whole, old(self)@);
            lemma_stmt_targets(whole, old(self)@);
        }
        let ghost before_patch = self.instrs();
        let ghost end_env = self@;
        let mut k: usize = 0;
        while k < fixups.len()
            invariant
                0 <= k <= fixups.len(),
                fixups@.map_values(|i: usize| i as int) == positions,
                positions == open_breaks(b.instrs, base),
                before_patch == old(self).instrs() + b.instrs.push(Instr::Br { label: top }),
                base == old(self).instrs().len(),
                self@ == end_env,
                self.fixups() == old(self).fixups(),
                self.instrs().len() == before_patch.len(),
                forall|j: int|
                    0 <= j < before_patch.len() ==> #[trigger] self.instrs()[j] == (if exists|
                        m: int,
                    |
                        0 <= m < k && #[trigger] positions[m] == j {
                        Instr::Br { label: bottom }
                    } else {
                        before_patch[j]
                    }),
            decreases fixups.len() - k,
        {
            let idx = fixups[k];
            proof {
                lemma_open_breaks_sound(b.instrs, base);
                assert(positions[k as int] == idx as int);
                assert(before_patch[idx as int] == b.instrs[idx - base]);
                // the branch at a fixup still waits for its label
                assert(self.instrs()[idx as int] == open_break());
            }
            self.body.instrs[idx] = Instr::Br { label: bottom };
            k += 1;
            proof {
                assert forall|j: int| 0 <= j < before_patch.len() implies #[trigger] self.instrs()[j]
                    == (if exists|m: int| 0 <= m < k && #[trigger] positions[m] == j {
                    Instr::Br { label: bottom }
                } else {
                    before_patch[j]
                }) by {
                    if j == idx {
                        assert(positions[k - 1] == j);
                    } else if exists|m: int| 0 <= m < k && #[trigger] positions[m] == j {
                        let m = choose|m: int| 0 <= m < k && #[trigger] positions[m] == j;
                        assert(m < k - 1);
                    }
                }
            }
        }
        proof {
            let c = stmt_code(whole, old(self)@)->Ok_0;
            lemma_open_breaks_sound(b.instrs, base);
            assert(self.instrs() =~= old(self).instrs() + c.instrs) by {
                assert forall|j: int| 0 <= j < before_patch.len() implies self.instrs()[j] == (
                old(self).instrs() + c.instrs)[j] by {
                    let patched = exists|m: int| 0 <= m < k && #[trigger] positions[m] == j;
                    if base <= j < base + b.instrs.len() {
                        assert(before_patch[j] == b.instrs[j - base]);
                        assert(close_breaks(b.instrs, bottom)[j - base] == b.instrs[j
                            - base].closed(bottom));
                        if b.instrs[j - base] == open_break() {
                            lemma_open_breaks_complete(b.instrs, base, j - base);
                            let m = choose|m: int| 0 <= m < positions.len() && positions[m] == j;
                            assert(positions[m] == j);
                        }
                    }
                }
            }
            lemma_open_breaks_none(c.instrs, base);
        }
        Ok(())
    }

    /// Lowers `if condition { true_branch } else { false_branch }`: the
    /// condition, a branch to the true branch if it is not zero, the false
    /// branch, a jump past the true branch, and the true branch.
    pub fn lower_if(
        &mut self,
        condition: &Expr,
        true_branch: &Vec<Stmt>,
        false_branch: &Vec<Stmt>,
    ) -> (res: Result<(), LowerError>)
        requires
            old(self).wf(),
        ensures
            match res {
                Ok(()) => {
                    &&& stmt_code(
                        Stmt::if_of(*condition, *true_branch, *false_branch),
                        old(self)@,
                    ) matches Ok(c)
                    &&& final(self).lowered(old(self), c)
                    &&& final(self).wf()
                },
                Err(e) => stmt_code(
                    Stmt::if_of(*condition, *true_branch, *false_branch),
                    old(self)@,
                ) == Err::<Code, Fault>(e@),
            },
        decreases Stmt::if_of(*condition, *true_branch, *false_branch), 0int,
    {
        let ghost whole = Stmt::if_of(*condition, *true_branch, *false_branch);
        let ghost base = self.instrs().len() as int;
        let cond = match self.lower_expr(condition) {
            Ok(r) => r,
            Err(e) => {
                return Err(e);
            },
        };
        let ghost v = expr_code(*condition, old(self)@)->Ok_0;
        match self.expect_types_match(&Type::U64, &cond.ty) {
            Ok(()) => {},
            Err(e) => {
                return Err(e);
            },
        }
        let br_idx = self.body.instrs.len();
        self.emit(Instr::CondBr { label: Label::unresolved(), condition: cond.reg });
        proof {
            lemma_expr_shape(*condition, old(self)@);
            lemma_step(v.env);
        }
        let ghost at_no = *self;
        match self.lower_block(false_branch) {
            Ok(()) => {},
            Err(e) => {
                return Err(e);
            },
        }
        let ghost no = block_code(false_branch@, v.env.step())->Ok_0;
        let skip_br_idx = self.body.instrs.len();
        self.emit(Instr::Br { label: Label::unresolved() });
        proof {
            lemma_block_shape(false_branch@, v.env.step());
            lemma_step(no.env);
        }
        let true_branch_top = match self.next_label() {
            Ok(l) => l,
            Err(e) => {
                return Err(e);
            },
        };
        proof {
            lemma_mark(no.env.step());
        }
        let ghost e1 = self@;
        let ghost at_yes = *self;
        match self.lower_block(true_branch) {
            Ok(()) => {},
            Err(e) => {
                return Err(e);
            },
        }
        let ghost yes = block_code(true_branch@, e1)->Ok_0;
        proof {
            lemma_block_shape(true_branch@, e1);
        }
        let true_branch_bottom = match self.next_label() {
            Ok(l) => l,
            Err(e) => {
                return Err(e);
            },
        };
        proof {
            lemma_mark(yes.env);
        }
        self.body.instrs[br_idx] = Instr::CondBr { label: true_branch_top, condition: cond.reg };
        self.body.instrs[skip_br_idx] = Instr::Br { label: true_branch_bottom };
        proof {
            let c = stmt_code(whole, old(self)@)->Ok_0;
            let jump = Instr::CondBr { label: true_branch_top, condition: cond.reg };
            let skip = Instr::Br { label: true_branch_bottom };
            assert(c.instrs == v.instrs.push(jump) + no.instrs.push(skip) + yes.instrs);
            assert(self.instrs() =~= old(self).instrs() + c.instrs);
            lemma_stmt_shape(whole, old(self)@);
            // the open breaks of the whole are those of the two branches
            let cond_part = v.instrs.push(jump);
            let no_part = no.instrs.push(skip);
            let base_no = base + cond_part.len();
            let base_yes = base_no + no_part.len();
            lemma_straight(v.instrs, v.env, true);
            lemma_open_breaks_none(v.instrs, base);
            lemma_open_breaks_one(jump, base + v.instrs.len());
            lemma_open_breaks_one(skip, base_no + no.instrs.len());
            assert(cond_part =~= v.instrs + seq![jump]);
            assert(no_part =~= no.instrs + seq![skip]);
            lemma_open_breaks_concat(v.instrs, seq![jump], base);
            lemma_open_breaks_concat(no.instrs, seq![skip], base_no);
            lemma_open_breaks_concat(cond_part, no_part, base);
            lemma_open_breaks_concat(cond_part + no_part, yes.instrs, base);
            assert(open_breaks(c.instrs, base) =~= open_breaks(no.instrs, base_no) + open_breaks(
                yes.instrs,
                base_yes,
            ));
            lemma_extended_twice(
                old(self).fixups(),
                open_breaks(no.instrs, base_no),
                open_breaks(yes.instrs, base_yes),
            );
        }
        Ok(())
    }

    /// Lowers a block: its statements in order, in a scope of their own.
    pub fn lower_block(&mut self, block: &Vec<Stmt>) -> (res: Result<(), LowerError>)
        requires
            old(self).wf(),
        ensures
            match res {
                Ok(()) => {
                    &&& block_code(block@, old(self)@) matches Ok(c)
                    &&& final(self).lowered(old(self), c)
                    &&& final(self).wf()
                },
                Err(e) => block_code(block@, old(self)@) == Err::<Code, Fault>(e@),
            },
        decreases *block, 0int,
    {
        let ghost base = self.instrs().len() as int;
        self.open_scope();
        let ghost inner = old(self)@.push_scope();
        proof {
            lemma_push_scope(old(self)@);
            assert(self.instrs() =~= old(self).instrs() + Seq::<Instr>::empty());
            lemma_extended_none(old(self).fixups());
        }
        let mut i: usize = 0;
        while i < block.len()
            invariant
                0 <= i <= block.len(),
                inner == old(self)@.push_scope(),
                inner.inv(),
                inner.scopes.len() > 0,
                base == old(self).instrs().len(),
                self.wf(),
                self.scopes@.len() > 0,
                stmts_code(block@.take(i as int), inner) matches Ok(c) && self.lowered(
                    old(self),
                    c,
                ),
            decreases block.len() - i,
        {
            let ghost before = stmts_code(block@.take(i as int), inner)->Ok_0;
            let ghost mid = *self;
            proof {
                assert(block@.take(i + 1).drop_last() =~= block@.take(i as int));
                assert(block@.take(i + 1).last() == block@[i as int]);
            }
            match self.lower_stmt(&block[i]) {
                Ok(()) => {},
                Err(e) => {
                    proof {
                        lemma_stmts_fail(block@, inner, i + 1);
                    }
                    return Err(e);
                },
            }
            proof {
                let last = stmt_code(block@[i as int], before.env)->Ok_0;
                lemma_stmts_shape(block@.take(i as int), inner);
                lemma_stmt_shape(block@[i as int], before.env);
                lemma_open_breaks_concat(before.instrs, last.instrs, base);
                lemma_extended_twice(
                    old(self).fixups(),
                    open_breaks(before.instrs, base),
                    open_breaks(last.instrs, base + before.instrs.len()),
                );
                assert(self.instrs() =~= old(self).instrs() + (before.instrs + last.instrs));
            }
            i += 1;
        }
        proof {
            assert(block@.take(i as int) =~= block@);
            lemma_block_shape(block@, old(self)@);
        }
        self.close_scope();
        Ok(())
    }

    /// Lowers the block of a procedure and hands out the body.
    pub fn lower_proc(self, stmts: &Vec<Stmt>) -> (res: Result<Body, LowerError>)
        requires
            self.wf(),
        ensures
            match res {
                Ok(body) => {
                    &&& block_code(stmts@, self@) matches Ok(c)
                    &&& body@.instrs == self.instrs() + c.instrs
                    &&& body@.marks == c.env.marks
                },
                Err(e) => block_code(stmts@, self@) == Err::<Code, Fault>(e@),
            },
    {
        let mut ctx = self;
        match ctx.lower_block(stmts) {
            Ok(()) => Ok(ctx.body),
            Err(e) => Err(e),
        }
    }

    /// Fails unless the two types are the same.
    pub fn expect_types_match(&self, ty_1: &Type, ty_2: &Type) -> (res: Result<(), LowerError>)
        ensures
            res is Ok <==> *ty_1 == *ty_2,
            res matches Err(e) ==> e@ == Fault::TypeMismatch,
    {
        if *ty_1 == *ty_2 {
            Ok(())
        } else {
            Err(LowerError::TypeMismatch)
        }
    }
}

/// Lowers a program: each procedure on its own, from a context of its own.
/// Every body that comes out is closed: no branch is left with the
/// placeholder label, every branch targets a label of the body, every label
/// marks one position, and every register that is read was written before.
pub fn lower(ast: &[Item]) -> (res: Result<Mir, LowerError>)
    ensures
        match res {
            Ok(mir) => {
                &&& program_code(ast@) == Ok::<Map<Seq<char>, BodyView>, Fault>(mir@)
                &&& mir.wf()
                &&& forall|name: Seq<char>| #[trigger]
                    mir@.contains_key(name) ==> mir@[name].closed()
            },
            Err(e) => program_code(ast@) == Err::<Map<Seq<char>, BodyView>, Fault>(e@),
        },
{
    let mut mir = Mir::new();
    let mut i: usize = 0;
    while i < ast.len()
        invariant
            0 <= i <= ast.len(),
            mir.wf(),
            program_code(ast@.take(i as int)) == Ok::<Map<Seq<char>, BodyView>, Fault>(mir@),
            forall|name: Seq<char>| #[trigger] mir@.contains_key(name) ==> mir@[name].closed(),
        decreases ast.len() - i,
    {
        proof {
            assert(ast@.take(i + 1).drop_last() =~= ast@.take(i as int));
            assert(ast@.take(i + 1).last() == ast@[i as int]);
        }
        match &ast[i] {
            Item::Proc { name, body } => {
                let ctx = LowerCtx::new();
                let lowered = match ctx.lower_proc(body) {
                    Ok(b) => b,
                    Err(e) => {
                        proof {
                            lemma_program_fails(ast@, i + 1);
                        }
                        return Err(e);
                    },
                };
                proof {
                    lemma_body_closed(body@);
                    assert(lowered@ =~= proc_code(body@)->Ok_0) by {
                        let c = block_code(body@, Env::start())->Ok_0;
                        assert(Seq::<Instr>::empty() + c.instrs =~= c.instrs);
                    }
                }
                mir.insert(name.clone(), lowered);
            },
        }
        i += 1;
    }
    proof {
        assert(ast@.take(i as int) =~= ast@);
    }
    Ok(mir)
}

} // verus!
