//! What holds of every lowered body, proved from the account of lowering.

use crate::ast::{
    block_breaks, block_jumps_enclosed, stmt_jumps_enclosed, Expr, Item, Stmt, Type,
};
use crate::mir::{BodyView, Instr, Label, Reg};
use crate::model::{
    block_code, expr_code, local_def_code, lookup, proc_code, program_code, stmt_code,
    stmts_code, Code, Env, Fault, Value,
};
use crate::regs::{lemma_block_regs, write_ok, written_before};
use crate::shape::{
    lemma_block_shape, lemma_enter_loop, lemma_expr_shape, lemma_leave_loop, lemma_mark,
    lemma_push_scope, lemma_step, lemma_stmts_shape,
};
use crate::targets::{branch_ok, lemma_block_targets};
use vstd::prelude::*;

verus! {

impl BodyView {
    /// Whether no branch is left with the placeholder label.
    pub open spec fn settled(self) -> bool {
        forall|i: int|
            0 <= i < self.instrs.len() ==> (#[trigger] self.instrs[i]).target() != Some(
                Label::placeholder(),
            )
    }

    /// Whether label `l` marks a position of the body: an instruction, or
    /// the bottom.
    pub open spec fn placed(self, l: Label) -> bool {
        exists|k: nat|
            #[trigger] self.marks.contains_key(k) && k <= self.instrs.len() && self.marks[k] == l
    }

    /// Whether every branch targets a label that marks a position of the
    /// body.
    pub open spec fn targets_placed(self) -> bool {
        forall|i: int|
            0 <= i < self.instrs.len() ==> ((#[trigger] self.instrs[i]).target() matches Some(t)
                ==> self.placed(t))
    }

    /// Whether every label marks a position of the body, and no label
    /// marks two.
    pub open spec fn labels_distinct(self) -> bool {
        &&& forall|k: nat| #[trigger] self.marks.contains_key(k) ==> k <= self.instrs.len()
        &&& forall|j: nat, k: nat|
            #[trigger] self.marks.contains_key(j) && #[trigger] self.marks.contains_key(k)
                && self.marks[j] == self.marks[k] ==> j == k
    }

    /// Whether every register that an instruction reads is written by an
    /// instruction before it.
    pub open spec fn operands_defined(self) -> bool {
        forall|i: int, r: Reg|
            0 <= i < self.instrs.len() && (#[trigger] self.instrs[i].reads(r)) ==> written_before(
                self.instrs,
                i,
                r,
            )
    }

    /// Whether every register is written once, and after that only by
    /// copies into it.
    pub open spec fn written_once(self) -> bool {
        forall|i: int, j: int|
            0 <= i < j < self.instrs.len() && (#[trigger] self.instrs[i]).dst() is Some
                && self.instrs[i].dst() == (#[trigger] self.instrs[j]).dst()
                ==> self.instrs[j] is Store
    }

    /// Whether the body is closed: its branches are settled and target
    /// labels of the body, its labels are distinct, its operands are
    /// defined, and its registers are written once but for copies.
    pub open spec fn closed(self) -> bool {
        &&& self.settled()
        &&& self.targets_placed()
        &&& self.labels_distinct()
        &&& self.operands_defined()
        &&& self.written_once()
    }
}

/// After lowering, no `Br` and no `CondBr` of a body carries the
/// placeholder label.
pub proof fn lemma_body_settled(body: Seq<Stmt>)
    requires
        proc_code(body) is Ok,
    ensures
        proc_code(body)->Ok_0.settled(),
{
    let c = block_code(body, Env::start())->Ok_0;
    lemma_block_targets(body, Env::start());
    assert forall|i: int| 0 <= i < c.instrs.len() implies (#[trigger] c.instrs[i]).target()
        != Some(Label::placeholder()) by {
        assert(branch_ok(c.instrs[i], c.env, false));
    }
}

/// After lowering, every branch of a body targets a label of the body's
/// label map, and that label sits at an instruction's index or at the
/// body's length.
pub proof fn lemma_body_targets_placed(body: Seq<Stmt>)
    requires
        proc_code(body) is Ok,
    ensures
        proc_code(body)->Ok_0.targets_placed(),
{
    let c = block_code(body, Env::start())->Ok_0;
    let b = proc_code(body)->Ok_0;
    lemma_block_targets(body, Env::start());
    lemma_block_shape(body, Env::start());
    assert forall|i: int| 0 <= i < b.instrs.len() implies ((#[trigger] b.instrs[i]).target() matches Some(
        t,
    ) ==> b.placed(t)) by {
        assert(branch_ok(c.instrs[i], c.env, false));
        match b.instrs[i].target() {
            None => {},
            Some(t) => {
                let k = choose|k: nat| #[trigger] c.env.marks.contains_key(k) && c.env.marks[k] == t;
                assert(b.marks.contains_key(k) && k <= b.instrs.len() && b.marks[k] == t);
            },
        }
    }
}

/// After lowering, every label of a body marks one position of the body.
pub proof fn lemma_body_labels_distinct(body: Seq<Stmt>)
    requires
        proc_code(body) is Ok,
    ensures
        proc_code(body)->Ok_0.labels_distinct(),
{
    lemma_block_shape(body, Env::start());
}

/// After lowering, every register that an instruction of a body reads was
/// written by an instruction before it.
pub proof fn lemma_body_operands_defined(body: Seq<Stmt>)
    requires
        proc_code(body) is Ok,
    ensures
        proc_code(body)->Ok_0.operands_defined(),
{
    lemma_block_regs(body, Env::start());
}

/// A statement that can be lowered has every `break` and every `continue`
/// inside a loop.
pub proof fn lemma_stmt_jumps_enclosed(s: Stmt, env: Env)
    requires
        env.inv(),
        s is LocalDef ==> env.scopes.len() > 0,
        stmt_code(s, env) is Ok,
    ensures
        stmt_jumps_enclosed(s, env.loop_tops.len() > 0),
    decreases s, 0int,
{
    match s {
        Stmt::Loop { stmts } => {
            lemma_mark(env);
            let (top, e1) = env.mark()->Ok_0;
            lemma_enter_loop(e1, top);
            lemma_block_jumps_enclosed(stmts@, e1.enter_loop(top));
        },
        Stmt::If { condition, true_branch, false_branch } => {
            lemma_expr_shape(condition, env);
            let v = expr_code(condition, env)->Ok_0;
            lemma_step(v.env);
            lemma_block_shape(false_branch@, v.env.step());
            lemma_block_jumps_enclosed(false_branch@, v.env.step());
            let no = block_code(false_branch@, v.env.step())->Ok_0;
            lemma_step(no.env);
            lemma_mark(no.env.step());
            let (true_top, e1) = no.env.step().mark()->Ok_0;
            lemma_block_jumps_enclosed(true_branch@, e1);
        },
        _ => {},
    }
}

/// Statements in a row that can be lowered have every `break` and every
/// `continue` inside a loop.
pub proof fn lemma_stmts_jumps_enclosed(ss: Seq<Stmt>, env: Env)
    requires
        env.inv(),
        env.scopes.len() > 0,
        stmts_code(ss, env) is Ok,
    ensures
        block_jumps_enclosed(ss, env.loop_tops.len() > 0),
    decreases ss, 1int,
{
    if ss.len() > 0 {
        let front = ss.drop_last();
        lemma_stmts_jumps_enclosed(front, env);
        lemma_stmts_shape(front, env);
        let before = stmts_code(front, env)->Ok_0;
        lemma_stmt_jumps_enclosed(ss.last(), before.env);
        assert forall|i: int| 0 <= i < ss.len() implies stmt_jumps_enclosed(
            #[trigger] ss[i],
            env.loop_tops.len() > 0,
        ) by {
            if i < front.len() {
                assert(stmt_jumps_enclosed(front[i], env.loop_tops.len() > 0));
            }
        }
    }
}

/// A block that can be lowered has every `break` and every `continue`
/// inside a loop.
pub proof fn lemma_block_jumps_enclosed(ss: Seq<Stmt>, env: Env)
    requires
        env.inv(),
        block_code(ss, env) is Ok,
    ensures
        block_jumps_enclosed(ss, env.loop_tops.len() > 0),
    decreases ss, 2int,
{
    lemma_push_scope(env);
    lemma_stmts_jumps_enclosed(ss, env.push_scope());
}

/// A procedure body that can be lowered has every `break` and every
/// `continue` inside a loop of the body.
pub proof fn lemma_body_jumps_enclosed(body: Seq<Stmt>)
    requires
        proc_code(body) is Ok,
    ensures
        block_jumps_enclosed(body, false),
{
    lemma_block_jumps_enclosed(body, Env::start());
}

/// `var name ty = value` binds the name to a register that was handed out
/// for this statement, and the last instruction of the statement writes
/// that register. Where the value is another local, the statement is the
/// copy of that local's register into the new one.
pub proof fn lemma_local_def_binds_fresh(name: Seq<char>, value: Expr, ty: Type, env: Env)
    requires
        env.inv(),
        env.scopes.len() > 0,
        local_def_code(name, value, ty, env) is Ok,
    ensures
        ({
            let c = local_def_code(name, value, ty, env)->Ok_0;
            &&& lookup(c.env.scopes, name) matches Some((reg, bound_ty))
            &&& bound_ty == ty
            &&& env.next_reg <= reg.0
            &&& reg.0 + 1 == c.env.next_reg
            &&& c.instrs.len() > 0
            &&& c.instrs.last().dst() == Some(reg)
            &&& value matches Expr::Local(other) ==> lookup(env.scopes, other@) matches Some(
                (src, _),
            ) && c.instrs == seq![Instr::Store { dst: reg, src }]
        }),
{
    lemma_expr_shape(value, env);
    let v = expr_code(value, env)->Ok_0;
    let c = local_def_code(name, value, ty, env)->Ok_0;
    if !v.fresh {
        let (dst, e1) = v.env.fresh_reg()->Ok_0;
        assert(c.instrs =~= seq![Instr::Store { dst, src: v.reg }]);
    }
}

/// A loop gets a label at its bottom exactly if its body has a `break` of
/// this loop.
pub proof fn lemma_loop_bottom(stmts: Vec<Stmt>, env: Env)
    requires
        env.inv(),
        stmt_code(Stmt::loop_of(stmts), env) is Ok,
    ensures
        ({
            let c = stmt_code(Stmt::loop_of(stmts), env)->Ok_0;
            c.env.marks.contains_key(c.env.at) <==> block_breaks(stmts@)
        }),
{
    lemma_mark(env);
    let (top, e1) = env.mark()->Ok_0;
    lemma_enter_loop(e1, top);
    lemma_block_shape(stmts@, e1.enter_loop(top));
    let b = block_code(stmts@, e1.enter_loop(top))->Ok_0;
    lemma_step(b.env);
    lemma_leave_loop(b.env.step());
    if block_breaks(stmts@) {
        lemma_mark(b.env.step().leave_loop());
    }
}

/// Asking twice for the label of one position gives one label: the second
/// request finds the label of the first and changes nothing.
pub proof fn lemma_mark_twice(env: Env)
    requires
        env.mark() is Ok,
    ensures
        env.mark()->Ok_0.1.mark() == Ok::<(Label, Env), Fault>(env.mark()->Ok_0),
{
}

/// After lowering, an instruction that writes a register which an earlier
/// instruction wrote is a copy into that register.
pub proof fn lemma_body_written_once(body: Seq<Stmt>)
    requires
        proc_code(body) is Ok,
    ensures
        proc_code(body)->Ok_0.written_once(),
{
    let b = proc_code(body)->Ok_0;
    let hi = block_code(body, Env::start())->Ok_0.env.next_reg;
    lemma_block_regs(body, Env::start());
    assert forall|i: int, j: int|
        0 <= i < j < b.instrs.len() && (#[trigger] b.instrs[i]).dst() is Some && b.instrs[i].dst()
            == (#[trigger] b.instrs[j]).dst() implies b.instrs[j] is Store by {
        assert(write_ok(b.instrs, j, 0, hi));
    }
}

/// Every body of a lowered procedure is closed.
pub proof fn lemma_body_closed(body: Seq<Stmt>)
    requires
        proc_code(body) is Ok,
    ensures
        proc_code(body)->Ok_0.closed(),
{
    lemma_body_settled(body);
    lemma_body_targets_placed(body);
    lemma_body_labels_distinct(body);
    lemma_body_operands_defined(body);
    lemma_body_written_once(body);
}

/// Where the first procedures of a program cannot be lowered, the program
/// cannot, for the same reason.
pub proof fn lemma_program_fails(items: Seq<Item>, n: int)
    requires
        0 <= n <= items.len(),
        program_code(items.take(n)) is Err,
    ensures
        program_code(items) == program_code(items.take(n)),
    decreases items.len() - n,
{
    if n == items.len() {
        assert(items.take(n) =~= items);
    } else {
        assert(items.take(n + 1).drop_last() =~= items.take(n));
        lemma_program_fails(items, n + 1);
    }
}

/// With one type in the language, no expression fails on its types.
pub proof fn lemma_expr_types_match(e: Expr, env: Env)
    ensures
        expr_code(e, env) != Err::<Value, Fault>(Fault::TypeMismatch),
    decreases e,
{
    match e {
        Expr::Add(lhs, rhs) => {
            lemma_expr_types_match(*lhs, env);
            if expr_code(*lhs, env) is Ok {
                lemma_expr_types_match(*rhs, expr_code(*lhs, env)->Ok_0.env);
            }
        },
        Expr::Equal(lhs, rhs) => {
            lemma_expr_types_match(*lhs, env);
            if expr_code(*lhs, env) is Ok {
                lemma_expr_types_match(*rhs, expr_code(*lhs, env)->Ok_0.env);
            }
        },
        _ => {},
    }
}

/// With one type in the language, no statement fails on its types.
pub proof fn lemma_stmt_types_match(s: Stmt, env: Env)
    ensures
        stmt_code(s, env) != Err::<Code, Fault>(Fault::TypeMismatch),
    decreases s, 0int,
{
    match s {
        Stmt::LocalDef { name, value, ty } => {
            lemma_expr_types_match(value, env);
        },
        Stmt::LocalSet { name, new_value } => {
            lemma_expr_types_match(new_value, env);
        },
        Stmt::Loop { stmts } => {
            if env.mark() is Ok {
                let (top, e1) = env.mark()->Ok_0;
                lemma_block_types_match(stmts@, e1.enter_loop(top));
            }
        },
        Stmt::If { condition, true_branch, false_branch } => {
            lemma_expr_types_match(condition, env);
            if expr_code(condition, env) is Ok {
                let v = expr_code(condition, env)->Ok_0;
                lemma_block_types_match(false_branch@, v.env.step());
                if block_code(false_branch@, v.env.step()) is Ok {
                    let no = block_code(false_branch@, v.env.step())->Ok_0;
                    if no.env.step().mark() is Ok {
                        lemma_block_types_match(true_branch@, no.env.step().mark()->Ok_0.1);
                    }
                }
            }
        },
        _ => {},
    }
}

/// With one type in the language, no statements in a row fail on their
/// types.
pub proof fn lemma_stmts_types_match(ss: Seq<Stmt>, env: Env)
    ensures
        stmts_code(ss, env) != Err::<Code, Fault>(Fault::TypeMismatch),
    decreases ss, 1int,
{
    if ss.len() > 0 {
        lemma_stmts_types_match(ss.drop_last(), env);
        if stmts_code(ss.drop_last(), env) is Ok {
            lemma_stmt_types_match(ss.last(), stmts_code(ss.drop_last(), env)->Ok_0.env);
        }
    }
}

/// With one type in the language, no block fails on its types.
pub proof fn lemma_block_types_match(ss: Seq<Stmt>, env: Env)
    ensures
        block_code(ss, env) != Err::<Code, Fault>(Fault::TypeMismatch),
    decreases ss, 2int,
{
    lemma_stmts_types_match(ss, env.push_scope());
}

/// With one type in the language, no program fails on its types.
pub proof fn lemma_program_types_match(items: Seq<Item>)
    ensures
        program_code(items) != Err::<Map<Seq<char>, BodyView>, Fault>(Fault::TypeMismatch),
    decreases items.len(),
{
    if items.len() > 0 {
        lemma_program_types_match(items.drop_last());
        match items.last() {
            Item::Proc { name, body } => {
                lemma_block_types_match(body@, Env::start());
            },
        }
    }
}

} // verus!
