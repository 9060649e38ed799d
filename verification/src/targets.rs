//! Where the branches of lowered code go: every branch but an open `break`
//! targets a placed label, and open `break`s are found where the source has
//! them.

use crate::ast::{block_breaks, stmt_breaks, Stmt};
use crate::mir::{Instr, Label};
use crate::model::{block_code, close_breaks, expr_code, stmt_code, stmts_code, Env};
use crate::shape::{
    lemma_block_shape, lemma_enter_loop, lemma_expr_shape, lemma_leave_loop, lemma_mark,
    lemma_marked_later, lemma_marks_trans, lemma_push_scope, lemma_step, lemma_stmt_shape,
    lemma_stmts_shape,
};
use vstd::prelude::*;

verus! {

/// A branch that waits for the bottom label of the loop around it.
pub open spec fn open_break() -> Instr {
    Instr::Br { label: Label::placeholder() }
}

/// Whether some instruction is an open `break`.
pub open spec fn has_open(instrs: Seq<Instr>) -> bool {
    exists|i: int| 0 <= i < instrs.len() && #[trigger] instrs[i] == open_break()
}

/// Whether a branch goes somewhere: to a label that `env` has placed, or,
/// for an open `break` inside a loop, to the bottom that is still to come.
pub open spec fn branch_ok(i: Instr, env: Env, in_loop: bool) -> bool {
    match i.target() {
        None => true,
        Some(t) => if t == Label::placeholder() {
            in_loop && i == open_break()
        } else {
            env.marked(t)
        },
    }
}

/// Whether every branch of the code goes somewhere.
pub open spec fn branches_ok(instrs: Seq<Instr>, env: Env, in_loop: bool) -> bool {
    forall|i: int| 0 <= i < instrs.len() ==> branch_ok(#[trigger] instrs[i], env, in_loop)
}

/// Branches that go somewhere still do so later on.
pub proof fn lemma_branches_later(instrs: Seq<Instr>, a: Env, b: Env, in_loop: bool)
    requires
        branches_ok(instrs, a, in_loop),
        a.marks.submap_of(b.marks),
    ensures
        branches_ok(instrs, b, in_loop),
{
    assert forall|i: int| 0 <= i < instrs.len() implies branch_ok(
        #[trigger] instrs[i],
        b,
        in_loop,
    ) by {
        assert(branch_ok(instrs[i], a, in_loop));
        match instrs[i].target() {
            None => {},
            Some(t) => {
                if t != Label::placeholder() {
                    lemma_marked_later(a, b, t);
                }
            },
        }
    }
}

/// Code without branches has its branches in order, and no open `break`.
pub proof fn lemma_straight(instrs: Seq<Instr>, env: Env, in_loop: bool)
    requires
        forall|i: int| 0 <= i < instrs.len() ==> (#[trigger] instrs[i]).target() is None,
    ensures
        branches_ok(instrs, env, in_loop),
        !has_open(instrs),
{
}

/// The branches of two pieces of code in a row are those of the pieces.
pub proof fn lemma_branches_concat(a: Seq<Instr>, b: Seq<Instr>, env: Env, in_loop: bool)
    ensures
        branches_ok(a + b, env, in_loop) <==> branches_ok(a, env, in_loop) && branches_ok(
            b,
            env,
            in_loop,
        ),
        has_open(a + b) <==> has_open(a) || has_open(b),
{
    if branches_ok(a + b, env, in_loop) {
        assert forall|i: int| 0 <= i < a.len() implies branch_ok(#[trigger] a[i], env, in_loop) by {
            assert((a + b)[i] == a[i]);
        }
        assert forall|i: int| 0 <= i < b.len() implies branch_ok(#[trigger] b[i], env, in_loop) by {
            assert((a + b)[a.len() + i] == b[i]);
        }
    }
    if branches_ok(a, env, in_loop) && branches_ok(b, env, in_loop) {
        assert forall|i: int| 0 <= i < (a + b).len() implies branch_ok(
            #[trigger] (a + b)[i],
            env,
            in_loop,
        ) by {
            if i < a.len() {
                assert((a + b)[i] == a[i]);
            } else {
                assert((a + b)[i] == b[i - a.len()]);
            }
        }
    }
    if has_open(a + b) {
        let i = choose|i: int| 0 <= i < (a + b).len() && #[trigger] (a + b)[i] == open_break();
        if i < a.len() {
            assert(a[i] == open_break());
        } else {
            assert(b[i - a.len()] == open_break());
        }
    }
    if has_open(a) {
        let i = choose|i: int| 0 <= i < a.len() && #[trigger] a[i] == open_break();
        assert((a + b)[i] == open_break());
    }
    if has_open(b) {
        let i = choose|i: int| 0 <= i < b.len() && #[trigger] b[i] == open_break();
        assert((a + b)[a.len() + i] == open_break());
    }
}

/// One branch to a placed label is in order, and no open `break`.
pub proof fn lemma_branch_placed(i: Instr, env: Env, in_loop: bool)
    requires
        env.inv(),
        i.target() matches Some(t) ==> env.marked(t),
    ensures
        branches_ok(seq![i], env, in_loop),
        !has_open(seq![i]),
{
    match i.target() {
        None => {},
        Some(t) => {
            let k = choose|k: nat| #[trigger] env.marks.contains_key(k) && env.marks[k] == t;
            assert(t != Label::placeholder());
        },
    }
}

/// Closing the open `break`s of code whose branches are in order, with a
/// placed label, leaves code whose branches all target placed labels.
pub proof fn lemma_close(instrs: Seq<Instr>, env: Env, to: Label, in_loop: bool)
    requires
        env.inv(),
        branches_ok(instrs, env, true),
        env.marked(to),
    ensures
        branches_ok(close_breaks(instrs, to), env, in_loop),
        !has_open(close_breaks(instrs, to)),
{
    let k = choose|k: nat| #[trigger] env.marks.contains_key(k) && env.marks[k] == to;
    assert(to != Label::placeholder());
    let closed = close_breaks(instrs, to);
    assert forall|i: int| 0 <= i < closed.len() implies branch_ok(
        #[trigger] closed[i],
        env,
        in_loop,
    ) && closed[i] != open_break() by {
        assert(branch_ok(instrs[i], env, true));
        assert(closed[i] == instrs[i].closed(to));
    }
}

/// In the code of a statement every branch goes somewhere, and an open
/// `break` is there exactly if the statement has a `break` that leaves the
/// loop around it.
pub proof fn lemma_stmt_targets(s: Stmt, env: Env)
    requires
        env.inv(),
        s is LocalDef ==> env.scopes.len() > 0,
        stmt_code(s, env) is Ok,
    ensures
        branches_ok(stmt_code(s, env)->Ok_0.instrs, stmt_code(s, env)->Ok_0.env, env.loop_tops.len() > 0),
        has_open(stmt_code(s, env)->Ok_0.instrs) <==> stmt_breaks(s),
    decreases s, 0int,
{
    let c = stmt_code(s, env)->Ok_0;
    let in_loop = env.loop_tops.len() > 0;
    lemma_stmt_shape(s, env);
    match s {
        Stmt::LocalDef { name, value, ty } => {
            lemma_expr_shape(value, env);
            lemma_straight(c.instrs, c.env, in_loop);
        },
        Stmt::LocalSet { name, new_value } => {
            lemma_expr_shape(new_value, env);
            lemma_straight(c.instrs, c.env, in_loop);
        },
        Stmt::Loop { stmts } => {
            lemma_mark(env);
            let (top, e1) = env.mark()->Ok_0;
            let e2 = e1.enter_loop(top);
            lemma_enter_loop(e1, top);
            lemma_block_shape(stmts@, e2);
            lemma_block_targets(stmts@, e2);
            let b = block_code(stmts@, e2)->Ok_0;
            let after = b.env.step().leave_loop();
            let back = Instr::Br { label: top };
            assert(e1.marks.submap_of(c.env.marks)) by {
                assert(e1.marks.submap_of(b.env.marks));
                assert(after.marks == b.env.marks);
                if block_breaks(stmts@) {
                    lemma_step(b.env);
                    lemma_leave_loop(b.env.step());
                    lemma_mark(after);
                    lemma_marks_trans(e1.marks, after.marks, c.env.marks);
                }
            }
            lemma_marked_later(e1, c.env, top);
            lemma_branch_placed(back, c.env, in_loop);
            if block_breaks(stmts@) {
                lemma_mark(after);
                let (bottom, e3) = after.mark()->Ok_0;
                lemma_branches_later(b.instrs, b.env, c.env, true);
                lemma_close(b.instrs, c.env, bottom, in_loop);
                let closed = close_breaks(b.instrs, bottom);
                lemma_branches_concat(closed, seq![back], c.env, in_loop);
                assert(c.instrs =~= closed + seq![back]);
            } else {
                assert(b.instrs.len() >= 0);
                assert forall|i: int| 0 <= i < b.instrs.len() implies branch_ok(
                    #[trigger] b.instrs[i],
                    b.env,
                    in_loop,
                ) by {
                    assert(branch_ok(b.instrs[i], b.env, true));
                }
                lemma_branches_later(b.instrs, b.env, c.env, in_loop);
                lemma_branches_concat(b.instrs, seq![back], c.env, in_loop);
                assert(c.instrs =~= b.instrs + seq![back]);
            }
        },
        Stmt::If { condition, true_branch, false_branch } => {
            lemma_expr_shape(condition, env);
            let v = expr_code(condition, env)->Ok_0;
            lemma_step(v.env);
            lemma_block_shape(false_branch@, v.env.step());
            lemma_block_targets(false_branch@, v.env.step());
            let no = block_code(false_branch@, v.env.step())->Ok_0;
            lemma_step(no.env);
            lemma_mark(no.env.step());
            let (true_top, e1) = no.env.step().mark()->Ok_0;
            lemma_block_shape(true_branch@, e1);
            lemma_block_targets(true_branch@, e1);
            let yes = block_code(true_branch@, e1)->Ok_0;
            lemma_mark(yes.env);
            let (true_bottom, e2) = yes.env.mark()->Ok_0;
            lemma_marks_trans(e1.marks, yes.env.marks, e2.marks);
            lemma_marks_trans(no.env.marks, e1.marks, e2.marks);
            let jump = Instr::CondBr { label: true_top, condition: v.reg };
            let skip = Instr::Br { label: true_bottom };
            lemma_marked_later(e1, e2, true_top);
            lemma_straight(v.instrs, e2, in_loop);
            lemma_branch_placed(jump, e2, in_loop);
            lemma_branches_later(no.instrs, no.env, e2, in_loop);
            lemma_branch_placed(skip, e2, in_loop);
            lemma_branches_later(yes.instrs, yes.env, e2, in_loop);
            let with_jump = v.instrs + seq![jump];
            let with_no = with_jump + no.instrs;
            let with_skip = with_no + seq![skip];
            lemma_branches_concat(v.instrs, seq![jump], e2, in_loop);
            lemma_branches_concat(with_jump, no.instrs, e2, in_loop);
            lemma_branches_concat(with_no, seq![skip], e2, in_loop);
            lemma_branches_concat(with_skip, yes.instrs, e2, in_loop);
            assert(c.instrs =~= with_skip + yes.instrs);
        },
        Stmt::Break => {
            assert(c.instrs[0] == open_break());
        },
        Stmt::Continue => {
            lemma_step(env);
            lemma_marked_later(env, c.env, env.loop_tops.last());
            lemma_branch_placed(Instr::Br { label: env.loop_tops.last() }, c.env, in_loop);
        },
    }
}

/// In the code of statements in a row every branch goes somewhere, and an
/// open `break` is there exactly if one of the statements has a `break` that
/// leaves the loop around them.
pub proof fn lemma_stmts_targets(ss: Seq<Stmt>, env: Env)
    requires
        env.inv(),
        env.scopes.len() > 0,
        stmts_code(ss, env) is Ok,
    ensures
        branches_ok(
            stmts_code(ss, env)->Ok_0.instrs,
            stmts_code(ss, env)->Ok_0.env,
            env.loop_tops.len() > 0,
        ),
        has_open(stmts_code(ss, env)->Ok_0.instrs) <==> block_breaks(ss),
    decreases ss, 1int,
{
    let c = stmts_code(ss, env)->Ok_0;
    let in_loop = env.loop_tops.len() > 0;
    if ss.len() > 0 {
        let front = ss.drop_last();
        lemma_stmts_shape(front, env);
        lemma_stmts_targets(front, env);
        let before = stmts_code(front, env)->Ok_0;
        lemma_stmt_shape(ss.last(), before.env);
        lemma_stmt_targets(ss.last(), before.env);
        let last = stmt_code(ss.last(), before.env)->Ok_0;
        lemma_branches_later(before.instrs, before.env, last.env, in_loop);
        lemma_branches_concat(before.instrs, last.instrs, last.env, in_loop);
        if block_breaks(ss) {
            let i = choose|i: int| 0 <= i < ss.len() && stmt_breaks(#[trigger] ss[i]);
            if i < ss.len() - 1 {
                assert(stmt_breaks(front[i]));
            }
        }
        if block_breaks(front) {
            let i = choose|i: int| 0 <= i < front.len() && stmt_breaks(#[trigger] front[i]);
            assert(stmt_breaks(ss[i]));
        }
        if stmt_breaks(ss.last()) {
            assert(stmt_breaks(ss[ss.len() - 1]));
        }
    }
}

/// In the code of a block every branch goes somewhere, and an open `break`
/// is there exactly if the block has a `break` that leaves the loop around
/// it.
pub proof fn lemma_block_targets(ss: Seq<Stmt>, env: Env)
    requires
        env.inv(),
        block_code(ss, env) is Ok,
    ensures
        branches_ok(
            block_code(ss, env)->Ok_0.instrs,
            block_code(ss, env)->Ok_0.env,
            env.loop_tops.len() > 0,
        ),
        has_open(block_code(ss, env)->Ok_0.instrs) <==> block_breaks(ss),
    decreases ss, 2int,
{
    let inner = env.push_scope();
    lemma_push_scope(env);
    lemma_stmts_targets(ss, inner);
    let c = stmts_code(ss, inner)->Ok_0;
    lemma_branches_later(c.instrs, c.env, c.env.pop_scope(), env.loop_tops.len() > 0);
}

} // verus!
