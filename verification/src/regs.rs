//! Which registers lowered code reads: only registers that were handed out
//! before the code, or that an earlier instruction of the code writes.

use crate::ast::{block_breaks, Expr, Stmt};
use crate::mir::{Instr, Label, Reg};
use crate::model::{
    binary, block_code, close_breaks, expr_code, join, stmt_code, stmts_code, Env, Value,
};
use crate::shape::{
    lemma_block_shape, lemma_enter_loop, lemma_expr_shape, lemma_leave_loop,
    lemma_lookup_bound, lemma_mark, lemma_push_scope, lemma_step, lemma_stmt_shape, lemma_stmts_shape, value_shape,
};
use vstd::prelude::*;

verus! {

/// Whether one of the first `i` instructions writes register `r`.
pub open spec fn written_before(instrs: Seq<Instr>, i: int, r: Reg) -> bool {
    exists|j: int| 0 <= j < i && j < instrs.len() && (#[trigger] instrs[j]).dst() == Some(r)
}

/// Whether an instruction writes as it may at its place: a register below
/// `hi`, and, unless it is a copy, one from `lo` on that no instruction
/// before it writes.
pub open spec fn write_ok(instrs: Seq<Instr>, i: int, lo: nat, hi: nat) -> bool {
    instrs[i].dst() matches Some(r) ==> r.0 < hi && (!(instrs[i] is Store) ==> lo <= r.0
        && !written_before(instrs, i, r))
}

/// Whether the code reads no register but those below `lo` and those that
/// it has written by then, writes every register from `lo` up to `hi`, and
/// writes a register a second time only to copy into it.
pub open spec fn regs_ok(instrs: Seq<Instr>, lo: nat, hi: nat) -> bool {
    &&& forall|i: int, r: Reg|
        0 <= i < instrs.len() && (#[trigger] instrs[i].reads(r)) ==> r.0 < lo || written_before(
            instrs,
            i,
            r,
        )
    &&& forall|r: Reg| lo <= r.0 < hi ==> #[trigger] written_before(instrs, instrs.len() as int, r)
    &&& forall|i: int| 0 <= i < instrs.len() ==> #[trigger] write_ok(instrs, i, lo, hi)
}

/// No code reads and writes nothing.
pub proof fn lemma_regs_none(lo: nat)
    ensures
        regs_ok(Seq::empty(), lo, lo),
{
}

/// One instruction that reads registers below `lo` only, and writes
/// register `lo` if `hi` is above it, or else copies into a register below
/// `lo` or writes none.
pub proof fn lemma_regs_one(i: Instr, lo: nat, hi: nat)
    requires
        forall|r: Reg| i.reads(r) ==> r.0 < lo,
        (hi == lo && (i.dst() matches Some(r) ==> i is Store && r.0 < lo)) || (hi == lo + 1
            && i.dst() == Some(Reg(lo as u32)) && lo <= u32::MAX),
    ensures
        regs_ok(seq![i], lo, hi),
{
    assert forall|r: Reg| lo <= r.0 < hi implies #[trigger] written_before(seq![i], 1, r) by {
        assert(seq![i][0].dst() == Some(r));
    }
    assert(write_ok(seq![i], 0, lo, hi));
}

/// Two pieces of code in a row, the second of which starts where the first
/// ends.
pub proof fn lemma_regs_concat(a: Seq<Instr>, b: Seq<Instr>, lo: nat, mid: nat, hi: nat)
    requires
        regs_ok(a, lo, mid),
        regs_ok(b, mid, hi),
        lo <= mid <= hi,
    ensures
        regs_ok(a + b, lo, hi),
{
    let ab = a + b;
    assert forall|i: int, r: Reg| 0 <= i < ab.len() && (#[trigger] ab[i].reads(r)) implies r.0 < lo
        || written_before(ab, i, r) by {
        if i < a.len() {
            assert(a[i].reads(r));
            if r.0 >= lo {
                let j = choose|j: int|
                    0 <= j < i && j < a.len() && (#[trigger] a[j]).dst() == Some(r);
                assert(ab[j].dst() == Some(r));
            }
        } else {
            assert(b[i - a.len()].reads(r));
            if r.0 < mid {
                if r.0 >= lo {
                    assert(written_before(a, a.len() as int, r));
                    let j = choose|j: int|
                        0 <= j < a.len() && j < a.len() && (#[trigger] a[j]).dst() == Some(r);
                    assert(ab[j].dst() == Some(r));
                }
            } else {
                let j = choose|j: int|
                    0 <= j < i - a.len() && j < b.len() && (#[trigger] b[j]).dst() == Some(r);
                assert(ab[a.len() + j].dst() == Some(r));
            }
        }
    }
    assert forall|i: int| 0 <= i < ab.len() implies #[trigger] write_ok(ab, i, lo, hi) by {
        match ab[i].dst() {
            None => {},
            Some(r) => {
                if i < a.len() {
                    assert(write_ok(a, i, lo, mid));
                    if written_before(ab, i, r) {
                        let j = choose|j: int|
                            0 <= j < i && j < ab.len() && (#[trigger] ab[j]).dst() == Some(r);
                        assert(a[j].dst() == Some(r));
                    }
                } else {
                    assert(write_ok(b, i - a.len(), mid, hi));
                    if !(ab[i] is Store) && written_before(ab, i, r) {
                        let j = choose|j: int|
                            0 <= j < i && j < ab.len() && (#[trigger] ab[j]).dst() == Some(r);
                        if j < a.len() {
                            assert(write_ok(a, j, lo, mid));
                        } else {
                            assert(b[j - a.len()].dst() == Some(r));
                        }
                    }
                }
            },
        }
    }
    assert forall|r: Reg| lo <= r.0 < hi implies #[trigger] written_before(
        ab,
        ab.len() as int,
        r,
    ) by {
        if r.0 < mid {
            assert(written_before(a, a.len() as int, r));
            let j = choose|j: int|
                0 <= j < a.len() && j < a.len() && (#[trigger] a[j]).dst() == Some(r);
            assert(ab[j].dst() == Some(r));
        } else {
            assert(written_before(b, b.len() as int, r));
            let j = choose|j: int|
                0 <= j < b.len() && j < b.len() && (#[trigger] b[j]).dst() == Some(r);
            assert(ab[a.len() + j].dst() == Some(r));
        }
    }
}

/// Closing the open `break`s changes no register that is read or written.
pub proof fn lemma_regs_close(a: Seq<Instr>, to: Label, lo: nat, hi: nat)
    requires
        regs_ok(a, lo, hi),
    ensures
        regs_ok(close_breaks(a, to), lo, hi),
{
    let c = close_breaks(a, to);
    assert forall|i: int| 0 <= i < a.len() implies (#[trigger] c[i]).dst() == a[i].dst() by {}
    assert forall|i: int| 0 <= i < c.len() implies #[trigger] write_ok(c, i, lo, hi) by {
        assert(write_ok(a, i, lo, hi));
        match c[i].dst() {
            None => {},
            Some(r) => {
                assert(c[i] == a[i]);
                if written_before(c, i, r) {
                    let j = choose|j: int|
                        0 <= j < i && j < c.len() && (#[trigger] c[j]).dst() == Some(r);
                    assert(a[j].dst() == Some(r));
                }
            },
        }
    }
    assert forall|i: int, r: Reg| 0 <= i < c.len() && (#[trigger] c[i].reads(r)) implies r.0 < lo
        || written_before(c, i, r) by {
        assert(a[i].reads(r));
        if r.0 >= lo {
            let j = choose|j: int| 0 <= j < i && j < a.len() && (#[trigger] a[j]).dst() == Some(r);
            assert(c[j].dst() == Some(r));
        }
    }
    assert forall|r: Reg| lo <= r.0 < hi implies #[trigger] written_before(
        c,
        c.len() as int,
        r,
    ) by {
        assert(written_before(a, a.len() as int, r));
        let j = choose|j: int|
            0 <= j < a.len() && j < a.len() && (#[trigger] a[j]).dst() == Some(r);
        assert(c[j].dst() == Some(r));
    }
}

/// The code of an operation on two operands reads and writes as it should.
proof fn lemma_join_regs(sum: bool, env: Env, l: Value, mid: Env, r: Value)
    requires
        value_shape(env, l),
        value_shape(l.env, r),
        regs_ok(l.instrs, env.next_reg, l.env.next_reg),
        regs_ok(r.instrs, l.env.next_reg, r.env.next_reg),
        join(sum, l, Ok(r)) is Ok,
    ensures
        regs_ok(join(sum, l, Ok(r))->Ok_0.instrs, env.next_reg, join(sum, l, Ok(r))->Ok_0.env.next_reg),
{
    let v = join(sum, l, Ok(r))->Ok_0;
    let (dst, e1) = r.env.fresh_reg()->Ok_0;
    let op = binary(sum, dst, l.reg, r.reg);
    lemma_regs_concat(l.instrs, r.instrs, env.next_reg, l.env.next_reg, r.env.next_reg);
    lemma_regs_one(op, r.env.next_reg, r.env.next_reg + 1);
    lemma_regs_concat(
        l.instrs + r.instrs,
        seq![op],
        env.next_reg,
        r.env.next_reg,
        r.env.next_reg + 1,
    );
}

/// The code of an expression reads only registers handed out before it or
/// written earlier in it, and writes every register that it hands out.
pub proof fn lemma_expr_regs(e: Expr, env: Env)
    requires
        env.inv(),
        expr_code(e, env) is Ok,
    ensures
        regs_ok(expr_code(e, env)->Ok_0.instrs, env.next_reg, expr_code(e, env)->Ok_0.env.next_reg),
    decreases e,
{
    let v = expr_code(e, env)->Ok_0;
    lemma_expr_shape(e, env);
    match e {
        Expr::Local(name) => {
            lemma_regs_none(env.next_reg);
        },
        Expr::Int(k) => {
            lemma_regs_one(v.instrs[0], env.next_reg, env.next_reg + 1);
            assert(v.instrs =~= seq![v.instrs[0]]);
        },
        Expr::Add(lhs, rhs) => {
            lemma_expr_shape(*lhs, env);
            lemma_expr_regs(*lhs, env);
            let l = expr_code(*lhs, env)->Ok_0;
            lemma_expr_shape(*rhs, l.env);
            lemma_expr_regs(*rhs, l.env);
            let r = expr_code(*rhs, l.env)->Ok_0;
            lemma_join_regs(true, env, l, l.env, r);
        },
        Expr::Equal(lhs, rhs) => {
            lemma_expr_shape(*lhs, env);
            lemma_expr_regs(*lhs, env);
            let l = expr_code(*lhs, env)->Ok_0;
            lemma_expr_shape(*rhs, l.env);
            lemma_expr_regs(*rhs, l.env);
            let r = expr_code(*rhs, l.env)->Ok_0;
            lemma_join_regs(false, env, l, l.env, r);
        },
    }
}

/// The code of a statement reads only registers handed out before it or
/// written earlier in it, and writes every register that it hands out.
pub proof fn lemma_stmt_regs(s: Stmt, env: Env)
    requires
        env.inv(),
        s is LocalDef ==> env.scopes.len() > 0,
        stmt_code(s, env) is Ok,
    ensures
        regs_ok(stmt_code(s, env)->Ok_0.instrs, env.next_reg, stmt_code(s, env)->Ok_0.env.next_reg),
    decreases s, 0int,
{
    let c = stmt_code(s, env)->Ok_0;
    let lo = env.next_reg;
    lemma_stmt_shape(s, env);
    match s {
        Stmt::LocalDef { name, value, ty } => {
            lemma_expr_shape(value, env);
            lemma_expr_regs(value, env);
            let v = expr_code(value, env)->Ok_0;
            if !v.fresh {
                let (dst, e1) = v.env.fresh_reg()->Ok_0;
                let copy = Instr::Store { dst, src: v.reg };
                lemma_regs_one(copy, v.env.next_reg, v.env.next_reg + 1);
                lemma_regs_concat(v.instrs, seq![copy], lo, v.env.next_reg, v.env.next_reg + 1);
                assert(c.instrs =~= v.instrs + seq![copy]);
            }
        },
        Stmt::LocalSet { name, new_value } => {
            lemma_expr_shape(new_value, env);
            lemma_expr_regs(new_value, env);
            let v = expr_code(new_value, env)->Ok_0;
            let copy = c.instrs.last();
            lemma_lookup_bound(env, name@);
            lemma_regs_one(copy, v.env.next_reg, v.env.next_reg);
            lemma_regs_concat(v.instrs, seq![copy], lo, v.env.next_reg, v.env.next_reg);
            assert(c.instrs =~= v.instrs + seq![copy]);
        },
        Stmt::Loop { stmts } => {
            lemma_mark(env);
            let (top, e1) = env.mark()->Ok_0;
            let e2 = e1.enter_loop(top);
            lemma_enter_loop(e1, top);
            lemma_block_shape(stmts@, e2);
            lemma_block_regs(stmts@, e2);
            let b = block_code(stmts@, e2)->Ok_0;
            let hi = b.env.next_reg;
            let back = Instr::Br { label: top };
            lemma_regs_one(back, hi, hi);
            if block_breaks(stmts@) {
                lemma_step(b.env);
                lemma_leave_loop(b.env.step());
                lemma_mark(b.env.step().leave_loop());
                let (bottom, e3) = b.env.step().leave_loop().mark()->Ok_0;
                lemma_regs_close(b.instrs, bottom, lo, hi);
                lemma_regs_concat(close_breaks(b.instrs, bottom), seq![back], lo, hi, hi);
                assert(c.instrs =~= close_breaks(b.instrs, bottom) + seq![back]);
            } else {
                lemma_regs_concat(b.instrs, seq![back], lo, hi, hi);
                assert(c.instrs =~= b.instrs + seq![back]);
            }
        },
        Stmt::If { condition, true_branch, false_branch } => {
            lemma_expr_shape(condition, env);
            lemma_expr_regs(condition, env);
            let v = expr_code(condition, env)->Ok_0;
            lemma_step(v.env);
            lemma_block_shape(false_branch@, v.env.step());
            lemma_block_regs(false_branch@, v.env.step());
            let no = block_code(false_branch@, v.env.step())->Ok_0;
            lemma_step(no.env);
            lemma_mark(no.env.step());
            let (true_top, e1) = no.env.step().mark()->Ok_0;
            lemma_block_shape(true_branch@, e1);
            lemma_block_regs(true_branch@, e1);
            let yes = block_code(true_branch@, e1)->Ok_0;
            lemma_mark(yes.env);
            let (true_bottom, e2) = yes.env.mark()->Ok_0;
            let jump = Instr::CondBr { label: true_top, condition: v.reg };
            let skip = Instr::Br { label: true_bottom };
            let r1 = v.env.next_reg;
            let r2 = no.env.next_reg;
            let r3 = yes.env.next_reg;
            lemma_regs_one(jump, r1, r1);
            lemma_regs_one(skip, r2, r2);
            let with_jump = v.instrs + seq![jump];
            let with_no = with_jump + no.instrs;
            let with_skip = with_no + seq![skip];
            lemma_regs_concat(v.instrs, seq![jump], lo, r1, r1);
            lemma_regs_concat(with_jump, no.instrs, lo, r1, r2);
            lemma_regs_concat(with_no, seq![skip], lo, r2, r2);
            lemma_regs_concat(with_skip, yes.instrs, lo, r2, r3);
            assert(c.instrs =~= with_skip + yes.instrs);
        },
        Stmt::Break => {
            lemma_regs_one(c.instrs[0], lo, lo);
            assert(c.instrs =~= seq![c.instrs[0]]);
        },
        Stmt::Continue => {
            lemma_regs_one(c.instrs[0], lo, lo);
            assert(c.instrs =~= seq![c.instrs[0]]);
        },
    }
}

/// The code of statements in a row reads only registers handed out before
/// it or written earlier in it, and writes every register that it hands out.
pub proof fn lemma_stmts_regs(ss: Seq<Stmt>, env: Env)
    requires
        env.inv(),
        env.scopes.len() > 0,
        stmts_code(ss, env) is Ok,
    ensures
        regs_ok(
            stmts_code(ss, env)->Ok_0.instrs,
            env.next_reg,
            stmts_code(ss, env)->Ok_0.env.next_reg,
        ),
    decreases ss, 1int,
{
    if ss.len() > 0 {
        let front = ss.drop_last();
        lemma_stmts_shape(front, env);
        lemma_stmts_regs(front, env);
        let before = stmts_code(front, env)->Ok_0;
        lemma_stmt_shape(ss.last(), before.env);
        lemma_stmt_regs(ss.last(), before.env);
        let last = stmt_code(ss.last(), before.env)->Ok_0;
        lemma_regs_concat(
            before.instrs,
            last.instrs,
            env.next_reg,
            before.env.next_reg,
            last.env.next_reg,
        );
    } else {
        lemma_regs_none(env.next_reg);
    }
}

/// The code of a block reads only registers handed out before it or written
/// earlier in it, and writes every register that it hands out.
pub proof fn lemma_block_regs(ss: Seq<Stmt>, env: Env)
    requires
        env.inv(),
        block_code(ss, env) is Ok,
    ensures
        regs_ok(
            block_code(ss, env)->Ok_0.instrs,
            env.next_reg,
            block_code(ss, env)->Ok_0.env.next_reg,
        ),
    decreases ss, 2int,
{
    lemma_push_scope(env);
    lemma_stmts_regs(ss, env.push_scope());
}

} // verus!
