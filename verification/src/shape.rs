//! The invariant of lowering environments, and the proof that the code of
//! every construct keeps it.

use crate::ast::{block_breaks, Expr, Stmt, Type};
use crate::mir::{Label, Reg};
use crate::model::{
    block_code, expr_code, lookup, stmt_code, stmts_code, Code, Env, Frame, Value,
};
use vstd::prelude::*;

verus! {

impl Env {
    /// Whether some position carries label `l`.
    pub open spec fn marked(self, l: Label) -> bool {
        exists|k: nat| #[trigger] self.marks.contains_key(k) && self.marks[k] == l
    }

    /// What holds of every environment that lowering reaches: the counters
    /// fit their identifiers, every label was handed out and sits at one
    /// position not past the current one, the top of every open loop is
    /// placed, and every bound register was handed out.
    pub open spec fn inv(self) -> bool {
        &&& self.next_reg <= u32::MAX
        &&& self.next_label <= u32::MAX
        &&& forall|k: nat| #[trigger]
            self.marks.contains_key(k) ==> k <= self.at && self.marks[k].0 < self.next_label
        &&& forall|j: nat, k: nat|
            #[trigger] self.marks.contains_key(j) && #[trigger] self.marks.contains_key(k)
                && self.marks[j] == self.marks[k] ==> j == k
        &&& forall|i: int|
            0 <= i < self.loop_tops.len() ==> self.marked(#[trigger] self.loop_tops[i])
        &&& forall|i: int, name: Seq<char>|
            0 <= i < self.scopes.len() && #[trigger] self.scopes[i].contains_key(name)
                ==> self.scopes[i][name].0.0 < self.next_reg
    }

    /// Whether `later` can come after this environment: the position and the
    /// counters have not gone back, every label is where it was, and the
    /// open loops are the same.
    pub open spec fn leads_to(self, later: Env) -> bool {
        &&& self.at <= later.at
        &&& self.next_reg <= later.next_reg
        &&& self.next_label <= later.next_label
        &&& self.marks.submap_of(later.marks)
        &&& self.loop_tops == later.loop_tops
    }
}

/// Marks that stay through two stretches stay through both.
pub proof fn lemma_marks_trans(a: Map<nat, Label>, b: Map<nat, Label>, c: Map<nat, Label>)
    requires
        a.submap_of(b),
        b.submap_of(c),
    ensures
        a.submap_of(c),
{
    assert forall|k: nat| #[trigger] a.dom().contains(k) implies c.dom().contains(k) && a[k]
        == c[k] by {
        assert(b.dom().contains(k));
    }
}

/// What can come after what can come after, can come after.
pub proof fn lemma_leads_to_trans(a: Env, b: Env, c: Env)
    requires
        a.leads_to(b),
        b.leads_to(c),
    ensures
        a.leads_to(c),
{
    assert(a.marks.submap_of(c.marks)) by {
        assert forall|k: nat| #[trigger] a.marks.dom().contains(k) implies c.marks.dom().contains(k)
            && a.marks[k] == c.marks[k] by {
            assert(b.marks.dom().contains(k));
        }
    }
}

/// A label that is placed stays placed.
pub proof fn lemma_marked_later(a: Env, b: Env, l: Label)
    requires
        a.marks.submap_of(b.marks),
        a.marked(l),
    ensures
        b.marked(l),
{
    let k = choose|k: nat| #[trigger] a.marks.contains_key(k) && a.marks[k] == l;
    assert(b.marks.contains_key(k) && b.marks[k] == l);
}

/// A lookup that succeeds finds a register that was handed out.
pub proof fn lemma_lookup_bound(env: Env, name: Seq<char>)
    requires
        env.inv(),
        lookup(env.scopes, name) is Some,
    ensures
        lookup(env.scopes, name)->Some_0.0.0 < env.next_reg,
{
    lemma_lookup_in(env.scopes, name, env.next_reg);
}

proof fn lemma_lookup_in(scopes: Seq<Frame>, name: Seq<char>, bound: nat)
    requires
        forall|i: int, n: Seq<char>|
            0 <= i < scopes.len() && #[trigger] scopes[i].contains_key(n) ==> scopes[i][n].0.0
                < bound,
        lookup(scopes, name) is Some,
    ensures
        lookup(scopes, name)->Some_0.0.0 < bound,
    decreases scopes.len(),
{
    if scopes.last().contains_key(name) {
    } else {
        lemma_lookup_in(scopes.drop_last(), name, bound);
    }
}

/// Marking the current position keeps the invariant, and the label it
/// yields is placed at the current position and is not the placeholder.
pub proof fn lemma_mark(env: Env)
    requires
        env.inv(),
        env.mark() is Ok,
    ensures
        ({
            let (l, e) = env.mark()->Ok_0;
            &&& e.inv()
            &&& env.leads_to(e)
            &&& e.at == env.at
            &&& e.next_reg == env.next_reg
            &&& e.scopes == env.scopes
            &&& e.marks.contains_key(e.at)
            &&& e.marks[e.at] == l
            &&& e.marked(l)
            &&& l != Label::placeholder()
        }),
{
    let (l, e) = env.mark()->Ok_0;
    assert(e.marks.contains_key(e.at));
    assert forall|i: int| 0 <= i < e.loop_tops.len() implies e.marked(
        #[trigger] e.loop_tops[i],
    ) by {
        lemma_marked_later(env, e, env.loop_tops[i]);
    }
}

/// Moving on by one instruction keeps the invariant.
pub proof fn lemma_step(env: Env)
    requires
        env.inv(),
    ensures
        env.step().inv(),
        env.leads_to(env.step()),
{
    let e = env.step();
    assert forall|i: int| 0 <= i < e.loop_tops.len() implies e.marked(
        #[trigger] e.loop_tops[i],
    ) by {
        lemma_marked_later(env, e, env.loop_tops[i]);
    }
}

/// Opening a scope keeps the invariant.
pub proof fn lemma_push_scope(env: Env)
    requires
        env.inv(),
    ensures
        env.push_scope().inv(),
        env.push_scope().scopes.len() > 0,
        env.push_scope().pop_scope() == env,
{
    let e = env.push_scope();
    assert(e.scopes.drop_last() =~= env.scopes);
    assert forall|i: int| 0 <= i < e.loop_tops.len() implies e.marked(
        #[trigger] e.loop_tops[i],
    ) by {
        lemma_marked_later(env, e, env.loop_tops[i]);
    }
}

/// Entering a loop whose top is placed keeps the invariant.
pub proof fn lemma_enter_loop(env: Env, top: Label)
    requires
        env.inv(),
        env.marked(top),
    ensures
        env.enter_loop(top).inv(),
        env.enter_loop(top).leave_loop() == env,
{
    let e = env.enter_loop(top);
    assert(e.loop_tops.drop_last() =~= env.loop_tops);
    assert forall|i: int| 0 <= i < e.loop_tops.len() implies e.marked(
        #[trigger] e.loop_tops[i],
    ) by {
        if i < env.loop_tops.len() {
            lemma_marked_later(env, e, env.loop_tops[i]);
        }
    }
}

/// Leaving the innermost loop keeps the invariant.
pub proof fn lemma_leave_loop(env: Env)
    requires
        env.inv(),
        env.loop_tops.len() > 0,
    ensures
        env.leave_loop().inv(),
{
    let e = env.leave_loop();
    assert forall|i: int| 0 <= i < e.loop_tops.len() implies e.marked(
        #[trigger] e.loop_tops[i],
    ) by {
        lemma_marked_later(env, e, env.loop_tops[i]);
    }
}

/// Where statements in a row fail, more statements after them fail the
/// same way.
pub proof fn lemma_stmts_fail(ss: Seq<Stmt>, env: Env, n: int)
    requires
        0 <= n <= ss.len(),
        stmts_code(ss.take(n), env) is Err,
    ensures
        stmts_code(ss, env) == stmts_code(ss.take(n), env),
    decreases ss.len() - n,
{
    if n == ss.len() {
        assert(ss.take(n) =~= ss);
    } else {
        assert(ss.take(n + 1).drop_last() =~= ss.take(n));
        lemma_stmts_fail(ss, env, n + 1);
    }
}

/// The shape of an expression's code: it moves the position by its length,
/// may hand out registers, and changes nothing else.
pub open spec fn value_shape(env: Env, v: Value) -> bool {
    &&& v.env.inv()
    &&& v.env == Env { at: env.at + v.instrs.len(), next_reg: v.env.next_reg, ..env }
    &&& env.next_reg <= v.env.next_reg
    &&& v.reg.0 < v.env.next_reg
    &&& forall|i: int| 0 <= i < v.instrs.len() ==> (#[trigger] v.instrs[i]).target() is None
    &&& if v.fresh {
        &&& v.instrs.len() > 0
        &&& v.instrs.last().dst() == Some(v.reg)
        &&& env.next_reg <= v.reg.0
        &&& v.reg.0 + 1 == v.env.next_reg
    } else {
        &&& v.instrs.len() == 0
        &&& v.env == env
    }
}

/// The code of an expression has the shape of a value.
pub proof fn lemma_expr_shape(e: Expr, env: Env)
    requires
        env.inv(),
        expr_code(e, env) is Ok,
    ensures
        value_shape(env, expr_code(e, env)->Ok_0),
    decreases e,
{
    let v = expr_code(e, env)->Ok_0;
    match e {
        Expr::Local(name) => {
            lemma_lookup_bound(env, name@);
        },
        Expr::Int(k) => {
            let (dst, e1) = env.fresh_reg()->Ok_0;
            lemma_step(e1);
        },
        Expr::Add(lhs, rhs) => {
            lemma_expr_shape(*lhs, env);
            let l = expr_code(*lhs, env)->Ok_0;
            lemma_expr_shape(*rhs, l.env);
            let r = expr_code(*rhs, l.env)->Ok_0;
            let (dst, e1) = r.env.fresh_reg()->Ok_0;
            lemma_step(e1);
        },
        Expr::Equal(lhs, rhs) => {
            lemma_expr_shape(*lhs, env);
            let l = expr_code(*lhs, env)->Ok_0;
            lemma_expr_shape(*rhs, l.env);
            let r = expr_code(*rhs, l.env)->Ok_0;
            let (dst, e1) = r.env.fresh_reg()->Ok_0;
            lemma_step(e1);
        },
    }
}

/// The shape of a statement's code: it moves the position by its length,
/// keeps the invariant, and touches no scope but the innermost.
pub open spec fn code_shape(env: Env, c: Code) -> bool {
    &&& c.env.inv()
    &&& env.leads_to(c.env)
    &&& c.env.at == env.at + c.instrs.len()
    &&& c.env.scopes.len() == env.scopes.len()
    &&& c.env.scopes.drop_last() == env.scopes.drop_last()
}

/// Binding a register that was handed out keeps the invariant.
pub proof fn lemma_define(env: Env, name: Seq<char>, reg: Reg, ty: Type)
    requires
        env.inv(),
        env.scopes.len() > 0,
        reg.0 < env.next_reg,
    ensures
        env.define(name, reg, ty).inv(),
        env.leads_to(env.define(name, reg, ty)),
        env.define(name, reg, ty).scopes.len() == env.scopes.len(),
        env.define(name, reg, ty).scopes.drop_last() == env.scopes.drop_last(),
        env.define(name, reg, ty).at == env.at,
{
    let e = env.define(name, reg, ty);
    assert(e.scopes.drop_last() =~= env.scopes.drop_last());
    assert forall|i: int| 0 <= i < e.loop_tops.len() implies e.marked(
        #[trigger] e.loop_tops[i],
    ) by {
        lemma_marked_later(env, e, env.loop_tops[i]);
    }
}

/// The code of a statement has the shape of code.
pub proof fn lemma_stmt_shape(s: Stmt, env: Env)
    requires
        env.inv(),
        s is LocalDef ==> env.scopes.len() > 0,
        stmt_code(s, env) is Ok,
    ensures
        code_shape(env, stmt_code(s, env)->Ok_0),
    decreases s, 0int,
{
    let c = stmt_code(s, env)->Ok_0;
    match s {
        Stmt::LocalDef { name, value, ty } => {
            lemma_expr_shape(value, env);
            let v = expr_code(value, env)->Ok_0;
            if v.fresh {
                lemma_define(v.env, name@, v.reg, v.ty);
            } else {
                let (dst, e1) = v.env.fresh_reg()->Ok_0;
                lemma_step(e1);
                lemma_define(e1.step(), name@, dst, v.ty);
                lemma_leads_to_trans(env, e1.step(), c.env);
                assert(e1.scopes == env.scopes);
            }
        },
        Stmt::LocalSet { name, new_value } => {
            lemma_expr_shape(new_value, env);
            let v = expr_code(new_value, env)->Ok_0;
            lemma_step(v.env);
        },
        Stmt::Loop { stmts } => {
            lemma_mark(env);
            let (top, e1) = env.mark()->Ok_0;
            let e2 = e1.enter_loop(top);
            lemma_enter_loop(e1, top);
            lemma_block_shape(stmts@, e2);
            let b = block_code(stmts@, e2)->Ok_0;
            lemma_step(b.env);
            let after = b.env.step().leave_loop();
            lemma_leave_loop(b.env.step());
            assert(after.loop_tops =~= e1.loop_tops);
            lemma_marks_trans(env.marks, e1.marks, after.marks);
            if block_breaks(stmts@) {
                lemma_mark(after);
                lemma_marks_trans(env.marks, after.marks, c.env.marks);
            }
        },
        Stmt::If { condition, true_branch, false_branch } => {
            lemma_expr_shape(condition, env);
            let v = expr_code(condition, env)->Ok_0;
            lemma_step(v.env);
            lemma_block_shape(false_branch@, v.env.step());
            let no = block_code(false_branch@, v.env.step())->Ok_0;
            lemma_step(no.env);
            lemma_mark(no.env.step());
            let (true_top, e1) = no.env.step().mark()->Ok_0;
            lemma_block_shape(true_branch@, e1);
            let yes = block_code(true_branch@, e1)->Ok_0;
            lemma_mark(yes.env);
            lemma_marks_trans(env.marks, no.env.marks, e1.marks);
            lemma_marks_trans(env.marks, e1.marks, yes.env.marks);
            lemma_marks_trans(env.marks, yes.env.marks, c.env.marks);
        },
        Stmt::Break => {
            lemma_step(env);
        },
        Stmt::Continue => {
            lemma_step(env);
        },
    }
}

/// The code of statements in a row has the shape of code.
pub proof fn lemma_stmts_shape(ss: Seq<Stmt>, env: Env)
    requires
        env.inv(),
        env.scopes.len() > 0,
        stmts_code(ss, env) is Ok,
    ensures
        code_shape(env, stmts_code(ss, env)->Ok_0),
    decreases ss, 1int,
{
    if ss.len() > 0 {
        lemma_stmts_shape(ss.drop_last(), env);
        let before = stmts_code(ss.drop_last(), env)->Ok_0;
        lemma_stmt_shape(ss.last(), before.env);
        let last = stmt_code(ss.last(), before.env)->Ok_0;
        lemma_leads_to_trans(env, before.env, last.env);
    }
}

/// The code of a block has the shape of code, and leaves the scopes as
/// they were.
pub proof fn lemma_block_shape(ss: Seq<Stmt>, env: Env)
    requires
        env.inv(),
        block_code(ss, env) is Ok,
    ensures
        code_shape(env, block_code(ss, env)->Ok_0),
        block_code(ss, env)->Ok_0.env.scopes == env.scopes,
    decreases ss, 2int,
{
    let inner = env.push_scope();
    lemma_push_scope(env);
    lemma_stmts_shape(ss, inner);
    let c = stmts_code(ss, inner)->Ok_0;
    let out = c.env.pop_scope();
    assert(inner.scopes.drop_last() =~= env.scopes);
    assert(out.inv()) by {
        assert forall|i: int| 0 <= i < out.loop_tops.len() implies out.marked(
            #[trigger] out.loop_tops[i],
        ) by {
            lemma_marked_later(env, out, env.loop_tops[i]);
        }
    }
}

} // verus!
