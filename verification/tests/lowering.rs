use minic::ast::{Expr, Item, Stmt, Type};
use minic::lower::{lower, LowerCtx, LowerError};
use minic::mir::{Body, Const, Instr, Label, Reg};

fn var(name: &str, value: Expr) -> Stmt {
    Stmt::LocalDef { name: name.to_string(), value, ty: Type::U64 }
}

fn set(name: &str, new_value: Expr) -> Stmt {
    Stmt::LocalSet { name: name.to_string(), new_value }
}

fn local(name: &str) -> Expr {
    Expr::Local(name.to_string())
}

fn add(l: Expr, r: Expr) -> Expr {
    Expr::Add(Box::new(l), Box::new(r))
}

fn equal(l: Expr, r: Expr) -> Expr {
    Expr::Equal(Box::new(l), Box::new(r))
}

fn proc(name: &str, body: Vec<Stmt>) -> Item {
    Item::Proc { name: name.to_string(), body }
}

fn lower_body(body: Vec<Stmt>) -> Body {
    let mut mir = lower(&[proc("f", body)]).unwrap();
    assert_eq!(mir.bodies.len(), 1);
    let (name, body) = mir.bodies.pop().unwrap();
    assert_eq!(name, "f");
    body
}

fn lower_err(body: Vec<Stmt>) -> LowerError {
    match lower(&[proc("f", body)]) {
        Ok(_) => panic!("lowering succeeded"),
        Err(e) => e,
    }
}

fn store_const(dst: u32, value: u64) -> Instr {
    Instr::StoreConst { dst: Reg(dst), value: Const(value) }
}

fn br(label: u32) -> Instr {
    Instr::Br { label: Label(label) }
}

/// The labels of a body as sorted pairs of position and label.
fn labels(body: &Body) -> Vec<(usize, u32)> {
    let mut all: Vec<(usize, u32)> = body.labels.iter().map(|(k, l)| (*k, l.0)).collect();
    all.sort();
    all
}

#[test]
fn bare_constant() {
    let body = lower_body(vec![var("x", Expr::Int(5))]);
    assert_eq!(body.instrs, vec![store_const(0, 5)]);
    assert!(body.labels.is_empty());
}

#[test]
fn bare_constant_binds_its_register() {
    let mut ctx = LowerCtx::new();
    ctx.open_scope();
    ctx.lower_stmt(&var("x", Expr::Int(5))).unwrap();
    assert_eq!(ctx.lookup_in_scope("x"), Ok((Reg(0), Type::U64)));
    assert_eq!(ctx.body.instrs, vec![store_const(0, 5)]);
}

#[test]
fn rebinding_forces_copy() {
    let body = lower_body(vec![var("x", Expr::Int(5)), var("y", local("x"))]);
    assert_eq!(
        body.instrs,
        vec![store_const(0, 5), Instr::Store { dst: Reg(1), src: Reg(0) }]
    );
    assert!(body.labels.is_empty());
}

#[test]
fn rebinding_binds_both_names() {
    let mut ctx = LowerCtx::new();
    ctx.open_scope();
    ctx.lower_stmt(&var("x", Expr::Int(5))).unwrap();
    ctx.lower_stmt(&var("y", local("x"))).unwrap();
    assert_eq!(ctx.lookup_in_scope("x"), Ok((Reg(0), Type::U64)));
    assert_eq!(ctx.lookup_in_scope("y"), Ok((Reg(1), Type::U64)));
}

#[test]
fn assignment_mutates_in_place() {
    let body = lower_body(vec![
        var("x", Expr::Int(1)),
        set("x", add(local("x"), Expr::Int(2))),
    ]);
    assert_eq!(
        body.instrs,
        vec![
            store_const(0, 1),
            store_const(1, 2),
            Instr::Add { dst: Reg(2), lhs: Reg(0), rhs: Reg(1) },
            Instr::Store { dst: Reg(0), src: Reg(2) },
        ]
    );
}

#[test]
fn loop_with_break() {
    let body = lower_body(vec![Stmt::Loop { stmts: vec![Stmt::Break] }]);
    assert_eq!(body.instrs, vec![br(1), br(0)]);
    assert_eq!(labels(&body), vec![(0, 0), (2, 1)]);
}

#[test]
fn loop_without_break_has_no_bottom() {
    let body = lower_body(vec![Stmt::Loop { stmts: vec![] }]);
    assert_eq!(body.instrs, vec![br(0)]);
    assert_eq!(labels(&body), vec![(0, 0)]);
}

#[test]
fn if_else() {
    let body = lower_body(vec![Stmt::If {
        condition: equal(Expr::Int(1), Expr::Int(2)),
        true_branch: vec![var("a", Expr::Int(3))],
        false_branch: vec![var("b", Expr::Int(4))],
    }]);
    assert_eq!(
        body.instrs,
        vec![
            store_const(0, 1),
            store_const(1, 2),
            Instr::CmpEq { dst: Reg(2), lhs: Reg(0), rhs: Reg(1) },
            Instr::CondBr { label: Label(0), condition: Reg(2) },
            store_const(3, 4),
            br(1),
            store_const(4, 3),
        ]
    );
    assert_eq!(labels(&body), vec![(6, 0), (7, 1)]);
}

#[test]
fn continue_targets_nearest_loop_top() {
    let body = lower_body(vec![Stmt::Loop {
        stmts: vec![
            var("x", Expr::Int(0)),
            Stmt::Loop { stmts: vec![Stmt::Continue] },
        ],
    }]);
    assert_eq!(body.instrs, vec![store_const(0, 0), br(1), br(1), br(0)]);
    assert_eq!(labels(&body), vec![(0, 0), (1, 1)]);
}

#[test]
fn nested_loops_at_one_position_share_their_top() {
    let body = lower_body(vec![Stmt::Loop {
        stmts: vec![Stmt::Loop { stmts: vec![Stmt::Continue] }],
    }]);
    assert_eq!(body.instrs, vec![br(0), br(0), br(0)]);
    assert_eq!(labels(&body), vec![(0, 0)]);
}

#[test]
fn empty_if_puts_both_labels_at_one_position() {
    let body = lower_body(vec![
        var("c", Expr::Int(1)),
        Stmt::If { condition: local("c"), true_branch: vec![], false_branch: vec![] },
    ]);
    assert_eq!(
        body.instrs,
        vec![
            store_const(0, 1),
            Instr::CondBr { label: Label(0), condition: Reg(0) },
            br(0),
        ]
    );
    assert_eq!(labels(&body), vec![(3, 0)]);
}

#[test]
fn loop_after_if_reuses_the_label_at_its_position() {
    let body = lower_body(vec![
        var("c", Expr::Int(1)),
        Stmt::If { condition: local("c"), true_branch: vec![], false_branch: vec![] },
        Stmt::Loop { stmts: vec![] },
    ]);
    assert_eq!(
        body.instrs,
        vec![
            store_const(0, 1),
            Instr::CondBr { label: Label(0), condition: Reg(0) },
            br(0),
            br(0),
        ]
    );
    assert_eq!(labels(&body), vec![(3, 0)]);
}

#[test]
fn break_inside_if_leaves_the_loop_around_it() {
    let body = lower_body(vec![Stmt::Loop {
        stmts: vec![
            var("c", Expr::Int(1)),
            Stmt::If {
                condition: local("c"),
                true_branch: vec![Stmt::Break],
                false_branch: vec![],
            },
        ],
    }]);
    assert_eq!(
        body.instrs,
        vec![
            store_const(0, 1),
            Instr::CondBr { label: Label(1), condition: Reg(0) },
            br(2),
            br(3),
            br(0),
        ]
    );
    assert_eq!(labels(&body), vec![(0, 0), (3, 1), (4, 2), (5, 3)]);
}

#[test]
fn inner_break_leaves_the_inner_loop_only() {
    let body = lower_body(vec![Stmt::Loop {
        stmts: vec![Stmt::Loop { stmts: vec![Stmt::Break] }],
    }]);
    assert_eq!(body.instrs, vec![br(1), br(0), br(0)]);
    assert_eq!(labels(&body), vec![(0, 0), (2, 1)]);
}

#[test]
fn next_label_twice_at_one_position_is_one_label() {
    let mut ctx = LowerCtx::new();
    let first = ctx.next_label().unwrap();
    let second = ctx.next_label().unwrap();
    assert_eq!(first, Label(0));
    assert_eq!(second, first);
    ctx.emit(br(0));
    assert_eq!(ctx.next_label(), Ok(Label(1)));
}

#[test]
fn next_reg_counts_from_zero() {
    let mut ctx = LowerCtx::new();
    assert_eq!(ctx.next_reg(), Ok(Reg(0)));
    assert_eq!(ctx.next_reg(), Ok(Reg(1)));
}

#[test]
fn counters_stop_before_they_wrap() {
    let mut ctx = LowerCtx::new();
    ctx.current_reg = Reg(u32::MAX);
    ctx.current_label = Label(u32::MAX);
    assert_eq!(ctx.next_reg(), Err(LowerError::OutOfRegisters));
    assert_eq!(ctx.next_label(), Err(LowerError::OutOfLabels));
}

#[test]
fn inner_scope_shadows_and_ends() {
    let body = lower_body(vec![
        var("x", Expr::Int(1)),
        Stmt::If {
            condition: local("x"),
            true_branch: vec![],
            false_branch: vec![var("x", Expr::Int(2)), set("x", Expr::Int(3))],
        },
        set("x", Expr::Int(4)),
    ]);
    assert_eq!(
        body.instrs,
        vec![
            store_const(0, 1),
            Instr::CondBr { label: Label(0), condition: Reg(0) },
            store_const(1, 2),
            store_const(2, 3),
            Instr::Store { dst: Reg(1), src: Reg(2) },
            br(0),
            store_const(3, 4),
            Instr::Store { dst: Reg(0), src: Reg(3) },
        ]
    );
}

#[test]
fn redefinition_in_one_scope_rebinds() {
    let mut ctx = LowerCtx::new();
    ctx.open_scope();
    ctx.lower_stmt(&var("x", Expr::Int(1))).unwrap();
    ctx.lower_stmt(&var("x", Expr::Int(2))).unwrap();
    assert_eq!(ctx.lookup_in_scope("x"), Ok((Reg(1), Type::U64)));
}

#[test]
fn definitions_do_not_escape_their_block() {
    let err = lower_err(vec![
        Stmt::Loop { stmts: vec![var("x", Expr::Int(1)), Stmt::Break] },
        set("x", Expr::Int(2)),
    ]);
    assert_eq!(err, LowerError::UndefinedVariable("x".to_string()));
}

#[test]
fn undefined_variable_is_reported_by_name() {
    assert_eq!(
        lower_err(vec![var("x", local("y"))]),
        LowerError::UndefinedVariable("y".to_string())
    );
    assert_eq!(
        lower_err(vec![set("z", Expr::Int(1))]),
        LowerError::UndefinedVariable("z".to_string())
    );
}

#[test]
fn assignment_looks_the_name_up_before_the_value() {
    assert_eq!(
        lower_err(vec![set("z", local("y"))]),
        LowerError::UndefinedVariable("z".to_string())
    );
}

#[test]
fn break_outside_loop_is_refused() {
    assert_eq!(lower_err(vec![Stmt::Break]), LowerError::BreakOutsideLoop);
    assert_eq!(
        lower_err(vec![
            var("c", Expr::Int(1)),
            Stmt::If {
                condition: local("c"),
                true_branch: vec![Stmt::Break],
                false_branch: vec![],
            },
        ]),
        LowerError::BreakOutsideLoop
    );
}

#[test]
fn continue_outside_loop_is_refused() {
    assert_eq!(lower_err(vec![Stmt::Continue]), LowerError::ContinueOutsideLoop);
}

#[test]
fn types_that_match_are_accepted() {
    let ctx = LowerCtx::new();
    assert_eq!(ctx.expect_types_match(&Type::U64, &Type::U64), Ok(()));
}

#[test]
fn operands_are_lowered_left_before_right() {
    let body = lower_body(vec![var(
        "x",
        add(add(Expr::Int(1), Expr::Int(2)), equal(Expr::Int(3), Expr::Int(4))),
    )]);
    assert_eq!(
        body.instrs,
        vec![
            store_const(0, 1),
            store_const(1, 2),
            Instr::Add { dst: Reg(2), lhs: Reg(0), rhs: Reg(1) },
            store_const(3, 3),
            store_const(4, 4),
            Instr::CmpEq { dst: Reg(5), lhs: Reg(3), rhs: Reg(4) },
            Instr::Add { dst: Reg(6), lhs: Reg(2), rhs: Reg(5) },
        ]
    );
}

#[test]
fn procedures_are_lowered_independently() {
    let mir = lower(&[
        proc("f", vec![var("x", Expr::Int(1)), Stmt::Loop { stmts: vec![] }]),
        proc("g", vec![var("y", Expr::Int(2)), Stmt::Loop { stmts: vec![] }]),
    ])
    .unwrap();
    let f = mir.get("f").unwrap();
    let g = mir.get("g").unwrap();
    assert_eq!(f.instrs, vec![store_const(0, 1), br(0)]);
    assert_eq!(g.instrs, vec![store_const(0, 2), br(0)]);
    assert!(mir.get("h").is_none());
}

#[test]
fn later_procedure_of_one_name_wins() {
    let mir = lower(&[
        proc("f", vec![var("x", Expr::Int(1))]),
        proc("g", vec![]),
        proc("f", vec![var("x", Expr::Int(2))]),
    ])
    .unwrap();
    assert_eq!(mir.bodies.len(), 2);
    assert_eq!(mir.get("f").unwrap().instrs, vec![store_const(0, 2)]);
    assert!(mir.get("g").unwrap().instrs.is_empty());
}

#[test]
fn first_failing_procedure_decides_the_error() {
    let res = lower(&[
        proc("f", vec![]),
        proc("g", vec![Stmt::Continue]),
        proc("h", vec![Stmt::Break]),
    ]);
    assert_eq!(res.err(), Some(LowerError::ContinueOutsideLoop));
}

#[test]
fn lowering_is_deterministic() {
    let program = || {
        vec![proc(
            "f",
            vec![
                var("x", Expr::Int(1)),
                Stmt::Loop {
                    stmts: vec![
                        Stmt::If {
                            condition: equal(local("x"), Expr::Int(10)),
                            true_branch: vec![Stmt::Break],
                            false_branch: vec![set("x", add(local("x"), Expr::Int(1)))],
                        },
                        Stmt::Continue,
                    ],
                },
            ],
        )]
    };
    let a = lower(&program()).unwrap();
    let b = lower(&program()).unwrap();
    let (a, b) = (a.get("f").unwrap(), b.get("f").unwrap());
    assert_eq!(a.instrs, b.instrs);
    assert_eq!(labels(a), labels(b));
}

#[test]
fn lowered_body_is_closed() {
    let body = lower_body(vec![
        var("x", Expr::Int(1)),
        Stmt::Loop {
            stmts: vec![
                Stmt::If {
                    condition: equal(local("x"), Expr::Int(10)),
                    true_branch: vec![Stmt::Break],
                    false_branch: vec![set("x", add(local("x"), Expr::Int(1)))],
                },
                Stmt::Continue,
            ],
        },
    ]);
    let placed: Vec<u32> = body.labels.values().map(|l| l.0).collect();
    let mut written: Vec<u32> = Vec::new();
    for instr in &body.instrs {
        let (reads, writes, target) = match *instr {
            Instr::StoreConst { dst, .. } => (vec![], Some(dst), None),
            Instr::Store { dst, src } => (vec![src], Some(dst), None),
            Instr::Br { label } => (vec![], None, Some(label)),
            Instr::CondBr { label, condition } => (vec![condition], None, Some(label)),
            Instr::Add { dst, lhs, rhs } => (vec![lhs, rhs], Some(dst), None),
            Instr::CmpEq { dst, lhs, rhs } => (vec![lhs, rhs], Some(dst), None),
        };
        for r in reads {
            assert!(written.contains(&r.0));
        }
        if let Some(d) = writes {
            written.push(d.0);
        }
        if let Some(l) = target {
            assert!(!l.is_placeholder());
            assert!(placed.contains(&l.0));
        }
    }
    for position in body.labels.keys() {
        assert!(*position <= body.instrs.len());
    }
}

#[test]
fn lower_loop_marks_top_and_bottom() {
    let mut ctx = LowerCtx::new();
    ctx.lower_loop(&vec![Stmt::Break, Stmt::Continue]).unwrap();
    assert_eq!(ctx.body.instrs, vec![br(1), br(0), br(0)]);
    assert_eq!(labels(&ctx.body), vec![(0, 0), (3, 1)]);
    assert!(ctx.loop_tops.is_empty());
    assert!(ctx.break_fixups.is_empty());
    assert_eq!(ctx.current_label, Label(2));
}

#[test]
fn lower_if_patches_both_branches() {
    let mut ctx = LowerCtx::new();
    ctx.lower_if(&Expr::Int(1), &vec![], &vec![]).unwrap();
    assert_eq!(
        ctx.body.instrs,
        vec![
            store_const(0, 1),
            Instr::CondBr { label: Label(0), condition: Reg(0) },
            br(0),
        ]
    );
    assert_eq!(labels(&ctx.body), vec![(3, 0)]);
}

#[test]
fn lower_block_closes_its_scope() {
    let mut ctx = LowerCtx::new();
    ctx.lower_block(&vec![var("x", Expr::Int(1))]).unwrap();
    assert!(ctx.scopes.is_empty());
    assert_eq!(
        ctx.lookup_in_scope("x"),
        Err(LowerError::UndefinedVariable("x".to_string()))
    );
    assert_eq!(ctx.current_reg, Reg(1));
}

#[test]
fn lower_proc_hands_out_the_body() {
    let body = LowerCtx::new()
        .lower_proc(&vec![var("x", Expr::Int(7)), var("y", local("x"))])
        .unwrap();
    assert_eq!(
        body.instrs,
        vec![store_const(0, 7), Instr::Store { dst: Reg(1), src: Reg(0) }]
    );
    assert_eq!(
        LowerCtx::new().lower_proc(&vec![Stmt::Break]).err(),
        Some(LowerError::BreakOutsideLoop)
    );
}

#[test]
fn lower_local_def_and_set_work_on_the_innermost_binding() {
    let mut ctx = LowerCtx::new();
    ctx.open_scope();
    ctx.lower_local_def("x", &Expr::Int(1), &Type::U64).unwrap();
    ctx.open_scope();
    ctx.lower_local_def("x", &local("x"), &Type::U64).unwrap();
    ctx.lower_local_set("x", &Expr::Int(9)).unwrap();
    assert_eq!(ctx.lookup_in_scope("x"), Ok((Reg(1), Type::U64)));
    ctx.close_scope();
    assert_eq!(ctx.lookup_in_scope("x"), Ok((Reg(0), Type::U64)));
    assert_eq!(
        ctx.body.instrs,
        vec![
            store_const(0, 1),
            Instr::Store { dst: Reg(1), src: Reg(0) },
            store_const(2, 9),
            Instr::Store { dst: Reg(1), src: Reg(2) },
        ]
    );
}

#[test]
fn lower_expr_says_whether_it_allocated() {
    let mut ctx = LowerCtx::new();
    ctx.open_scope();
    ctx.insert_in_scope("a".to_string(), Reg(5), Type::U64);
    let bare = ctx.lower_expr(&local("a")).unwrap();
    assert_eq!((bare.reg, bare.ty, bare.did_allocate_new_reg), (Reg(5), Type::U64, false));
    assert!(ctx.body.instrs.is_empty());
    let sum = ctx.lower_expr(&add(local("a"), local("a"))).unwrap();
    assert_eq!((sum.reg, sum.ty, sum.did_allocate_new_reg), (Reg(0), Type::U64, true));
    assert_eq!(ctx.body.instrs, vec![Instr::Add { dst: Reg(0), lhs: Reg(5), rhs: Reg(5) }]);
}

#[test]
fn a_register_is_written_again_only_by_a_copy() {
    let body = lower_body(vec![
        var("x", Expr::Int(1)),
        var("y", local("x")),
        set("x", add(local("x"), local("y"))),
        set("y", local("x")),
    ]);
    let mut written: Vec<u32> = Vec::new();
    for instr in &body.instrs {
        let dst = match *instr {
            Instr::StoreConst { dst, .. } | Instr::Add { dst, .. } | Instr::CmpEq { dst, .. } => {
                assert!(!written.contains(&dst.0));
                dst
            }
            Instr::Store { dst, .. } => dst,
            Instr::Br { .. } | Instr::CondBr { .. } => continue,
        };
        written.push(dst.0);
    }
    assert_eq!(written, vec![0, 1, 2, 0, 1]);
}

#[test]
fn mir_insert_replaces_in_place() {
    let mut mir = minic::mir::Mir::new();
    mir.insert("f".to_string(), Body::new());
    mir.insert("g".to_string(), Body::new());
    let mut second = Body::new();
    second.instrs.push(br(0));
    mir.insert("f".to_string(), second);
    assert_eq!(mir.bodies.len(), 2);
    assert_eq!(mir.bodies[0].0, "f");
    assert_eq!(mir.get("f").unwrap().instrs, vec![br(0)]);
    assert!(mir.get("g").unwrap().instrs.is_empty());
}

#[test]
fn placeholder_is_the_largest_label() {
    assert!(Label::unresolved().is_placeholder());
    assert_eq!(Label::unresolved(), Label(u32::MAX));
    assert!(!Label(0).is_placeholder());
}
