use minic::ast::{Expr, Item, Stmt, Type};
use minic::lower::lower;
use minic::mir::{Const, Instr, Label, Reg};
use minic::render::decimal_string;

fn var(name: &str, value: Expr) -> Stmt {
    Stmt::LocalDef { name: name.to_string(), value, ty: Type::U64 }
}

fn proc(name: &str, body: Vec<Stmt>) -> Item {
    Item::Proc { name: name.to_string(), body }
}

#[test]
fn numbers_print_in_decimal() {
    assert_eq!(decimal_string(0), "0");
    assert_eq!(decimal_string(7), "7");
    assert_eq!(decimal_string(10), "10");
    assert_eq!(decimal_string(1234567890), "1234567890");
    assert_eq!(decimal_string(u64::MAX), "18446744073709551615");
}

#[test]
fn operands_print_plain() {
    assert_eq!(Reg(12).render(false), "%12");
    assert_eq!(Label(3).render(false), "#3");
    assert_eq!(Const(42).render(false), "42");
}

#[test]
fn operands_print_in_colour() {
    assert_eq!(Reg(12).render(true), "\x1b[34m%12\x1b[0m");
    assert_eq!(Label(3).render(true), "\x1b[33m#3\x1b[0m");
    assert_eq!(Const(42).render(true), "\x1b[35m42\x1b[0m");
}

#[test]
fn instructions_print_plain() {
    assert_eq!(Instr::StoreConst { dst: Reg(0), value: Const(5) }.render(false), "%0 = 5");
    assert_eq!(Instr::Store { dst: Reg(1), src: Reg(0) }.render(false), "%1 = %0");
    assert_eq!(Instr::Br { label: Label(1) }.render(false), "br #1");
    assert_eq!(
        Instr::CondBr { label: Label(2), condition: Reg(7) }.render(false),
        "cond_br #2, %7"
    );
    assert_eq!(
        Instr::Add { dst: Reg(2), lhs: Reg(0), rhs: Reg(1) }.render(false),
        "%2 = add %0, %1"
    );
    assert_eq!(
        Instr::CmpEq { dst: Reg(2), lhs: Reg(0), rhs: Reg(1) }.render(false),
        "%2 = cmp_eq %0, %1"
    );
}

#[test]
fn instructions_print_in_colour() {
    assert_eq!(
        Instr::Br { label: Label(1) }.render(true),
        "\x1b[32mbr\x1b[0m \x1b[33m#1\x1b[0m"
    );
    assert_eq!(
        Instr::CondBr { label: Label(2), condition: Reg(7) }.render(true),
        "\x1b[32mcond_br\x1b[0m \x1b[33m#2\x1b[0m, \x1b[34m%7\x1b[0m"
    );
    assert_eq!(
        Instr::Add { dst: Reg(2), lhs: Reg(0), rhs: Reg(1) }.render(true),
        "\x1b[34m%2\x1b[0m = \x1b[32madd\x1b[0m \x1b[34m%0\x1b[0m, \x1b[34m%1\x1b[0m"
    );
    assert_eq!(
        Instr::CmpEq { dst: Reg(2), lhs: Reg(0), rhs: Reg(1) }.render(true),
        "\x1b[34m%2\x1b[0m = \x1b[32mcmp_eq\x1b[0m \x1b[34m%0\x1b[0m, \x1b[34m%1\x1b[0m"
    );
    assert_eq!(
        Instr::StoreConst { dst: Reg(0), value: Const(5) }.render(true),
        "\x1b[34m%0\x1b[0m = \x1b[35m5\x1b[0m"
    );
}

#[test]
fn a_loop_with_break_prints_with_its_labels() {
    let mir = lower(&[proc("f", vec![Stmt::Loop { stmts: vec![Stmt::Break] }])]).unwrap();
    assert_eq!(
        mir.render(false),
        "MIR[[\n    f:\n      #0: br #1\n          br #0\n    #1:\n]]"
    );
    assert_eq!(
        mir.get("f").unwrap().render("f", false),
        "    f:\n      #0: br #1\n          br #0\n    #1:\n"
    );
}

#[test]
fn a_loop_with_break_prints_in_colour() {
    let mir = lower(&[proc("f", vec![Stmt::Loop { stmts: vec![Stmt::Break] }])]).unwrap();
    let expected = format!(
        "MIR[[\n    f:\n    {:>13}: {}\n          {}\n    {}:\n]]",
        "\x1b[33m#0\x1b[0m",
        "\x1b[32mbr\x1b[0m \x1b[33m#1\x1b[0m",
        "\x1b[32mbr\x1b[0m \x1b[33m#0\x1b[0m",
        "\x1b[33m#1\x1b[0m",
    );
    assert_eq!(mir.render(true), expected);
}

#[test]
fn procedures_print_in_the_order_of_their_names() {
    let mir = lower(&[
        proc("g", vec![var("x", Expr::Int(1))]),
        proc("f", vec![]),
        proc("g", vec![var("x", Expr::Int(2))]),
    ])
    .unwrap();
    assert_eq!(mir.render(false), "MIR[[\n    g:\n          %0 = 2\n    f:\n]]");
}

#[test]
fn an_empty_program_prints_its_frame() {
    let mir = lower(&[]).unwrap();
    assert_eq!(mir.render(false), "MIR[[\n]]");
}

#[test]
fn a_long_label_pushes_the_margin_out() {
    let mut body = minic::mir::Body::new();
    body.instrs.push(Instr::Br { label: Label(12345) });
    body.labels.insert(0, Label(12345));
    assert_eq!(body.render("f", false), "    f:\n    #12345: br #12345\n");
    assert_eq!(body.label_at(0), Some(Label(12345)));
    assert_eq!(body.label_at(1), None);
}
