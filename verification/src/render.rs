//! The textual form of a lowered program, for reading and for comparing.
//!
//! Registers print as `%n`, labels as `#n`, constants as the number. With
//! colour, each of them and each mnemonic stands between an ANSI colour code
//! and the reset code.

use crate::mir::{Body, BodyView, Const, Instr, Label, Mir, Reg};
use vstd::prelude::*;
use vstd::string::{StrSliceExecFns, StringExecFns};

verus! {

/// The character of a decimal digit.
pub open spec fn digit(d: nat) -> char
    recommends
        d < 10,
{
    if d == 0 {
        '0'
    } else if d == 1 {
        '1'
    } else if d == 2 {
        '2'
    } else if d == 3 {
        '3'
    } else if d == 4 {
        '4'
    } else if d == 5 {
        '5'
    } else if d == 6 {
        '6'
    } else if d == 7 {
        '7'
    } else if d == 8 {
        '8'
    } else {
        '9'
    }
}

/// A number in decimal, without leading zeros.
pub open spec fn decimal(n: nat) -> Seq<char>
    decreases n,
{
    if n < 10 {
        seq![digit(n)]
    } else {
        decimal(n / 10).push(digit(n % 10))
    }
}

/// Text between a colour code and the reset code, or alone.
pub open spec fn painted(code: Seq<char>, text: Seq<char>, color: bool) -> Seq<char> {
    if color {
        code + text + "\x1b[0m"@
    } else {
        text
    }
}

/// A register: `%` and its number, in blue.
pub open spec fn reg_text(r: Reg, color: bool) -> Seq<char> {
    painted("\x1b[34m"@, "%"@ + decimal(r.0 as nat), color)
}

/// A label: `#` and its number, in yellow.
pub open spec fn label_text(l: Label, color: bool) -> Seq<char> {
    painted("\x1b[33m"@, "#"@ + decimal(l.0 as nat), color)
}

/// A constant: its value, in magenta.
pub open spec fn const_text(c: Const, color: bool) -> Seq<char> {
    painted("\x1b[35m"@, decimal(c.0 as nat), color)
}

/// A mnemonic, in green.
pub open spec fn op_text(name: Seq<char>, color: bool) -> Seq<char> {
    painted("\x1b[32m"@, name, color)
}

/// `n` spaces.
pub open spec fn spaces(n: nat) -> Seq<char> {
    Seq::new(n, |i: int| ' ')
}

/// The column in which labels end: wide enough for a short label, and for
/// the colour codes around it.
pub open spec fn label_width(color: bool) -> nat {
    if color {
        13
    } else {
        4
    }
}

/// What stands before an instruction: its label, flush right, and a colon,
/// or blanks where it has none.
pub open spec fn margin(label: Option<Label>, color: bool) -> Seq<char> {
    match label {
        Some(l) => {
            let text = label_text(l, color);
            let pad = if text.len() < label_width(color) {
                (label_width(color) - text.len()) as nat
            } else {
                0
            };
            spaces(pad) + text + ":"@
        },
        None => "     "@,
    }
}

/// The label at a position, if there is one.
pub open spec fn mark_at(body: BodyView, i: nat) -> Option<Label> {
    if body.marks.contains_key(i) {
        Some(body.marks[i])
    } else {
        None
    }
}

/// The text of one instruction.
pub open spec fn instr_text(i: Instr, color: bool) -> Seq<char> {
    match i {
        Instr::StoreConst { dst, value } => reg_text(dst, color) + " = "@ + const_text(
            value,
            color,
        ),
        Instr::Store { dst, src } => reg_text(dst, color) + " = "@ + reg_text(src, color),
        Instr::Br { label } => op_text("br"@, color) + " "@ + label_text(label, color),
        Instr::CondBr { label, condition } => op_text("cond_br"@, color) + " "@ + label_text(
            label,
            color,
        ) + ", "@ + reg_text(condition, color),
        Instr::Add { dst, lhs, rhs } => reg_text(dst, color) + " = "@ + op_text("add"@, color)
            + " "@ + reg_text(lhs, color) + ", "@ + reg_text(rhs, color),
        Instr::CmpEq { dst, lhs, rhs } => reg_text(dst, color) + " = "@ + op_text(
            "cmp_eq"@,
            color,
        ) + " "@ + reg_text(lhs, color) + ", "@ + reg_text(rhs, color),
    }
}

/// The line of the instruction at position `i`: four blanks, the margin, a
/// blank, the instruction.
pub open spec fn line_text(body: BodyView, i: nat, color: bool) -> Seq<char> {
    "    "@ + margin(mark_at(body, i), color) + " "@ + instr_text(body.instrs[i as int], color)
        + "\n"@
}

/// The lines of the first `n` instructions.
pub open spec fn lines_text(body: BodyView, n: nat, color: bool) -> Seq<char>
    decreases n,
{
    if n == 0 {
        Seq::empty()
    } else {
        lines_text(body, (n - 1) as nat, color) + line_text(body, (n - 1) as nat, color)
    }
}

/// The line of the label at the bottom of the body, if there is one.
pub open spec fn bottom_text(body: BodyView, color: bool) -> Seq<char> {
    match mark_at(body, body.instrs.len()) {
        Some(l) => "    "@ + label_text(l, color) + ":\n"@,
        None => Seq::empty(),
    }
}

/// The text of one procedure: its name, its instructions line by line, and
/// the label at its bottom.
pub open spec fn proc_text(name: Seq<char>, body: BodyView, color: bool) -> Seq<char> {
    "    "@ + name + ":\n"@ + lines_text(body, body.instrs.len(), color) + bottom_text(
        body,
        color,
    )
}

/// The text of the first `n` procedures.
pub open spec fn procs_text(entries: Seq<(String, Body)>, n: nat, color: bool) -> Seq<char>
    decreases n,
{
    if n == 0 {
        Seq::empty()
    } else {
        procs_text(entries, (n - 1) as nat, color) + proc_text(
            entries[n - 1].0@,
            entries[n - 1].1@,
            color,
        )
    }
}

/// The text of a program: its procedures between `MIR[[` and `]]`.
pub open spec fn mir_text(entries: Seq<(String, Body)>, color: bool) -> Seq<char> {
    "MIR[[\n"@ + procs_text(entries, entries.len(), color) + "]]"@
}

/// The text of one decimal digit.
fn digit_str(d: u8) -> (s: &'static str)
    requires
        d < 10,
    ensures
        s@ == seq![digit(d as nat)],
{
    proof {
        reveal_strlit("0");
        reveal_strlit("1");
        reveal_strlit("2");
        reveal_strlit("3");
        reveal_strlit("4");
        reveal_strlit("5");
        reveal_strlit("6");
        reveal_strlit("7");
        reveal_strlit("8");
        reveal_strlit("9");
    }
    let s = if d == 0 {
        "0"
    } else if d == 1 {
        "1"
    } else if d == 2 {
        "2"
    } else if d == 3 {
        "3"
    } else if d == 4 {
        "4"
    } else if d == 5 {
        "5"
    } else if d == 6 {
        "6"
    } else if d == 7 {
        "7"
    } else if d == 8 {
        "8"
    } else {
        "9"
    };
    assert(s@ =~= seq![digit(d as nat)]);
    s
}

/// The digits of a number from the last to the first, as characters from
/// the first to the last.
pub open spec fn digits_text(digits: Seq<u8>) -> Seq<char> {
    Seq::new(digits.len(), |i: int| digit(digits[digits.len() - 1 - i] as nat))
}

/// A number in decimal.
pub fn decimal_string(n: u64) -> (s: String)
    ensures
        s@ == decimal(n as nat),
{
    let mut digits: Vec<u8> = Vec::new();
    digits.push((n % 10) as u8);
    let mut rest: u64 = n / 10;
    assert(digits_text(digits@) =~= seq![digit((n % 10) as nat)]);
    while rest > 0
        invariant
            digits@.len() > 0,
            forall|i: int| 0 <= i < digits@.len() ==> digits@[i] < 10,
            decimal(n as nat) == (if rest == 0 {
                Seq::empty()
            } else {
                decimal(rest as nat)
            }) + digits_text(digits@),
        decreases rest,
    {
        let ghost before = digits@;
        digits.push((rest % 10) as u8);
        proof {
            let d = digit((rest % 10) as nat);
            assert(digits_text(digits@) =~= seq![d] + digits_text(before));
            if rest / 10 == 0 {
                assert(decimal(rest as nat) =~= seq![d]);
            } else {
                assert(decimal(rest as nat) =~= decimal((rest / 10) as nat) + seq![d]);
            }
            assert(decimal(n as nat) =~= (if rest / 10 == 0 {
                Seq::empty()
            } else {
                decimal((rest / 10) as nat)
            }) + digits_text(digits@));
        }
        rest = rest / 10;
    }
    let mut s = String::new();
    let mut i: usize = digits.len();
    while i > 0
        invariant
            0 <= i <= digits@.len(),
            forall|j: int| 0 <= j < digits@.len() ==> digits@[j] < 10,
            s@ == digits_text(digits@).take(digits@.len() - i),
        decreases i,
    {
        i -= 1;
        s.append(digit_str(digits[i]));
        assert(s@ =~= digits_text(digits@).take(digits@.len() - i));
    }
    assert(digits_text(digits@).take(digits@.len() as int) =~= digits_text(digits@));
    assert(Seq::<char>::empty() + digits_text(digits@) =~= digits_text(digits@));
    s
}

/// Text between a colour code and the reset code, or alone.
fn paint(code: &str, text: String, color: bool) -> (s: String)
    ensures
        s@ == painted(code@, text@, color),
{
    if color {
        let mut s = String::new();
        s.append(code);
        s.append(text.as_str());
        s.append("\x1b[0m");
        assert(s@ =~= code@ + text@ + "\x1b[0m"@);
        s
    } else {
        text
    }
}

/// A mnemonic, in green.
fn render_op(name: &str, color: bool) -> (s: String)
    ensures
        s@ == op_text(name@, color),
{
    paint("\x1b[32m", name.to_owned(), color)
}

impl Reg {
    /// The register as text.
    pub fn render(&self, color: bool) -> (s: String)
        ensures
            s@ == reg_text(*self, color),
    {
        let mut text = String::new();
        text.append("%");
        text.append(decimal_string(self.0 as u64).as_str());
        assert(text@ =~= "%"@ + decimal(self.0 as nat));
        paint("\x1b[34m", text, color)
    }
}

impl Label {
    /// The label as text.
    pub fn render(&self, color: bool) -> (s: String)
        ensures
            s@ == label_text(*self, color),
    {
        let mut text = String::new();
        text.append("#");
        text.append(decimal_string(self.0 as u64).as_str());
        assert(text@ =~= "#"@ + decimal(self.0 as nat));
        paint("\x1b[33m", text, color)
    }
}

impl Const {
    /// The constant as text.
    pub fn render(&self, color: bool) -> (s: String)
        ensures
            s@ == const_text(*self, color),
    {
        paint("\x1b[35m", decimal_string(self.0), color)
    }
}

impl Instr {
    /// The instruction as text.
    pub fn render(&self, color: bool) -> (s: String)
        ensures
            s@ == instr_text(*self, color),
    {
        let mut s = String::new();
        match self {
            Instr::StoreConst { dst, value } => {
                s.append(dst.render(color).as_str());
                s.append(" = ");
                s.append(value.render(color).as_str());
                assert(s@ =~= instr_text(*self, color));
            },
            Instr::Store { dst, src } => {
                s.append(dst.render(color).as_str());
                s.append(" = ");
                s.append(src.render(color).as_str());
                assert(s@ =~= instr_text(*self, color));
            },
            Instr::Br { label } => {
                s.append(render_op("br", color).as_str());
                s.append(" ");
                s.append(label.render(color).as_str());
                assert(s@ =~= instr_text(*self, color));
            },
            Instr::CondBr { label, condition } => {
                s.append(render_op("cond_br", color).as_str());
                s.append(" ");
                s.append(label.render(color).as_str());
                s.append(", ");
                s.append(condition.render(color).as_str());
                assert(s@ =~= instr_text(*self, color));
            },
            Instr::Add { dst, lhs, rhs } => {
                s.append(dst.render(color).as_str());
                s.append(" = ");
                s.append(render_op("add", color).as_str());
                s.append(" ");
                s.append(lhs.render(color).as_str());
                s.append(", ");
                s.append(rhs.render(color).as_str());
                assert(s@ =~= instr_text(*self, color));
            },
            Instr::CmpEq { dst, lhs, rhs } => {
                s.append(dst.render(color).as_str());
                s.append(" = ");
                s.append(render_op("cmp_eq", color).as_str());
                s.append(" ");
                s.append(lhs.render(color).as_str());
                s.append(", ");
                s.append(rhs.render(color).as_str());
                assert(s@ =~= instr_text(*self, color));
            },
        }
        s
    }
}

/// What stands before an instruction: its label, flush right, and a colon,
/// or blanks where it has none.
fn render_margin(label: Option<Label>, color: bool) -> (s: String)
    ensures
        s@ == margin(label, color),
{
    let mut s = String::new();
    match label {
        Some(l) => {
            let text = l.render(color);
            let width: usize = if color {
                13
            } else {
                4
            };
            let len = text.as_str().unicode_len();
            let pad: usize = if len < width {
                width - len
            } else {
                0
            };
            let mut i: usize = 0;
            while i < pad
                invariant
                    0 <= i <= pad,
                    s@ == spaces(i as nat),
                decreases pad - i,
            {
                proof {
                    reveal_strlit(" ");
                }
                s.append(" ");
                i += 1;
                assert(s@ =~= spaces(i as nat));
            }
            s.append(text.as_str());
            s.append(":");
            assert(s@ =~= margin(label, color));
        },
        None => {
            s.append("     ");
            assert(s@ =~= margin(label, color));
        },
    }
    s
}

impl Body {
    /// The label at a position, if there is one.
    pub fn label_at(&self, i: usize) -> (res: Option<Label>)
        ensures
            res == mark_at(self@, i as nat),
    {
        match self.labels.get(&i) {
            Some(l) => Some(*l),
            None => None,
        }
    }

    /// The body as text, under the name of its procedure.
    pub fn render(&self, name: &str, color: bool) -> (s: String)
        ensures
            s@ == proc_text(name@, self@, color),
    {
        let mut s = String::new();
        s.append("    ");
        s.append(name);
        s.append(":\n");
        let ghost head = s@;
        let mut i: usize = 0;
        while i < self.instrs.len()
            invariant
                0 <= i <= self.instrs@.len(),
                s@ == head + lines_text(self@, i as nat, color),
            decreases self.instrs.len() - i,
        {
            let ghost before = s@;
            s.append("    ");
            s.append(render_margin(self.label_at(i), color).as_str());
            s.append(" ");
            s.append(self.instrs[i].render(color).as_str());
            s.append("\n");
            assert(s@ =~= before + line_text(self@, i as nat, color));
            i += 1;
            assert(s@ =~= head + lines_text(self@, i as nat, color));
        }
        match self.label_at(self.instrs.len()) {
            Some(l) => {
                let ghost before = s@;
                s.append("    ");
                s.append(l.render(color).as_str());
                s.append(":\n");
                assert(s@ =~= before + bottom_text(self@, color));
            },
            None => {
                assert(s@ =~= s@ + bottom_text(self@, color));
            },
        }
        assert(s@ =~= proc_text(name@, self@, color));
        s
    }
}

impl Mir {
    /// The program as text: every procedure, in the order in which their
    /// names came first.
    pub fn render(&self, color: bool) -> (s: String)
        ensures
            s@ == mir_text(self.bodies@, color),
    {
        let mut s = String::new();
        s.append("MIR[[\n");
        let mut i: usize = 0;
        while i < self.bodies.len()
            invariant
                0 <= i <= self.bodies@.len(),
                s@ == "MIR[[\n"@ + procs_text(self.bodies@, i as nat, color),
            decreases self.bodies.len() - i,
        {
            let ghost before = s@;
            s.append(self.bodies[i].1.render(self.bodies[i].0.as_str(), color).as_str());
            i += 1;
            assert(s@ =~= "MIR[[\n"@ + procs_text(self.bodies@, i as nat, color));
        }
        s.append("]]");
        s
    }
}

} // verus!
