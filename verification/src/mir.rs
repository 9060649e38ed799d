//! The mid-level intermediate representation: registers, labels, instructions
//! and procedure bodies.

use std::collections::HashMap;
use vstd::prelude::*;

verus! {

/// A virtual register, numbered from zero within one body.
#[derive(Clone, Copy, Debug, PartialEq, Eq, Structural)]
pub struct Reg(pub u32);

/// A branch target, numbered from zero within one body.
#[derive(Clone, Copy, Debug, PartialEq, Eq, Structural)]
pub struct Label(pub u32);

/// An immediate operand.
#[derive(Clone, Copy, Debug, PartialEq, Eq, Structural)]
pub struct Const(pub u64);

impl Label {
    /// The label of a branch whose target is not known yet.
    pub open spec fn placeholder() -> Label {
        Label(u32::MAX)
    }

    /// The label that unresolved branches carry until they are patched.
    pub fn unresolved() -> (l: Label)
        ensures
            l == Label::placeholder(),
    {
        Label(u32::MAX)
    }

    /// Whether this label stands for a target that is not known yet.
    pub fn is_placeholder(&self) -> (r: bool)
        ensures
            r == (*self == Label::placeholder()),
    {
        self.0 == u32::MAX
    }
}

/// One instruction. Every register holds an unsigned 64-bit value.
#[derive(Clone, Copy, Debug, PartialEq, Eq, Structural)]
pub enum Instr {
    StoreConst { dst: Reg, value: Const },
    Store { dst: Reg, src: Reg },
    Br { label: Label },
    CondBr { label: Label, condition: Reg },
    Add { dst: Reg, lhs: Reg, rhs: Reg },
    CmpEq { dst: Reg, lhs: Reg, rhs: Reg },
}

impl Instr {
    /// The label that a branch jumps to; `None` for every other instruction.
    pub open spec fn target(self) -> Option<Label> {
        match self {
            Instr::Br { label } => Some(label),
            Instr::CondBr { label, .. } => Some(label),
            _ => None,
        }
    }

    /// The register that the instruction writes, if it writes one.
    pub open spec fn dst(self) -> Option<Reg> {
        match self {
            Instr::StoreConst { dst, .. } => Some(dst),
            Instr::Store { dst, .. } => Some(dst),
            Instr::Add { dst, .. } => Some(dst),
            Instr::CmpEq { dst, .. } => Some(dst),
            _ => None,
        }
    }

    /// Whether the instruction reads register `r`.
    pub open spec fn reads(self, r: Reg) -> bool {
        match self {
            Instr::Store { src, .. } => src == r,
            Instr::CondBr { condition, .. } => condition == r,
            Instr::Add { lhs, rhs, .. } => lhs == r || rhs == r,
            Instr::CmpEq { lhs, rhs, .. } => lhs == r || rhs == r,
            _ => false,
        }
    }

    /// The same instruction with an unresolved `Br` pointed at `to`.
    /// Anything but `Br` with the placeholder label is left as it is.
    pub open spec fn closed(self, to: Label) -> Instr {
        if self == (Instr::Br { label: Label::placeholder() }) {
            Instr::Br { label: to }
        } else {
            self
        }
    }
}

/// The labels of a body as a map from position to label: a label at
/// position `i` marks the place right before instruction `i`, and one at the
/// body's length marks its bottom.
pub open spec fn marks_of(labels: Map<usize, Label>) -> Map<nat, Label> {
    Map::new(
        |k: nat| k <= usize::MAX && labels.contains_key(k as usize),
        |k: nat| labels[k as usize],
    )
}

/// What a body is: its instructions in order, and its labels by position.
pub struct BodyView {
    pub instrs: Seq<Instr>,
    pub marks: Map<nat, Label>,
}

/// The code of one procedure.
pub struct Body {
    pub instrs: Vec<Instr>,
    pub labels: HashMap<usize, Label>,
}

impl View for Body {
    type V = BodyView;

    open spec fn view(&self) -> BodyView {
        BodyView { instrs: self.instrs@, marks: marks_of(self.labels@) }
    }
}

impl Body {
    /// A body with no instructions and no labels.
    pub fn new() -> (b: Body)
        ensures
            b@.instrs == Seq::<Instr>::empty(),
            b@.marks == Map::<nat, Label>::empty(),
    {
        let b = Body { instrs: Vec::new(), labels: HashMap::new() };
        assert(b@.marks =~= Map::<nat, Label>::empty());
        b
    }
}

/// The bodies in the order of `entries`, by name; of two entries with one
/// name the later one counts.
pub open spec fn table_of(entries: Seq<(String, Body)>) -> Map<Seq<char>, BodyView>
    decreases entries.len(),
{
    if entries.len() == 0 {
        Map::empty()
    } else {
        table_of(entries.drop_last()).insert(entries.last().0@, entries.last().1@)
    }
}

/// A name that no entry has is not in the table; the name of an entry is,
/// and if no later entry has the name, with that entry's body.
pub proof fn lemma_table_of(entries: Seq<(String, Body)>, name: Seq<char>)
    ensures
        table_of(entries).contains_key(name) <==> exists|i: int|
            0 <= i < entries.len() && (#[trigger] entries[i]).0@ == name,
        forall|i: int|
            0 <= i < entries.len() && (#[trigger] entries[i]).0@ == name && (forall|j: int|
                i < j < entries.len() ==> (#[trigger] entries[j]).0@ != name) ==> table_of(
                entries,
            )[name] == entries[i].1@,
    decreases entries.len(),
{
    if entries.len() > 0 {
        let front = entries.drop_last();
        lemma_table_of(front, name);
        if table_of(entries).contains_key(name) {
            if entries.last().0@ == name {
                assert(entries[entries.len() - 1].0@ == name);
            } else {
                let i = choose|i: int| 0 <= i < front.len() && (#[trigger] front[i]).0@ == name;
                assert(entries[i].0@ == name);
            }
        }
        if exists|i: int| 0 <= i < entries.len() && (#[trigger] entries[i]).0@ == name {
            let i = choose|i: int| 0 <= i < entries.len() && (#[trigger] entries[i]).0@ == name;
            if i < front.len() {
                assert(front[i].0@ == name);
            }
        }
        assert forall|i: int|
            0 <= i < entries.len() && (#[trigger] entries[i]).0@ == name && (forall|j: int|
                i < j < entries.len() ==> (#[trigger] entries[j]).0@ != name) implies table_of(
            entries,
        )[name] == entries[i].1@ by {
            if i < front.len() {
                assert(front[i].0@ == name);
                assert(entries[entries.len() - 1].0@ != name);
                assert forall|j: int| i < j < front.len() implies (#[trigger] front[j]).0@
                    != name by {
                    assert(entries[j].0@ != name);
                }
            }
        }
    }
}

/// The lowered program: the body of each procedure, by name.
pub struct Mir {
    pub bodies: Vec<(String, Body)>,
}

impl View for Mir {
    type V = Map<Seq<char>, BodyView>;

    open spec fn view(&self) -> Map<Seq<char>, BodyView> {
        table_of(self.bodies@)
    }
}

impl Mir {
    /// Whether no two entries have one name.
    pub open spec fn wf(&self) -> bool {
        forall|i: int, j: int|
            0 <= i < j < self.bodies@.len() ==> (#[trigger] self.bodies@[i]).0@ != (
            #[trigger] self.bodies@[j]).0@
    }

    /// A program without procedures.
    pub fn new() -> (mir: Mir)
        ensures
            mir.wf(),
            mir@ == Map::<Seq<char>, BodyView>::empty(),
    {
        Mir { bodies: Vec::new() }
    }

    /// The place of the last entry with this name.
    fn position(&self, name: &String) -> (res: Option<usize>)
        ensures
            match res {
                Some(i) => i < self.bodies@.len() && self.bodies@[i as int].0@ == name@ && forall|
                    j: int,
                |
                    i < j < self.bodies@.len() ==> (#[trigger] self.bodies@[j]).0@ != name@,
                None => forall|i: int|
                    0 <= i < self.bodies@.len() ==> (#[trigger] self.bodies@[i]).0@ != name@,
            },
    {
        let mut i: usize = self.bodies.len();
        while i > 0
            invariant
                0 <= i <= self.bodies@.len(),
                forall|j: int| i <= j < self.bodies@.len() ==> (#[trigger] self.bodies@[j]).0@ != name@,
            decreases i,
        {
            i -= 1;
            if self.bodies[i].0 == *name {
                return Some(i);
            }
        }
        None
    }

    /// The body of the procedure with this name.
    pub fn get(&self, name: &str) -> (res: Option<&Body>)
        ensures
            match res {
                Some(body) => self@.contains_key(name@) && self@[name@] == body@,
                None => !self@.contains_key(name@),
            },
    {
        let owned = name.to_owned();
        proof {
            lemma_table_of(self.bodies@, name@);
        }
        match self.position(&owned) {
            Some(i) => Some(&self.bodies[i].1),
            None => None,
        }
    }

    /// Puts a body under a name, in place of the one that may have been
    /// there.
    pub fn insert(&mut self, name: String, body: Body)
        requires
            old(self).wf(),
        ensures
            final(self).wf(),
            final(self)@ == old(self)@.insert(name@, body@),
    {
        let ghost key = name@;
        let ghost new_body = body@;
        match self.position(&name) {
            Some(i) => {
                self.bodies[i] = (name, body);
                proof {
                    let before = old(self).bodies@;
                    let after = self.bodies@;
                    assert forall|n: Seq<char>|
                        table_of(after).contains_key(n) == #[trigger] table_of(before).insert(
                            key,
                            new_body,
                        ).contains_key(n) && (table_of(after).contains_key(n) ==> table_of(
                            after,
                        )[n] == table_of(before).insert(key, new_body)[n]) by {
                        lemma_table_of(after, n);
                        lemma_table_of(before, n);
                        if n == key {
                            assert(after[i as int].0@ == n);
                            assert(before[i as int].0@ == n);
                        } else {
                            if table_of(after).contains_key(n) {
                                let a = choose|a: int|
                                    0 <= a < after.len() && (#[trigger] after[a]).0@ == n;
                                assert(before[a].0@ == n);
                                assert(after[a].1@ == before[a].1@);
                                assert forall|j: int| a < j < after.len() implies (
                                #[trigger] after[j]).0@ != n by {
                                    assert(after[a].0@ != after[j].0@);
                                }
                                assert forall|j: int| a < j < before.len() implies (
                                #[trigger] before[j]).0@ != n by {
                                    assert(before[a].0@ != before[j].0@);
                                }
                            }
                            if table_of(before).contains_key(n) {
                                let a = choose|a: int|
                                    0 <= a < before.len() && (#[trigger] before[a]).0@ == n;
                                assert(after[a].0@ == n);
                            }
                        }
                    }
                    assert(self@ =~= old(self)@.insert(key, new_body));
                }
            },
            None => {
                self.bodies.push((name, body));
                proof {
                    assert(self.bodies@.drop_last() =~= old(self).bodies@);
                }
            },
        }
    }
}

} // verus!
