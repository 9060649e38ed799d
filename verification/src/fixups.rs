//! The positions of the open `break`s of a piece of code, which is what a
//! loop's list of fixups holds while the loop is lowered.

use crate::mir::Instr;
use crate::targets::{has_open, open_break};
use vstd::prelude::*;

verus! {

/// The positions of the open `break`s of `instrs`, in order, where the
/// first instruction stands at position `base`.
pub open spec fn open_breaks(instrs: Seq<Instr>, base: int) -> Seq<int>
    decreases instrs.len(),
{
    if instrs.len() == 0 {
        Seq::empty()
    } else {
        let front = open_breaks(instrs.drop_last(), base);
        if instrs.last() == open_break() {
            front.push(base + instrs.len() - 1)
        } else {
            front
        }
    }
}

/// The fixups of the open loops after the innermost loop has got `more`.
/// Outside every loop there is nothing to record them in.
pub open spec fn extended(fixups: Seq<Seq<int>>, more: Seq<int>) -> Seq<Seq<int>> {
    if fixups.len() == 0 {
        fixups
    } else {
        fixups.update(fixups.len() - 1, fixups.last() + more)
    }
}

/// The open `break`s of two pieces of code in a row are those of the first,
/// then those of the second.
pub proof fn lemma_open_breaks_concat(a: Seq<Instr>, b: Seq<Instr>, base: int)
    ensures
        open_breaks(a + b, base) == open_breaks(a, base) + open_breaks(b, base + a.len()),
    decreases b.len(),
{
    if b.len() == 0 {
        assert(a + b =~= a);
        assert(open_breaks(a, base) + open_breaks(b, base + a.len()) =~= open_breaks(a, base));
    } else {
        assert((a + b).drop_last() =~= a + b.drop_last());
        lemma_open_breaks_concat(a, b.drop_last(), base);
        assert(open_breaks(a + b, base) =~= open_breaks(a, base) + open_breaks(
            b,
            base + a.len(),
        ));
    }
}

/// Every position listed holds an open `break`, and the positions rise.
pub proof fn lemma_open_breaks_sound(instrs: Seq<Instr>, base: int)
    ensures
        forall|k: int|
            0 <= k < open_breaks(instrs, base).len() ==> {
                let p = #[trigger] open_breaks(instrs, base)[k];
                base <= p < base + instrs.len() && instrs[p - base] == open_break()
            },
        forall|j: int, k: int|
            0 <= j < k < open_breaks(instrs, base).len() ==> open_breaks(instrs, base)[j]
                < open_breaks(instrs, base)[k],
    decreases instrs.len(),
{
    if instrs.len() > 0 {
        lemma_open_breaks_sound(instrs.drop_last(), base);
        let front = open_breaks(instrs.drop_last(), base);
        assert forall|k: int| 0 <= k < open_breaks(instrs, base).len() implies {
            let p = #[trigger] open_breaks(instrs, base)[k];
            base <= p < base + instrs.len() && instrs[p - base] == open_break()
        } by {
            if k < front.len() {
                let p = front[k];
                assert(instrs.drop_last()[p - base] == instrs[p - base]);
            }
        }
    }
}

/// Every open `break` is listed.
pub proof fn lemma_open_breaks_complete(instrs: Seq<Instr>, base: int, i: int)
    requires
        0 <= i < instrs.len(),
        instrs[i] == open_break(),
    ensures
        open_breaks(instrs, base).contains(base + i),
    decreases instrs.len(),
{
    let all = open_breaks(instrs, base);
    if i == instrs.len() - 1 {
        assert(all[all.len() - 1] == base + i);
    } else {
        lemma_open_breaks_complete(instrs.drop_last(), base, i);
        let front = open_breaks(instrs.drop_last(), base);
        let k = choose|k: int| 0 <= k < front.len() && front[k] == base + i;
        assert(all[k] == base + i);
    }
}

/// The list is empty exactly if there is no open `break`.
pub proof fn lemma_open_breaks_none(instrs: Seq<Instr>, base: int)
    ensures
        open_breaks(instrs, base).len() == 0 <==> !has_open(instrs),
{
    lemma_open_breaks_sound(instrs, base);
    if has_open(instrs) {
        let i = choose|i: int| 0 <= i < instrs.len() && #[trigger] instrs[i] == open_break();
        lemma_open_breaks_complete(instrs, base, i);
    }
    if open_breaks(instrs, base).len() > 0 {
        let p = open_breaks(instrs, base)[0];
        assert(instrs[p - base] == open_break());
    }
}

/// Recording more twice is recording both at once.
pub proof fn lemma_extended_twice(fixups: Seq<Seq<int>>, a: Seq<int>, b: Seq<int>)
    ensures
        extended(extended(fixups, a), b) == extended(fixups, a + b),
{
    if fixups.len() > 0 {
        assert((fixups.last() + a) + b =~= fixups.last() + (a + b));
    }
    assert(extended(extended(fixups, a), b) =~= extended(fixups, a + b));
}

/// Recording nothing changes nothing.
pub proof fn lemma_extended_none(fixups: Seq<Seq<int>>)
    ensures
        extended(fixups, Seq::empty()) == fixups,
{
    if fixups.len() > 0 {
        assert(fixups.last() + Seq::<int>::empty() =~= fixups.last());
    }
    assert(extended(fixups, Seq::empty()) =~= fixups);
}

/// One instruction that is no open `break` has none.
pub proof fn lemma_open_breaks_one(i: Instr, base: int)
    requires
        i != open_break(),
    ensures
        open_breaks(seq![i], base) == Seq::<int>::empty(),
{
    assert(seq![i].drop_last() =~= Seq::<Instr>::empty());
    reveal_with_fuel(open_breaks, 2);
}

} // verus!
