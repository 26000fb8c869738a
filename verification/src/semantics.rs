//! The abstract cell machine the solver's instructions act on.
//!
//! Memory is a total assignment of an integer value to every cell address.
//! `Clear` zeroes a cell.  `Mov` empties a cell and adds its value to each
//! destination in turn — the destructive move of the backend contract: when
//! every destination holds zero, the move is a copy.  `Start` and `Top` are
//! bookkeeping and carry no data effect.
//!
//! [`run`] executes an instruction sequence; the proof functions in
//! [`crate::laws`] show what running the solver's output does.

use crate::solve::SpecInstr;
use vstd::prelude::*;

verus! {

/// A memory assigns a value to every cell address.
pub open spec fn full_mem(mem: Map<int, int>) -> bool {
    forall|c: int| mem.dom().contains(c)
}

/// Add `val` to each cell of `to`, in order.
pub open spec fn add_into(mem: Map<int, int>, to: Seq<int>, val: int) -> Map<int, int>
    decreases to.len(),
{
    if to.len() == 0 {
        mem
    } else {
        add_into(mem.insert(to[0], mem[to[0]] + val), to.skip(1), val)
    }
}

/// One instruction's effect on memory.
pub open spec fn step(mem: Map<int, int>, instr: SpecInstr) -> Map<int, int> {
    match instr {
        SpecInstr::Clear { cell } => mem.insert(cell, 0),
        SpecInstr::Mov { cell, to } => add_into(mem.insert(cell, 0), to, mem[cell]),
        SpecInstr::Start { cell } => mem,
        SpecInstr::Top { cell } => mem,
    }
}

/// Execute a sequence of instructions from a given memory.
pub open spec fn run(mem: Map<int, int>, prog: Seq<SpecInstr>) -> Map<int, int>
    decreases prog.len(),
{
    if prog.len() == 0 {
        mem
    } else {
        run(step(mem, prog[0]), prog.skip(1))
    }
}

/// Adding into a duplicate-free destination list raises exactly those
/// cells by `val` and touches nothing else.
pub proof fn lemma_add_into(mem: Map<int, int>, to: Seq<int>, val: int)
    requires
        full_mem(mem),
        forall|a: int, b: int| 0 <= a < b < to.len() ==> to[a] != to[b],
    ensures
        full_mem(add_into(mem, to, val)),
        forall|c: int|
            to.contains(c) ==> add_into(mem, to, val)[c] == mem[c] + val,
        forall|c: int|
            !to.contains(c) ==> add_into(mem, to, val)[c] == mem[c],
    decreases to.len(),
{
    if to.len() != 0 {
        let mem1 = mem.insert(to[0], mem[to[0]] + val);
        let rest = to.skip(1);
        assert(forall|a: int, b: int| 0 <= a < b < rest.len() ==> rest[a] != rest[b]);
        lemma_add_into(mem1, rest, val);
        assert(!rest.contains(to[0]));
        assert forall|c: int| to.contains(c) implies add_into(mem, to, val)[c] == mem[c]
            + val by {
            let i = choose|i: int| 0 <= i < to.len() && to[i] == c;
            if i == 0 {
                assert(!rest.contains(c));
            } else {
                assert(rest[i - 1] == c);
                assert(rest.contains(c));
                assert(c != to[0]);
            }
        };
        assert forall|c: int| !to.contains(c) implies add_into(mem, to, val)[c]
            == mem[c] by {
            assert(!rest.contains(c)) by {
                if rest.contains(c) {
                    let i = choose|i: int| 0 <= i < rest.len() && rest[i] == c;
                    assert(to[i + 1] == c);
                }
            };
            assert(c != to[0]);
        };
    }
}

/// Running a concatenation runs the two halves in turn.
pub proof fn lemma_run_concat(mem: Map<int, int>, a: Seq<SpecInstr>, b: Seq<SpecInstr>)
    ensures
        run(mem, a + b) == run(run(mem, a), b),
    decreases a.len(),
{
    if a.len() == 0 {
        assert(a + b =~= b);
    } else {
        assert((a + b)[0] == a[0]);
        assert((a + b).skip(1) =~= a.skip(1) + b);
        lemma_run_concat(step(mem, a[0]), a.skip(1), b);
    }
}

/// Running a single instruction is one step.
pub proof fn lemma_run_one(mem: Map<int, int>, instr: SpecInstr)
    ensures
        run(mem, seq![instr]) == step(mem, instr),
{
    assert(seq![instr].skip(1) =~= Seq::<SpecInstr>::empty());
    assert(run(step(mem, instr), Seq::<SpecInstr>::empty()) == step(mem, instr));
    assert(seq![instr][0] == instr);
}

} // verus!
