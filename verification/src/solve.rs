//! The solver: from a stack effect diagram to a sequence of instructions.
//!
//! The solver walks the data-flow graph of the diagram (see [`crate::graph`])
//! and emits, for every cell, the instructions that move its value where it
//! is read, in an order that never overwrites a value before it has been
//! distributed:
//!
//! * cells off the cycles are handled first, readers strictly before their
//!   sources (by descending [`crate::graph::rank`], ascending index within
//!   a rank);
//! * each cycle is then rotated through the single scratch cell, handled at
//!   its largest member, larger members first.
//!
//! [`solve_spec`] states the emitted sequence exactly; [`solve`] computes it.

use crate::graph::cycle_head;
use crate::graph::cycle_len;
use crate::graph::on_cycle;
use crate::graph::rank;
use crate::graph::readers;
use crate::graph::readers_below;
use crate::graph::scratch_cell;
use crate::graph::settled;
use crate::graph::walk;
use crate::parse::StackEffectDiagram;
use vstd::prelude::*;

verus! {

/// Represents an instruction within the computation model.
#[derive(Debug, PartialEq, Eq, Clone, Hash)]
pub enum Instruction {
    /// Clear / Zero the cell at a given index
    Clear {
        /// The index of the cell to clear
        cell: isize,
    },
    /// Delete the data in a cell and copy it to a list of other cells
    Mov {
        /// The index of the cell to Mov
        cell: isize,
        /// The list of cells to copy the data to.
        ///
        /// Note: This list will never contain `cell`
        to: Vec<isize>,
    },
    /// Start the program with the assumption that the top of the stack is
    /// at a given index
    Start {
        /// The index of the top of the stack
        cell: isize,
    },
    /// Change the top of the stack to a given index
    Top {
        /// The index of the new top of the stack
        cell: isize,
    },
}

/// The mathematical shape of an [`Instruction`]: cells as integers, the
/// destination list as a sequence.
pub enum SpecInstr {
    /// Zero a cell.
    Clear { cell: int },
    /// Move a cell's value, adding it to every destination.
    Mov { cell: int, to: Seq<int> },
    /// Where the cursor is assumed to start.
    Start { cell: int },
    /// Where the cursor is meant to end.
    Top { cell: int },
}

impl DeepView for Instruction {
    type V = SpecInstr;

    open spec fn deep_view(&self) -> SpecInstr {
        match self {
            Instruction::Clear { cell } => SpecInstr::Clear { cell: *cell as int },
            Instruction::Mov { cell, to } => SpecInstr::Mov {
                cell: *cell as int,
                to: to@.map_values(|x: isize| x as int),
            },
            Instruction::Start { cell } => SpecInstr::Start { cell: *cell as int },
            Instruction::Top { cell } => SpecInstr::Top { cell: *cell as int },
        }
    }
}

/// What the solver emits for a cell `v` off the cycles: clear a dropped
/// input slot, move a read cell to its readers, do nothing for a slot that
/// never held data.
pub open spec fn acyclic_emit(inputs: int, mapping: Seq<int>, v: int) -> Seq<SpecInstr> {
    let rs = readers(mapping, v);
    if rs.len() == 0 {
        if v < inputs {
            seq![SpecInstr::Clear { cell: v }]
        } else {
            Seq::empty()
        }
    } else {
        seq![SpecInstr::Mov { cell: v, to: rs }]
    }
}

/// The emissions for every cell of rank `s` below `upto`, ascending.
pub open spec fn rank_emit_below(
    inputs: int,
    mapping: Seq<int>,
    s: int,
    upto: int,
) -> Seq<SpecInstr>
    decreases upto,
{
    if upto <= 0 {
        Seq::empty()
    } else {
        rank_emit_below(inputs, mapping, s, upto - 1) + node_emit(inputs, mapping, s, upto - 1)
    }
}

/// What a single cell contributes to the emissions of rank `s`.
pub open spec fn node_emit(inputs: int, mapping: Seq<int>, s: int, v: int) -> Seq<SpecInstr> {
    if !on_cycle(mapping, v) && rank(mapping, v) == s {
        acyclic_emit(inputs, mapping, v)
    } else {
        Seq::empty()
    }
}

/// The emissions for every cell off the cycles, ranks `s` down to `0`.
pub open spec fn phase_a(inputs: int, mapping: Seq<int>, s: int) -> Seq<SpecInstr>
    decreases s + 1,
{
    if s < 0 {
        Seq::empty()
    } else {
        rank_emit_below(inputs, mapping, s, scratch_cell(inputs, mapping.len() as int))
            + phase_a(inputs, mapping, s - 1)
    }
}

/// The middle of a cycle rotation: the members one to `j` steps around the
/// cycle from its head, each moved to all of its readers.
pub open spec fn cycle_mids(mapping: Seq<int>, c0: int, j: int) -> Seq<SpecInstr>
    decreases j,
{
    if j <= 0 {
        Seq::empty()
    } else {
        cycle_mids(mapping, c0, j - 1) + seq![
            SpecInstr::Mov {
                cell: walk(mapping, c0, j as nat),
                to: readers(mapping, walk(mapping, c0, j as nat)),
            },
        ]
    }
}

/// What the solver emits for the cycle headed at `c0`: nothing for a value
/// already in place and read nowhere else; otherwise one rotation through
/// the scratch cell that preserves every reader outside the cycle.
pub open spec fn cycle_emit(inputs: int, mapping: Seq<int>, c0: int) -> Seq<SpecInstr> {
    let len = cycle_len(mapping, c0) as int;
    let t = scratch_cell(inputs, mapping.len() as int);
    if len == 1 && readers(mapping, c0) == seq![c0] {
        Seq::empty()
    } else {
        seq![SpecInstr::Mov { cell: c0, to: seq![t] }] + cycle_mids(mapping, c0, len - 1)
            + seq![SpecInstr::Mov { cell: t, to: readers(mapping, c0) }]
    }
}

/// The emissions for every cycle headed at a cell of index `v` or below,
/// larger heads first.
pub open spec fn phase_b(inputs: int, mapping: Seq<int>, v: int) -> Seq<SpecInstr>
    decreases v + 1,
{
    if v < 0 {
        Seq::empty()
    } else {
        head_emit(inputs, mapping, v) + phase_b(inputs, mapping, v - 1)
    }
}

/// What a single cell contributes to the cycle emissions: a rotation where
/// it heads a cycle, nothing elsewhere.
pub open spec fn head_emit(inputs: int, mapping: Seq<int>, v: int) -> Seq<SpecInstr> {
    if cycle_head(mapping, v) {
        cycle_emit(inputs, mapping, v)
    } else {
        Seq::empty()
    }
}

/// Whether cell `v` lies on a cycle: walk the graph for at most
/// `mapping.len()` steps and look for a return to `v`.
fn is_on_cycle_at(mapping: &Vec<usize>, v: usize) -> (b: bool)
    ensures
        b == on_cycle(crate::graph::cells(mapping@), v as int),
{
    let ghost s = crate::graph::cells(mapping@);
    let m = mapping.len();
    if v >= m {
        return false;
    }
    let mut u: usize = v;
    let mut k: usize = 0;
    while k < m
        invariant
            s == crate::graph::cells(mapping@),
            m == mapping.len(),
            v < m,
            k <= m,
            u as int == walk(s, v as int, k as nat),
            forall|j: int| 1 <= j <= k ==> #[trigger] walk(s, v as int, j as nat) != v as int,
        decreases m - k,
    {
        if u < m {
            u = mapping[u];
        }
        k = k + 1;
        proof {
            assert(u as int == walk(s, v as int, k as nat));
        }
        if u == v {
            proof {
                let ki = k as int;
                assert(1 <= ki <= s.len() && walk(s, v as int, ki as nat) == v as int);
                assert(on_cycle(s, v as int));
            }
            return true;
        }
    }
    proof {
        assert(!on_cycle(s, v as int));
    }
    false
}

/// The rank of cell `v`: walk to the first settled cell, counting steps.
fn rank_at(mapping: &Vec<usize>, v: usize) -> (r: usize)
    ensures
        r as nat == rank(crate::graph::cells(mapping@), v as int),
{
    let ghost s = crate::graph::cells(mapping@);
    let m = mapping.len();
    let mut u: usize = v;
    let mut r: usize = 0;
    let mut is_settled: bool = u >= m || is_on_cycle_at(mapping, u);
    while !is_settled
        invariant
            s == crate::graph::cells(mapping@),
            m == mapping.len(),
            is_settled == settled(s, u as int),
            u as int == walk(s, v as int, r as nat),
            rank(s, v as int) == r + rank(s, u as int),
        decreases rank(s, u as int),
    {
        proof {
            crate::graph::lemma_rank_step(s, u as int);
            crate::graph::lemma_rank(s, v as int);
        }
        u = mapping[u];
        r = r + 1;
        is_settled = u >= m || is_on_cycle_at(mapping, u);
        proof {
            assert(u as int == walk(s, v as int, r as nat));
        }
    }
    proof {
        assert(rank(s, u as int) == 0);
    }
    r
}

/// The length of the cycle through `c0`: walk until the first return.
fn cycle_len_at(mapping: &Vec<usize>, c0: usize) -> (l: usize)
    requires
        on_cycle(crate::graph::cells(mapping@), c0 as int),
    ensures
        l as nat == cycle_len(crate::graph::cells(mapping@), c0 as int),
{
    let ghost s = crate::graph::cells(mapping@);
    proof {
        crate::graph::lemma_cycle_len(s, c0 as int);
        crate::graph::lemma_walk_one(s, c0 as int);
    }
    let m = mapping.len();
    let mut u: usize = mapping[c0];
    let mut l: usize = 1;
    while u != c0
        invariant
            s == crate::graph::cells(mapping@),
            m == mapping.len(),
            on_cycle(s, c0 as int),
            c0 < m,
            1 <= l <= cycle_len(s, c0 as int),
            u as int == walk(s, c0 as int, l as nat),
        decreases cycle_len(s, c0 as int) - l,
    {
        proof {
            crate::graph::lemma_cycle_len(s, c0 as int);
            assert(l < cycle_len(s, c0 as int));
            crate::graph::lemma_member_on_cycle(s, c0 as int, l as nat);
        }
        u = mapping[u];
        l = l + 1;
        proof {
            assert(u as int == walk(s, c0 as int, l as nat));
        }
    }
    proof {
        crate::graph::lemma_cycle_len(s, c0 as int);
        let li = l as int;
        if li < cycle_len(s, c0 as int) {
            assert(walk(s, c0 as int, li as nat) != c0 as int);
            assert(false);
        }
    }
    l
}

/// The readers of cell `v`, ascending, as cell addresses.
fn readers_at(mapping: &Vec<usize>, v: usize) -> (rs: Vec<isize>)
    requires
        mapping.len() <= isize::MAX as usize,
    ensures
        rs@.map_values(|x: isize| x as int) == readers(crate::graph::cells(mapping@), v as int),
{
    let ghost s = crate::graph::cells(mapping@);
    let m = mapping.len();
    let mut rs: Vec<isize> = Vec::new();
    let mut i: usize = 0;
    proof {
        assert(rs@.map_values(|x: isize| x as int) =~= readers_below(s, v as int, 0));
    }
    while i < m
        invariant
            s == crate::graph::cells(mapping@),
            m == mapping.len(),
            m <= isize::MAX as usize,
            i <= m,
            rs@.map_values(|x: isize| x as int) == readers_below(s, v as int, i as nat),
        decreases m - i,
    {
        let ghost pre = rs@.map_values(|x: isize| x as int);
        if mapping[i] == v {
            rs.push(i as isize);
            proof {
                assert(rs@.map_values(|x: isize| x as int) =~= pre.push(i as int));
            }
        }
        i = i + 1;
        proof {
            assert(rs@.map_values(|x: isize| x as int) =~= readers_below(s, v as int, i as nat));
        }
    }
    rs
}

/// Whether `v` heads a cycle: on one, and larger than its other members.
fn is_cycle_head_at(mapping: &Vec<usize>, v: usize) -> (b: bool)
    ensures
        b == cycle_head(crate::graph::cells(mapping@), v as int),
{
    let ghost s = crate::graph::cells(mapping@);
    if !is_on_cycle_at(mapping, v) {
        return false;
    }
    let l = cycle_len_at(mapping, v);
    proof {
        crate::graph::lemma_cycle_len(s, v as int);
        crate::graph::lemma_walk_one(s, v as int);
    }
    let m = mapping.len();
    let mut u: usize = mapping[v];
    let mut i: usize = 1;
    while i < l
        invariant
            s == crate::graph::cells(mapping@),
            m == mapping.len(),
            on_cycle(s, v as int),
            v < m,
            l as nat == cycle_len(s, v as int),
            1 <= i <= l,
            u as int == walk(s, v as int, i as nat),
            forall|j: int| 1 <= j < i ==> #[trigger] walk(s, v as int, j as nat) < v as int,
        decreases l - i,
    {
        if u >= v {
            proof {
                let ii = i as int;
                assert(walk(s, v as int, ii as nat) == u as int);
                assert(!cycle_head(s, v as int));
            }
            return false;
        }
        proof {
            crate::graph::lemma_member_on_cycle(s, v as int, i as nat);
        }
        u = mapping[u];
        i = i + 1;
        proof {
            assert(u as int == walk(s, v as int, i as nat));
        }
    }
    true
}

/// The full instruction sequence the solver emits for a diagram.
pub open spec fn solve_spec(inputs: int, mapping: Seq<int>) -> Seq<SpecInstr> {
    let n = scratch_cell(inputs, mapping.len() as int);
    seq![SpecInstr::Start { cell: inputs - 1 }] + phase_a(inputs, mapping, n) + phase_b(
        inputs,
        mapping,
        n - 1,
    ) + seq![SpecInstr::Top { cell: mapping.len() - 1 }]
}

/// Given a [`StackEffectDiagram`] generate the list of instructions that
/// applies it.
///
/// The result is exactly [`solve_spec`] of the diagram; the proof functions
/// in [`crate::laws`] show that executing that sequence rearranges the cell
/// values as the diagram demands and touches one scratch cell only.
pub fn solve(diagram: &StackEffectDiagram) -> (res: Vec<Instruction>)
    requires
        diagram.wf(),
    ensures
        res.deep_view() == solve_spec(diagram.inputs as int, diagram.map_view()),
{
    let mapping = &diagram.mapping;
    let inputs = diagram.inputs;
    let ghost s = diagram.map_view();
    let ghost ii = inputs as int;
    let m = mapping.len();
    let n: usize = if inputs >= m {
        inputs
    } else {
        m
    };
    proof {
        assert(n as int == scratch_cell(ii, s.len() as int));
    }
    let mut res: Vec<Instruction> = Vec::new();
    res.push(Instruction::Start { cell: (inputs as isize) - 1 });
    let ghost start_seq = seq![SpecInstr::Start { cell: ii - 1 }];
    proof {
        assert(res.deep_view() =~= start_seq);
    }
    // cells off the cycles, by descending rank, ascending index within a rank
    let mut sv: usize = n + 1;
    while sv > 0
        invariant
            s == diagram.map_view(),
            diagram.wf(),
            mapping@ == diagram.mapping@,
            m == mapping.len(),
            inputs == diagram.inputs,
            n as int == scratch_cell(ii, s.len() as int),
            ii == inputs as int,
            sv <= n + 1,
            res.deep_view() + phase_a(ii, s, sv as int - 1) == start_seq + phase_a(
                ii,
                s,
                n as int,
            ),
        decreases sv,
    {
        sv = sv - 1;
        let ghost base = res.deep_view();
        let mut v: usize = 0;
        while v < n
            invariant
                s == diagram.map_view(),
                diagram.wf(),
                mapping@ == diagram.mapping@,
                m == mapping.len(),
                inputs == diagram.inputs,
                n as int == scratch_cell(ii, s.len() as int),
                ii == inputs as int,
                v <= n,
                res.deep_view() == base + rank_emit_below(ii, s, sv as int, v as int),
            decreases n - v,
        {
            let ghost pre = res.deep_view();
            if !is_on_cycle_at(mapping, v) && rank_at(mapping, v) == sv {
                let rs = readers_at(mapping, v);
                if rs.len() == 0 {
                    proof {
                        assert(readers(s, v as int).len() == 0);
                    }
                    if v < inputs {
                        res.push(Instruction::Clear { cell: v as isize });
                        proof {
                            assert(res.deep_view() =~= pre + acyclic_emit(ii, s, v as int));
                        }
                    } else {
                        proof {
                            assert(acyclic_emit(ii, s, v as int) =~= Seq::<SpecInstr>::empty());
                        }
                    }
                } else {
                    res.push(Instruction::Mov { cell: v as isize, to: rs });
                    proof {
                        assert(res.deep_view() =~= pre + acyclic_emit(ii, s, v as int));
                    }
                }
            }
            v = v + 1;
            proof {
                assert(res.deep_view() =~= base + rank_emit_below(ii, s, sv as int, v as int));
            }
        }
        proof {
            assert(res.deep_view() + phase_a(ii, s, sv as int - 1) =~= start_seq + phase_a(
                ii,
                s,
                n as int,
            ));
        }
    }
    // the cycles, handled at their heads, larger heads first
    let ghost base_b = res.deep_view();
    let mut v: usize = n;
    while v > 0
        invariant
            s == diagram.map_view(),
            diagram.wf(),
            mapping@ == diagram.mapping@,
            m == mapping.len(),
            inputs == diagram.inputs,
            n as int == scratch_cell(ii, s.len() as int),
            ii == inputs as int,
            v <= n,
            res.deep_view() + phase_b(ii, s, v as int - 1) == base_b + phase_b(
                ii,
                s,
                n as int - 1,
            ),
        decreases v,
    {
        v = v - 1;
        let ghost pre = res.deep_view();
        if is_cycle_head_at(mapping, v) {
            proof {
                crate::graph::lemma_cycle_len(s, v as int);
            }
            let l = cycle_len_at(mapping, v);
            let rs0 = readers_at(mapping, v);
            let skip = l == 1 && rs0.len() == 1 && rs0[0] == v as isize;
            if skip {
                proof {
                    assert(readers(s, v as int) =~= seq![v as int]);
                    assert(cycle_emit(ii, s, v as int) =~= Seq::<SpecInstr>::empty());
                    assert(res.deep_view() =~= pre + cycle_emit(ii, s, v as int));
                }
            } else {
                proof {
                    if cycle_len(s, v as int) == 1 && readers(s, v as int) =~= seq![
                        v as int,
                    ] {
                        assert(rs0@.map_values(|x: isize| x as int) =~= seq![v as int]);
                        assert(rs0@.map_values(|x: isize| x as int)[0] == v as int);
                        assert(rs0[0] as int == v as int);
                        assert(false);
                    }
                }
                let t = n as isize;
                let mut dst: Vec<isize> = Vec::new();
                dst.push(t);
                res.push(Instruction::Mov { cell: v as isize, to: dst });
                let ghost head_mov = seq![
                    SpecInstr::Mov { cell: v as int, to: seq![n as int] },
                ];
                proof {
                    assert(dst@.map_values(|x: isize| x as int) =~= seq![n as int]);
                    assert(res.deep_view() =~= pre + head_mov);
                }
                let mut u: usize = mapping[v];
                let mut j: usize = 1;
                proof {
                    crate::graph::lemma_walk_one(s, v as int);
                    assert(res.deep_view() =~= pre + head_mov + cycle_mids(s, v as int, 0));
                }
                while j < l
                    invariant
                        s == diagram.map_view(),
                        diagram.wf(),
                        mapping@ == diagram.mapping@,
                        m == mapping.len(),
                        inputs == diagram.inputs,
                        n as int == scratch_cell(ii, s.len() as int),
                        ii == inputs as int,
                        on_cycle(s, v as int),
                        v < m,
                        l as nat == cycle_len(s, v as int),
                        1 <= j <= l,
                        u as int == walk(s, v as int, j as nat),
                        res.deep_view() == pre + head_mov + cycle_mids(s, v as int, j as int
                            - 1),
                    decreases l - j,
                {
                    let ghost mid_pre = res.deep_view();
                    proof {
                        crate::graph::lemma_member_on_cycle(s, v as int, j as nat);
                    }
                    let rsu = readers_at(mapping, u);
                    res.push(Instruction::Mov { cell: u as isize, to: rsu });
                    proof {
                        assert(res.deep_view() =~= mid_pre + seq![
                            SpecInstr::Mov {
                                cell: walk(s, v as int, j as nat),
                                to: readers(s, walk(s, v as int, j as nat)),
                            },
                        ]);
                        assert(res.deep_view() =~= pre + head_mov + cycle_mids(
                            s,
                            v as int,
                            j as int,
                        ));
                    }
                    u = mapping[u];
                    j = j + 1;
                    proof {
                        assert(u as int == walk(s, v as int, j as nat));
                    }
                }
                res.push(Instruction::Mov { cell: t, to: rs0 });
                proof {
                    assert(res.deep_view() =~= pre + head_mov + cycle_mids(
                        s,
                        v as int,
                        l as int - 1,
                    ) + seq![SpecInstr::Mov { cell: n as int, to: readers(s, v as int) }]);
                    assert(res.deep_view() =~= pre + cycle_emit(ii, s, v as int));
                }
            }
        }
        proof {
            assert(res.deep_view() + phase_b(ii, s, v as int - 1) =~= base_b + phase_b(
                ii,
                s,
                n as int - 1,
            ));
        }
    }
    res.push(Instruction::Top { cell: (m as isize) - 1 });
    proof {
        assert(res.deep_view() =~= solve_spec(ii, s));
    }
    res
}

} // verus!
