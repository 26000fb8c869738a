//! What the solver's output does when executed.
//!
//! The central theorem, [`lemma_solve_correct`], says: start from any
//! memory whose input cells hold arbitrary values and whose other cells
//! hold zero, run the instructions [`crate::solve::solve_spec`] emits for a
//! valid diagram, and every output cell ends with the value of the input
//! the diagram maps it to, while every other cell ends at zero.
//!
//! The proof follows the solver's two phases with one invariant each: in
//! the first, the cells off the cycles are distributed in order of falling
//! rank, so a reader is always empty when its source's value arrives; in
//! the second, each cycle is rotated through the scratch cell, largest
//! head first.
//!
//! The other laws: the solver and the generator are deterministic
//! ([`lemma_solve_deterministic`], [`lemma_generate_deterministic`]); every
//! addressed cell lies within the data cells and the single scratch cell
//! ([`lemma_scratch_bound`]); every emitted move has somewhere to go and
//! never lists its own cell ([`lemma_mov_shape`]); the cycle-breaking rule
//! runs exactly once per cycle that needs one
//! ([`lemma_cycle_breaking_once`]); and a pure permutation with at most
//! one such cycle costs at most one data instruction per cell plus one
//! ([`lemma_cycle_property`]).

use crate::graph::cycle_head;
use crate::graph::cycle_len;
use crate::graph::fstep;
use crate::graph::lemma_cycle_len;
use crate::graph::lemma_cycle_reader;
use crate::graph::lemma_cycle_step;
use crate::graph::lemma_member_on_cycle;
use crate::graph::lemma_member_symm;
use crate::graph::lemma_members_distinct;
use crate::graph::lemma_rank;
use crate::graph::lemma_rank_step;
use crate::graph::lemma_readers;
use crate::graph::lemma_walk_one;
use crate::graph::member_of;
use crate::graph::on_cycle;
use crate::graph::rank;
use crate::graph::readers;
use crate::graph::scratch_cell;
use crate::graph::settled;
use crate::graph::valid_mapping;
use crate::graph::walk;
use crate::semantics::add_into;
use crate::semantics::full_mem;
use crate::semantics::lemma_add_into;
use crate::semantics::lemma_run_concat;
use crate::semantics::lemma_run_one;
use crate::semantics::run;
use crate::semantics::step;
use crate::solve::acyclic_emit;
use crate::solve::cycle_emit;
use crate::solve::cycle_mids;
use crate::solve::head_emit;
use crate::solve::node_emit;
use crate::solve::phase_a;
use crate::solve::phase_b;
use crate::solve::rank_emit_below;
use crate::solve::solve_spec;
use crate::solve::SpecInstr;
use vstd::prelude::*;

verus! {

/// A starting memory for a diagram with `inputs` sources: every cell that
/// is not an input slot holds zero; the input slots hold anything.
pub open spec fn initial_mem(inputs: int, init: Map<int, int>) -> bool {
    &&& full_mem(init)
    &&& forall|c: int| !(0 <= c < inputs) ==> init[c] == 0
}

/// Whether cell `w` has been handled by the first phase once it has worked
/// ranks above `rk` everywhere and rank `rk` below `upto`.
pub open spec fn adone(inputs: int, s: Seq<int>, rk: int, upto: int, w: int) -> bool {
    &&& !on_cycle(s, w)
    &&& 0 <= w < scratch_cell(inputs, s.len() as int)
    &&& (rank(s, w) > rk || (rank(s, w) == rk && w < upto))
}

/// What one data cell holds during the first phase: untouched cells keep
/// their starting value; a handled cell holds its final value once its
/// source has been handled too, and zero until then.
pub open spec fn cell_ok_a(
    inputs: int,
    s: Seq<int>,
    init: Map<int, int>,
    mem: Map<int, int>,
    rk: int,
    upto: int,
    c: int,
) -> bool {
    if !adone(inputs, s, rk, upto, c) {
        mem[c] == init[c]
    } else if 0 <= c < s.len() && adone(inputs, s, rk, upto, fstep(s, c)) {
        mem[c] == init[fstep(s, c)]
    } else {
        mem[c] == 0
    }
}

/// The memory invariant of the first phase.
pub open spec fn inv_a(
    inputs: int,
    s: Seq<int>,
    init: Map<int, int>,
    mem: Map<int, int>,
    rk: int,
    upto: int,
) -> bool {
    &&& full_mem(mem)
    &&& forall|c: int|
        0 <= c < scratch_cell(inputs, s.len() as int) ==> #[trigger] cell_ok_a(
            inputs,
            s,
            init,
            mem,
            rk,
            upto,
            c,
        )
    &&& mem[scratch_cell(inputs, s.len() as int)] == 0
    &&& forall|c: int|
        !(0 <= c <= scratch_cell(inputs, s.len() as int)) ==> mem[c] == init[c]
}

/// Handling one cell in the first phase preserves its invariant.
proof fn lemma_a_node(
    inputs: int,
    s: Seq<int>,
    init: Map<int, int>,
    mem: Map<int, int>,
    rk: int,
    v: int,
)
    requires
        valid_mapping(inputs, s),
        initial_mem(inputs, init),
        inv_a(inputs, s, init, mem, rk, v),
        0 <= v < scratch_cell(inputs, s.len() as int),
        0 <= rk,
    ensures
        inv_a(inputs, s, init, run(mem, node_emit(inputs, s, rk, v)), rk, v + 1),
{
    let n = scratch_cell(inputs, s.len() as int);
    let m = s.len() as int;
    let mem2 = run(mem, node_emit(inputs, s, rk, v));
    lemma_readers(s, v);
    let rs = readers(s, v);
    // which cells become handled at this step
    assert forall|w: int|
        adone(inputs, s, rk, v + 1, w) <==> (adone(inputs, s, rk, v, w) || (w == v
            && !on_cycle(s, v) && rank(s, v) == rk)) by {};
    if on_cycle(s, v) || rank(s, v) != rk {
        assert(node_emit(inputs, s, rk, v) =~= Seq::<SpecInstr>::empty());
        assert(mem2 == mem);
        assert forall|c: int| 0 <= c < n implies #[trigger] cell_ok_a(
            inputs,
            s,
            init,
            mem2,
            rk,
            v + 1,
            c,
        ) by {
            assert(cell_ok_a(inputs, s, init, mem, rk, v, c));
        };
    } else {
        // v is handled now: its readers are off the cycles and rank one above
        assert forall|t: int| 0 <= t < rs.len() implies !on_cycle(s, #[trigger] rs[t])
            && rank(s, rs[t]) == rk + 1 && adone(inputs, s, rk, v, rs[t]) && 0 <= rs[t]
            < m by {
            let r = rs[t];
            assert(0 <= r < m && s[r] == v);
            assert(fstep(s, r) == v);
            if on_cycle(s, r) {
                lemma_cycle_step(s, r);
                assert(false);
            }
            assert(!settled(s, r));
            lemma_rank_step(s, r);
        };
        if rs.len() == 0 {
            // no readers at all
            assert forall|c: int| 0 <= c < m && fstep(s, c) == v implies false by {
                assert(s[c] == v);
                assert(rs.contains(c));
            };
            if v < inputs {
                assert(node_emit(inputs, s, rk, v) =~= seq![SpecInstr::Clear { cell: v }]);
                lemma_run_one(mem, SpecInstr::Clear { cell: v });
                assert(mem2 == mem.insert(v, 0));
                assert forall|c: int| 0 <= c < n implies #[trigger] cell_ok_a(
                    inputs,
                    s,
                    init,
                    mem2,
                    rk,
                    v + 1,
                    c,
                ) by {
                    assert(cell_ok_a(inputs, s, init, mem, rk, v, c));
                    if c == v {
                        if 0 <= v < m {
                            assert(!settled(s, v));
                            lemma_rank_step(s, v);
                            assert(!adone(inputs, s, rk, v + 1, fstep(s, v)));
                        }
                    }
                };
            } else {
                assert(node_emit(inputs, s, rk, v) =~= Seq::<SpecInstr>::empty());
                assert(mem2 == mem);
                assert forall|c: int| 0 <= c < n implies #[trigger] cell_ok_a(
                    inputs,
                    s,
                    init,
                    mem2,
                    rk,
                    v + 1,
                    c,
                ) by {
                    assert(cell_ok_a(inputs, s, init, mem, rk, v, c));
                    if c == v {
                        assert(!adone(inputs, s, rk, v, v));
                        assert(mem[v] == init[v]);
                        assert(init[v] == 0);
                        if 0 <= v < m {
                            assert(!settled(s, v));
                            lemma_rank_step(s, v);
                            assert(!adone(inputs, s, rk, v + 1, fstep(s, v)));
                        }
                    }
                };
            }
        } else {
            // move v into its readers
            assert(node_emit(inputs, s, rk, v) =~= seq![SpecInstr::Mov { cell: v, to: rs }]);
            lemma_run_one(mem, SpecInstr::Mov { cell: v, to: rs });
            let mem1 = mem.insert(v, 0);
            assert(mem2 == add_into(mem1, rs, mem[v]));
            if rs.contains(v) {
                assert(fstep(s, v) == v);
                assert(walk(s, v, 1) == v) by {
                    lemma_walk_one(s, v);
                };
                assert(1 <= 1 <= s.len() && walk(s, v, 1 as nat) == v);
                assert(on_cycle(s, v));
                assert(false);
            }
            lemma_add_into(mem1, rs, mem[v]);
            assert(!adone(inputs, s, rk, v, v));
            assert(cell_ok_a(inputs, s, init, mem, rk, v, v));
            assert(mem[v] == init[v]);
            assert forall|c: int| 0 <= c < n implies #[trigger] cell_ok_a(
                inputs,
                s,
                init,
                mem2,
                rk,
                v + 1,
                c,
            ) by {
                assert(cell_ok_a(inputs, s, init, mem, rk, v, c));
                if c == v {
                    assert(mem2[v] == mem1[v]);
                    if 0 <= v < m {
                        assert(!settled(s, v));
                        lemma_rank_step(s, v);
                        assert(!adone(inputs, s, rk, v + 1, fstep(s, v)));
                    }
                } else if rs.contains(c) {
                    let t = choose|t: int| 0 <= t < rs.len() && rs[t] == c;
                    assert(fstep(s, c) == v);
                    assert(adone(inputs, s, rk, v, c));
                    assert(!adone(inputs, s, rk, v, fstep(s, c)));
                    assert(mem[c] == 0);
                    assert(mem2[c] == mem1[c] + init[v]);
                    assert(mem2[c] == init[fstep(s, c)]);
                    assert(adone(inputs, s, rk, v + 1, fstep(s, c)));
                } else {
                    assert(mem2[c] == mem[c]);
                    if 0 <= c < m && fstep(s, c) == v {
                        assert(s[c] == v);
                        assert(rs.contains(c));
                        assert(false);
                    }
                }
            };
            assert(!rs.contains(n)) by {
                if rs.contains(n) {
                    let t = choose|t: int| 0 <= t < rs.len() && rs[t] == n;
                }
            };
            assert(mem2[n] == 0);
            assert forall|c: int| !(0 <= c <= n) implies mem2[c] == init[c] by {
                if rs.contains(c) {
                    let t = choose|t: int| 0 <= t < rs.len() && rs[t] == c;
                }
            };
        }
    }
}

/// Working through the cells below `upto` at one rank preserves the
/// first phase's invariant.
proof fn lemma_a_rank_below(
    inputs: int,
    s: Seq<int>,
    init: Map<int, int>,
    mem: Map<int, int>,
    rk: int,
    upto: int,
)
    requires
        valid_mapping(inputs, s),
        initial_mem(inputs, init),
        inv_a(inputs, s, init, mem, rk, 0),
        0 <= rk,
        0 <= upto <= scratch_cell(inputs, s.len() as int),
    ensures
        inv_a(inputs, s, init, run(mem, rank_emit_below(inputs, s, rk, upto)), rk, upto),
    decreases upto,
{
    if upto == 0 {
        assert(rank_emit_below(inputs, s, rk, 0) =~= Seq::<SpecInstr>::empty());
    } else {
        lemma_a_rank_below(inputs, s, init, mem, rk, upto - 1);
        let done = rank_emit_below(inputs, s, rk, upto - 1);
        let mem1 = run(mem, done);
        lemma_run_concat(mem, done, node_emit(inputs, s, rk, upto - 1));
        lemma_a_node(inputs, s, init, mem1, rk, upto - 1);
    }
}

/// Once a rank is finished everywhere, the next rank starts with the same
/// set of handled cells.
proof fn lemma_a_next_rank(
    inputs: int,
    s: Seq<int>,
    init: Map<int, int>,
    mem: Map<int, int>,
    rk: int,
)
    requires
        inv_a(inputs, s, init, mem, rk, scratch_cell(inputs, s.len() as int)),
        1 <= rk,
    ensures
        inv_a(inputs, s, init, mem, rk - 1, 0),
{
    let n = scratch_cell(inputs, s.len() as int);
    assert forall|w: int|
        adone(inputs, s, rk, n, w) <==> adone(inputs, s, rk - 1, 0, w) by {};
    assert forall|c: int| 0 <= c < n implies #[trigger] cell_ok_a(
        inputs,
        s,
        init,
        mem,
        rk - 1,
        0,
        c,
    ) by {
        assert(cell_ok_a(inputs, s, init, mem, rk, n, c));
    };
}

/// Running the whole first phase from rank `rk` down distributes every
/// cell off the cycles.
proof fn lemma_a_all(
    inputs: int,
    s: Seq<int>,
    init: Map<int, int>,
    mem: Map<int, int>,
    rk: int,
)
    requires
        valid_mapping(inputs, s),
        initial_mem(inputs, init),
        inv_a(inputs, s, init, mem, rk, 0),
        0 <= rk,
    ensures
        inv_a(
            inputs,
            s,
            init,
            run(mem, phase_a(inputs, s, rk)),
            0,
            scratch_cell(inputs, s.len() as int),
        ),
    decreases rk,
{
    let n = scratch_cell(inputs, s.len() as int);
    let e1 = rank_emit_below(inputs, s, rk, n);
    lemma_a_rank_below(inputs, s, init, mem, rk, n);
    lemma_run_concat(mem, e1, phase_a(inputs, s, rk - 1));
    let mem1 = run(mem, e1);
    if rk == 0 {
        assert(phase_a(inputs, s, -1) =~= Seq::<SpecInstr>::empty());
    } else {
        lemma_a_next_rank(inputs, s, init, mem1, rk);
        lemma_a_all(inputs, s, init, mem1, rk - 1);
    }
}

/// The starting memory satisfies the first phase's invariant: no cell has
/// been handled yet.
proof fn lemma_a_start(inputs: int, s: Seq<int>, init: Map<int, int>)
    requires
        valid_mapping(inputs, s),
        initial_mem(inputs, init),
    ensures
        inv_a(inputs, s, init, init, scratch_cell(inputs, s.len() as int), 0),
{
    let n = scratch_cell(inputs, s.len() as int);
    assert forall|w: int| !adone(inputs, s, n, 0, w) by {
        lemma_rank(s, w);
    };
    assert forall|c: int| 0 <= c < n implies #[trigger] cell_ok_a(
        inputs,
        s,
        init,
        init,
        n,
        0,
        c,
    ) by {
        assert(!adone(inputs, s, n, 0, c));
    };
}

/// Whether the cycle through `w` has been handled once the second phase
/// has worked every head above `scan`: some member (in particular the
/// head, its largest member) lies above `scan`.
pub open spec fn orbit_done(s: Seq<int>, scan: int, w: int) -> bool {
    &&& on_cycle(s, w)
    &&& exists|i: int|
        0 <= i < cycle_len(s, w) && #[trigger] walk(s, w, i as nat) > scan
}

/// Whether the source feeding acyclic cell `c` has been distributed by the
/// time the second phase has worked the heads above `scan`: sources off
/// the cycles were distributed by the first phase.
pub open spec fn src_done(s: Seq<int>, scan: int, c: int) -> bool {
    !on_cycle(s, fstep(s, c)) || orbit_done(s, scan, fstep(s, c))
}

/// What one data cell holds during the second phase.
pub open spec fn cell_ok_b(
    inputs: int,
    s: Seq<int>,
    init: Map<int, int>,
    mem: Map<int, int>,
    scan: int,
    c: int,
) -> bool {
    if on_cycle(s, c) {
        if orbit_done(s, scan, c) {
            mem[c] == init[fstep(s, c)]
        } else {
            mem[c] == init[c]
        }
    } else {
        if 0 <= c < s.len() && src_done(s, scan, c) {
            mem[c] == init[fstep(s, c)]
        } else {
            mem[c] == 0
        }
    }
}

/// The memory invariant of the second phase.
pub open spec fn inv_b(
    inputs: int,
    s: Seq<int>,
    init: Map<int, int>,
    mem: Map<int, int>,
    scan: int,
) -> bool {
    &&& full_mem(mem)
    &&& forall|c: int|
        0 <= c < scratch_cell(inputs, s.len() as int) ==> #[trigger] cell_ok_b(
            inputs,
            s,
            init,
            mem,
            scan,
            c,
        )
    &&& mem[scratch_cell(inputs, s.len() as int)] == 0
    &&& forall|c: int|
        !(0 <= c <= scratch_cell(inputs, s.len() as int)) ==> mem[c] == init[c]
}

/// No cycle is handled before the second phase starts its scan at the top.
proof fn lemma_orbit_none(inputs: int, s: Seq<int>, w: int)
    requires
        valid_mapping(inputs, s),
    ensures
        !orbit_done(s, scratch_cell(inputs, s.len() as int) - 1, w),
{
    let n = scratch_cell(inputs, s.len() as int);
    if orbit_done(s, n - 1, w) {
        let i = choose|i: int|
            0 <= i < cycle_len(s, w) && #[trigger] walk(s, w, i as nat) > n - 1;
        lemma_member_on_cycle(s, w, i as nat);
        assert(walk(s, w, i as nat) < s.len());
        assert(false);
    }
}

/// When the first phase ends, the second phase's invariant holds with no
/// cycle handled yet.
proof fn lemma_a_to_b(inputs: int, s: Seq<int>, init: Map<int, int>, mem: Map<int, int>)
    requires
        valid_mapping(inputs, s),
        initial_mem(inputs, init),
        inv_a(inputs, s, init, mem, 0, scratch_cell(inputs, s.len() as int)),
    ensures
        inv_b(inputs, s, init, mem, scratch_cell(inputs, s.len() as int) - 1),
{
    let n = scratch_cell(inputs, s.len() as int);
    let m = s.len() as int;
    assert forall|c: int| 0 <= c < n implies #[trigger] cell_ok_b(
        inputs,
        s,
        init,
        mem,
        n - 1,
        c,
    ) by {
        assert(cell_ok_a(inputs, s, init, mem, 0, n, c));
        lemma_orbit_none(inputs, s, c);
        if on_cycle(s, c) {
            assert(!adone(inputs, s, 0, n, c));
        } else {
            assert(adone(inputs, s, 0, n, c));
            if 0 <= c < m {
                lemma_orbit_none(inputs, s, fstep(s, c));
                assert(0 <= fstep(s, c) < n);
                assert(src_done(s, n - 1, c) <==> !on_cycle(s, fstep(s, c)));
                assert(adone(inputs, s, 0, n, fstep(s, c)) <==> !on_cycle(s, fstep(s, c)));
            }
        }
    };
}

/// Scanning past a cell that heads no cycle handles nothing: the set of
/// handled cycles is unchanged.
proof fn lemma_b_scan(inputs: int, s: Seq<int>, v: int, w: int)
    requires
        valid_mapping(inputs, s),
        !cycle_head(s, v),
    ensures
        orbit_done(s, v - 1, w) == orbit_done(s, v, w),
{
    if orbit_done(s, v - 1, w) && !orbit_done(s, v, w) {
        let i = choose|i: int|
            0 <= i < cycle_len(s, w) && #[trigger] walk(s, w, i as nat) > v - 1;
        assert(walk(s, w, i as nat) == v);
        lemma_member_symm(s, w, i);
        assert(on_cycle(s, v));
        lemma_cycle_len(s, v);
        // v is no head, so some other member of its cycle is larger
        assert(exists|t: int|
            1 <= t < cycle_len(s, v) && !(#[trigger] walk(s, v, t as nat) < v));
        let t = choose|t: int|
            1 <= t < cycle_len(s, v) && !(#[trigger] walk(s, v, t as nat) < v);
        assert(walk(s, v, t as nat) != v);
        assert(walk(s, v, t as nat) > v - 1);
        // that member also belongs to w's cycle
        assert(member_of(s, v, walk(s, v, t as nat)));
        assert(member_of(s, w, walk(s, v, t as nat)));
        let t2 = choose|t2: int|
            0 <= t2 < cycle_len(s, w) && #[trigger] walk(s, w, t2 as nat) == walk(
                s,
                v,
                t as nat,
            );
        assert(orbit_done(s, v, w));
        assert(false);
    }
}

/// Whether acyclic cell `c` reads one of the members `1..=j` steps past
/// the head `v` of its cycle — the readers already served mid-rotation.
pub open spec fn moved_reader(s: Seq<int>, v: int, j: int, c: int) -> bool {
    &&& 0 <= c < s.len()
    &&& !on_cycle(s, c)
    &&& exists|i: int| 1 <= i <= j && fstep(s, c) == #[trigger] walk(s, v, i as nat)
}

/// The memory invariant in the middle of rotating the cycle headed at `v`:
/// the head's value is parked in the scratch cell, the members up to `j`
/// steps past the head have been distributed, the rest still wait, and
/// every cell off this cycle is as the second phase left it.
pub open spec fn inv_c(
    inputs: int,
    s: Seq<int>,
    init: Map<int, int>,
    mem: Map<int, int>,
    v: int,
    j: int,
) -> bool {
    let n = scratch_cell(inputs, s.len() as int);
    let len = cycle_len(s, v) as int;
    &&& full_mem(mem)
    &&& mem[n] == init[v]
    &&& forall|i: int|
        1 <= i <= j ==> mem[walk(s, v, (i - 1) as nat)] == init[#[trigger] walk(
            s,
            v,
            i as nat,
        )]
    &&& mem[walk(s, v, j as nat)] == 0
    &&& forall|i: int|
        j < i < len ==> mem[#[trigger] walk(s, v, i as nat)] == init[walk(s, v, i as nat)]
    &&& forall|c: int| #[trigger] moved_reader(s, v, j, c) ==> mem[c] == init[fstep(s, c)]
    &&& forall|c: int|
        0 <= c < n && !member_of(s, v, c) && !moved_reader(s, v, j, c)
            ==> #[trigger] cell_ok_b(inputs, s, init, mem, v, c)
    &&& forall|c: int| !(0 <= c <= n) ==> mem[c] == init[c]
}

/// No member of the cycle headed at `v` counts as handled while the scan
/// stands at `v`: the head is the largest member.
proof fn lemma_head_orbit_pending(s: Seq<int>, v: int, c: int)
    requires
        cycle_head(s, v),
        member_of(s, v, c),
    ensures
        on_cycle(s, c),
        !orbit_done(s, v, c),
{
    let i0 = choose|i: int|
        0 <= i < cycle_len(s, v) && #[trigger] walk(s, v, i as nat) == c;
    lemma_member_symm(s, v, i0);
    if orbit_done(s, v, c) {
        let j = choose|j: int|
            0 <= j < cycle_len(s, c) && #[trigger] walk(s, c, j as nat) > v;
        assert(member_of(s, c, walk(s, c, j as nat)));
        assert(member_of(s, v, walk(s, c, j as nat)));
        let t = choose|t: int|
            0 <= t < cycle_len(s, v) && #[trigger] walk(s, v, t as nat) == walk(
                s,
                c,
                j as nat,
            );
        if t == 0 {
            assert(walk(s, v, 0) == v);
            assert(false);
        }
        assert(false);
    }
}

/// The cycle cells reading from the member `i` steps past the head `v`:
/// exactly the member one step before it around the cycle.
proof fn lemma_member_reader_shape(s: Seq<int>, v: int, i: int) -> (p: int)
    requires
        on_cycle(s, v),
        0 <= i < cycle_len(s, v),
    ensures
        p == if i == 0 {
            cycle_len(s, v) - 1
        } else {
            i - 1
        },
        0 <= p < cycle_len(s, v),
        fstep(s, walk(s, v, p as nat)) == walk(s, v, i as nat),
        forall|w: int|
            on_cycle(s, w) && fstep(s, w) == walk(s, v, i as nat) ==> w == walk(
                s,
                v,
                p as nat,
            ),
{
    lemma_cycle_len(s, v);
    let len = cycle_len(s, v) as int;
    let p: int = if i == 0 {
        len - 1
    } else {
        i - 1
    };
    assert(walk(s, v, (p + 1) as nat) == fstep(s, walk(s, v, p as nat)));
    if i == 0 {
        assert(walk(s, v, (p + 1) as nat) == v);
        assert(walk(s, v, 0) == v);
    }
    assert forall|w: int|
        on_cycle(s, w) && fstep(s, w) == walk(s, v, i as nat) implies w == walk(
        s,
        v,
        p as nat,
    ) by {
        lemma_cycle_reader(s, v, i, w);
        vstd::arithmetic::div_mod::lemma_mod_pos_bound(i + len - 1, len);
        if i == 0 {
            vstd::arithmetic::div_mod::lemma_small_mod((len - 1) as nat, len as nat);
        } else {
            vstd::arithmetic::div_mod::lemma_mod_sub_multiples_vanish(i + len - 1, len);
            vstd::arithmetic::div_mod::lemma_small_mod((i - 1) as nat, len as nat);
        }
    };
    p
}

/// Parking the head's value in the scratch cell begins the rotation.
proof fn lemma_c_start(
    inputs: int,
    s: Seq<int>,
    init: Map<int, int>,
    mem: Map<int, int>,
    v: int,
)
    requires
        valid_mapping(inputs, s),
        initial_mem(inputs, init),
        inv_b(inputs, s, init, mem, v),
        cycle_head(s, v),
        0 <= v < scratch_cell(inputs, s.len() as int),
    ensures
        inv_c(
            inputs,
            s,
            init,
            step(
                mem,
                SpecInstr::Mov {
                    cell: v,
                    to: seq![scratch_cell(inputs, s.len() as int)],
                },
            ),
            v,
            0,
        ),
{
    let n = scratch_cell(inputs, s.len() as int);
    let len = cycle_len(s, v) as int;
    lemma_cycle_len(s, v);
    let to = seq![n];
    let mem1 = mem.insert(v, 0);
    lemma_add_into(mem1, to, mem[v]);
    let mem2 = step(mem, SpecInstr::Mov { cell: v, to });
    let zero: int = 0;
    assert(walk(s, v, zero as nat) == v);
    assert(member_of(s, v, v));
    lemma_head_orbit_pending(s, v, v);
    assert(cell_ok_b(inputs, s, init, mem, v, v));
    assert(mem[v] == init[v]);
    assert(to.contains(n)) by {
        assert(to[0] == n);
    };
    assert forall|c: int| c != n implies !to.contains(c) by {
        if to.contains(c) {
            let t = choose|t: int| 0 <= t < to.len() && to[t] == c;
        }
    };
    assert(mem2[n] == init[v]);
    assert(!to.contains(v)) by {
        if to.contains(v) {
            let t = choose|t: int| 0 <= t < to.len() && to[t] == v;
        }
    };
    assert(mem2[v] == mem1[v]);
    assert(mem2[v] == 0);
    assert(walk(s, v, 0) == v);
    assert forall|i: int| 0 < i < len implies mem2[#[trigger] walk(s, v, i as nat)]
        == init[walk(s, v, i as nat)] by {
        let c = walk(s, v, i as nat);
        lemma_members_distinct(s, v, 0, i);
        lemma_member_on_cycle(s, v, i as nat);
        assert(member_of(s, v, c));
        lemma_head_orbit_pending(s, v, c);
        assert(cell_ok_b(inputs, s, init, mem, v, c));
        assert(mem[c] == init[c]);
        assert(c != n);
        assert(!to.contains(c));
        assert(mem2[c] == mem[c]);
    };
    assert forall|c: int| #[trigger] moved_reader(s, v, 0, c) implies false by {};
    assert forall|c: int|
        0 <= c < n && !member_of(s, v, c) && !moved_reader(s, v, 0, c)
            implies #[trigger] cell_ok_b(inputs, s, init, mem2, v, c) by {
        assert(cell_ok_b(inputs, s, init, mem, v, c));
        assert(c != v) by {
            if c == v {
                assert(walk(s, v, 0) == v);
                assert(member_of(s, v, c));
            }
        };
        assert(!to.contains(c));
        assert(mem2[c] == mem[c]);
    };
    assert forall|c: int|
        !(0 <= c <= n) implies mem2[c] == init[c] by {
        assert(!to.contains(c));
        assert(c != v);
        assert(mem2[c] == mem[c]);
    };
}

/// The immediate effect of moving the member `j` steps past the head `v`
/// into its readers: what every cell receives.
proof fn lemma_c_step_setup(
    inputs: int,
    s: Seq<int>,
    init: Map<int, int>,
    mem: Map<int, int>,
    v: int,
    j: int,
)
    requires
        valid_mapping(inputs, s),
        initial_mem(inputs, init),
        cycle_head(s, v),
        0 <= v < scratch_cell(inputs, s.len() as int),
        1 <= j < cycle_len(s, v),
        inv_c(inputs, s, init, mem, v, j - 1),
    ensures
        ({
            let u = walk(s, v, j as nat);
            let rs = readers(s, u);
            let mem2 = step(mem, SpecInstr::Mov { cell: u, to: rs });
            &&& full_mem(mem2)
            &&& mem[u] == init[u]
            &&& !rs.contains(u)
            &&& rs.contains(walk(s, v, (j - 1) as nat))
            &&& forall|c: int|
                #[trigger] rs.contains(c) ==> 0 <= c < s.len() && fstep(s, c) == u
            &&& forall|c: int| 0 <= c < s.len() && fstep(s, c) == u ==> #[trigger] rs.contains(c)
            &&& forall|c: int| #[trigger] rs.contains(c) ==> mem2[c] == mem[c] + init[u]
            &&& forall|c: int| !(#[trigger] rs.contains(c)) && c != u ==> mem2[c] == mem[c]
            &&& mem2[u] == 0
            &&& forall|c: int|
                on_cycle(s, c) && #[trigger] rs.contains(c) ==> c == walk(s, v, (j - 1) as nat)
        }),
{
    let n = scratch_cell(inputs, s.len() as int);
    let m = s.len() as int;
    let len = cycle_len(s, v) as int;
    lemma_cycle_len(s, v);
    let u = walk(s, v, j as nat);
    lemma_member_on_cycle(s, v, j as nat);
    lemma_readers(s, u);
    let rs = readers(s, u);
    let p = lemma_member_reader_shape(s, v, j);
    let prev = walk(s, v, (j - 1) as nat);
    assert(rs.contains(prev)) by {
        assert(fstep(s, prev) == u);
        assert(0 <= prev < m) by {
            lemma_member_on_cycle(s, v, (j - 1) as nat);
        };
        assert(s[prev] == u);
    };
    assert(!rs.contains(u)) by {
        if rs.contains(u) {
            let t = choose|t: int| 0 <= t < rs.len() && rs[t] == u;
            assert(fstep(s, u) == u);
            assert(walk(s, v, (j + 1) as nat) == u);
            if j + 1 < len {
                lemma_members_distinct(s, v, j, j + 1);
            } else {
                assert(walk(s, v, (j + 1) as nat) == v);
                assert(walk(s, v, 0) == v);
                lemma_members_distinct(s, v, 0, j);
            }
            assert(false);
        }
    };
    assert(mem[u] == init[u]) by {
        assert(j - 1 < j < len);
    };
    assert forall|c: int| #[trigger] rs.contains(c) implies 0 <= c < m && fstep(s, c)
        == u by {
        let t = choose|t: int| 0 <= t < rs.len() && rs[t] == c;
    };
    assert forall|c: int| 0 <= c < m && fstep(s, c) == u implies #[trigger] rs.contains(
        c,
    ) by {
        assert(s[c] == u);
    };
    let mem1 = mem.insert(u, 0);
    lemma_add_into(mem1, rs, mem[u]);
    assert forall|c: int| #[trigger] rs.contains(c) implies step(
        mem,
        SpecInstr::Mov { cell: u, to: rs },
    )[c] == mem[c] + init[u] by {
        assert(c != u);
        assert(mem1[c] == mem[c]);
    };
}

/// Moving the member `j` steps past the head to its readers advances the
/// rotation by one cell.
proof fn lemma_c_step_cells(
    inputs: int,
    s: Seq<int>,
    init: Map<int, int>,
    mem: Map<int, int>,
    v: int,
    j: int,
)
    requires
        valid_mapping(inputs, s),
        initial_mem(inputs, init),
        cycle_head(s, v),
        0 <= v < scratch_cell(inputs, s.len() as int),
        1 <= j < cycle_len(s, v),
        inv_c(inputs, s, init, mem, v, j - 1),
    ensures
        ({
            let u = walk(s, v, j as nat);
            let mem2 = step(mem, SpecInstr::Mov { cell: u, to: readers(s, u) });
            let n = scratch_cell(inputs, s.len() as int);
            &&& full_mem(mem2)
            &&& mem2[n] == init[v]
            &&& forall|i: int|
                1 <= i <= j ==> mem2[walk(s, v, (i - 1) as nat)] == init[#[trigger] walk(
                    s,
                    v,
                    i as nat,
                )]
            &&& mem2[walk(s, v, j as nat)] == 0
            &&& forall|i: int|
                j < i < cycle_len(s, v) ==> mem2[#[trigger] walk(s, v, i as nat)] == init[
                    walk(s, v, i as nat)
                ]
            &&& forall|c: int| !(0 <= c <= n) ==> mem2[c] == init[c]
        }),
{
    let n = scratch_cell(inputs, s.len() as int);
    let m = s.len() as int;
    let len = cycle_len(s, v) as int;
    lemma_cycle_len(s, v);
    let u = walk(s, v, j as nat);
    lemma_member_on_cycle(s, v, j as nat);
    let rs = readers(s, u);
    let prev = walk(s, v, (j - 1) as nat);
    let mem2 = step(mem, SpecInstr::Mov { cell: u, to: rs });
    lemma_c_step_setup(inputs, s, init, mem, v, j);
    // the scratch cell still parks the head's value
    assert(!rs.contains(n));
    assert(mem2[n] == init[v]);
    // members up to j have been distributed
    assert forall|i: int| 1 <= i <= j implies mem2[walk(s, v, (i - 1) as nat)] == init[
        #[trigger] walk(s, v, i as nat)
    ] by {
        let c = walk(s, v, (i - 1) as nat);
        lemma_member_on_cycle(s, v, (i - 1) as nat);
        if i == j {
            assert(mem[c] == 0);
            assert(mem2[c] == 0 + init[u]);
        } else {
            assert(c != u) by {
                lemma_members_distinct(s, v, i - 1, j);
            };
            assert(!rs.contains(c)) by {
                if rs.contains(c) {
                    assert(c == prev);
                    lemma_members_distinct(s, v, i - 1, j - 1);
                    assert(false);
                }
            };
            assert(mem2[c] == mem[c]);
        }
    };
    // members past j still wait
    assert forall|i: int| j < i < len implies mem2[#[trigger] walk(s, v, i as nat)]
        == init[walk(s, v, i as nat)] by {
        let c = walk(s, v, i as nat);
        lemma_member_on_cycle(s, v, i as nat);
        assert(c != u) by {
            lemma_members_distinct(s, v, j, i);
        };
        assert(!rs.contains(c)) by {
            if rs.contains(c) {
                assert(c == prev);
                lemma_members_distinct(s, v, j - 1, i);
                assert(false);
            }
        };
        assert(mem2[c] == mem[c]);
    };
    // cells outside the data range are untouched
    assert forall|c: int| !(0 <= c <= n) implies mem2[c] == init[c] by {
        assert(!rs.contains(c));
        assert(c != u);
        assert(mem2[c] == mem[c]);
    };
}

proof fn lemma_c_step_served(
    inputs: int,
    s: Seq<int>,
    init: Map<int, int>,
    mem: Map<int, int>,
    v: int,
    j: int,
)
    requires
        valid_mapping(inputs, s),
        initial_mem(inputs, init),
        cycle_head(s, v),
        0 <= v < scratch_cell(inputs, s.len() as int),
        1 <= j < cycle_len(s, v),
        inv_c(inputs, s, init, mem, v, j - 1),
    ensures
        ({
            let u = walk(s, v, j as nat);
            let mem2 = step(mem, SpecInstr::Mov { cell: u, to: readers(s, u) });
            let n = scratch_cell(inputs, s.len() as int);
            &&& forall|c: int|
                #[trigger] moved_reader(s, v, j, c) ==> mem2[c] == init[fstep(s, c)]
            &&& forall|c: int|
                0 <= c < n && !member_of(s, v, c) && !moved_reader(s, v, j, c)
                    ==> #[trigger] cell_ok_b(inputs, s, init, mem2, v, c)
        }),
{
    let n = scratch_cell(inputs, s.len() as int);
    let m = s.len() as int;
    let len = cycle_len(s, v) as int;
    lemma_cycle_len(s, v);
    let u = walk(s, v, j as nat);
    lemma_member_on_cycle(s, v, j as nat);
    let rs = readers(s, u);
    let prev = walk(s, v, (j - 1) as nat);
    let mem2 = step(mem, SpecInstr::Mov { cell: u, to: rs });
    lemma_c_step_setup(inputs, s, init, mem, v, j);
    // readers already served keep their values; the new ones are served now
    assert forall|c: int| #[trigger] moved_reader(s, v, j, c) implies mem2[c] == init[
        fstep(s, c)
    ] by {
        let i = choose|i: int| 1 <= i <= j && fstep(s, c) == #[trigger] walk(s, v, i as nat);
        if i < j {
            assert(moved_reader(s, v, j - 1, c));
            assert(mem[c] == init[fstep(s, c)]);
            assert(!rs.contains(c)) by {
                if rs.contains(c) {
                    lemma_members_distinct(s, v, i, j);
                    assert(false);
                }
            };
            assert(c != u);
            assert(mem2[c] == mem[c]);
        } else {
            assert(fstep(s, c) == u);
            assert(rs.contains(c));
            assert(!moved_reader(s, v, j - 1, c)) by {
                if moved_reader(s, v, j - 1, c) {
                    let i2 = choose|i2: int|
                        1 <= i2 <= j - 1 && fstep(s, c) == #[trigger] walk(s, v, i2 as nat);
                    lemma_members_distinct(s, v, i2, j);
                    assert(false);
                }
            };
            assert(!member_of(s, v, c)) by {
                if member_of(s, v, c) {
                    let t = choose|t: int|
                        0 <= t < cycle_len(s, v) && #[trigger] walk(s, v, t as nat) == c;
                    lemma_member_on_cycle(s, v, t as nat);
                    assert(on_cycle(s, c));
                    assert(false);
                }
            };
            assert(cell_ok_b(inputs, s, init, mem, v, c));
            assert(member_of(s, v, u));
            lemma_head_orbit_pending(s, v, u);
            assert(!src_done(s, v, c));
            assert(mem[c] == 0);
            assert(mem2[c] == 0 + init[u]);
        }
    };
    // everything off this cycle is as the second phase left it
    assert forall|c: int|
        0 <= c < n && !member_of(s, v, c) && !moved_reader(s, v, j, c)
            implies #[trigger] cell_ok_b(inputs, s, init, mem2, v, c) by {
        assert(!moved_reader(s, v, j - 1, c)) by {
            if moved_reader(s, v, j - 1, c) {
                let i2 = choose|i2: int|
                    1 <= i2 <= j - 1 && fstep(s, c) == #[trigger] walk(s, v, i2 as nat);
                assert(moved_reader(s, v, j, c));
            }
        };
        assert(cell_ok_b(inputs, s, init, mem, v, c));
        assert(c != u) by {
            if c == u {
                assert(member_of(s, v, c));
            }
        };
        assert(!rs.contains(c)) by {
            if rs.contains(c) {
                if on_cycle(s, c) {
                    assert(c == prev);
                    assert(member_of(s, v, c)) by {
                        assert(walk(s, v, (j - 1) as nat) == c);
                    };
                } else {
                    assert(moved_reader(s, v, j, c));
                }
                assert(false);
            }
        };
        assert(mem2[c] == mem[c]);
    };
}

/// Moving the member `j` steps past the head to its readers advances the
/// rotation by one cell.
proof fn lemma_c_step(
    inputs: int,
    s: Seq<int>,
    init: Map<int, int>,
    mem: Map<int, int>,
    v: int,
    j: int,
)
    requires
        valid_mapping(inputs, s),
        initial_mem(inputs, init),
        cycle_head(s, v),
        0 <= v < scratch_cell(inputs, s.len() as int),
        1 <= j < cycle_len(s, v),
        inv_c(inputs, s, init, mem, v, j - 1),
    ensures
        inv_c(
            inputs,
            s,
            init,
            step(
                mem,
                SpecInstr::Mov {
                    cell: walk(s, v, j as nat),
                    to: readers(s, walk(s, v, j as nat)),
                },
            ),
            v,
            j,
        ),
{
    lemma_c_step_cells(inputs, s, init, mem, v, j);
    lemma_c_step_served(inputs, s, init, mem, v, j);
}

/// Scanning past the head `v` of a cycle marks exactly that cycle handled.
proof fn lemma_b_head_scan(s: Seq<int>, v: int, w: int)
    requires
        cycle_head(s, v),
    ensures
        orbit_done(s, v - 1, w) <==> (orbit_done(s, v, w) || (on_cycle(s, w)
            && member_of(s, v, w))),
{
    lemma_cycle_len(s, v);
    if on_cycle(s, w) && member_of(s, v, w) {
        let i0 = choose|i: int|
            0 <= i < cycle_len(s, v) && #[trigger] walk(s, v, i as nat) == w;
        lemma_member_symm(s, v, i0);
        assert(member_of(s, v, v)) by {
            let zero: int = 0;
            assert(walk(s, v, zero as nat) == v);
        };
        assert(member_of(s, w, v));
        let t = choose|t: int|
            0 <= t < cycle_len(s, w) && #[trigger] walk(s, w, t as nat) == v;
        assert(orbit_done(s, v - 1, w));
    }
    if orbit_done(s, v, w) {
        let i = choose|i: int|
            0 <= i < cycle_len(s, w) && #[trigger] walk(s, w, i as nat) > v;
        assert(orbit_done(s, v - 1, w));
    }
    if orbit_done(s, v - 1, w) && !orbit_done(s, v, w) {
        let i = choose|i: int|
            0 <= i < cycle_len(s, w) && #[trigger] walk(s, w, i as nat) > v - 1;
        assert(walk(s, w, i as nat) == v);
        lemma_member_symm(s, w, i);
        assert(member_of(s, w, w)) by {
            let zero: int = 0;
            assert(walk(s, w, zero as nat) == w);
        };
        assert(member_of(s, v, w));
    }
}

/// A cell whose value is already in place and read nowhere else needs no
/// rotation: scanning past it still handles its cycle.
proof fn lemma_b_head_trivial(
    inputs: int,
    s: Seq<int>,
    init: Map<int, int>,
    mem: Map<int, int>,
    v: int,
)
    requires
        valid_mapping(inputs, s),
        initial_mem(inputs, init),
        inv_b(inputs, s, init, mem, v),
        cycle_head(s, v),
        0 <= v < scratch_cell(inputs, s.len() as int),
        cycle_len(s, v) == 1,
        readers(s, v) == seq![v],
    ensures
        inv_b(inputs, s, init, mem, v - 1),
{
    let n = scratch_cell(inputs, s.len() as int);
    lemma_cycle_len(s, v);
    lemma_readers(s, v);
    assert(fstep(s, v) == v) by {
        lemma_walk_one(s, v);
        assert(walk(s, v, cycle_len(s, v)) == v);
    };
    assert forall|c: int| 0 <= c < n implies #[trigger] cell_ok_b(
        inputs,
        s,
        init,
        mem,
        v - 1,
        c,
    ) by {
        assert(cell_ok_b(inputs, s, init, mem, v, c));
        lemma_b_head_scan(s, v, c);
        if 0 <= c < s.len() {
            lemma_b_head_scan(s, v, fstep(s, c));
        }
        if on_cycle(s, c) && member_of(s, v, c) {
            // the only member is v itself, already holding its final value
            let i0 = choose|i: int|
                0 <= i < cycle_len(s, v) && #[trigger] walk(s, v, i as nat) == c;
            assert(walk(s, v, 0) == v);
            assert(c == v);
            lemma_head_orbit_pending(s, v, v);
            assert(mem[v] == init[v]);
        }
        if !on_cycle(s, c) && 0 <= c < s.len() && member_of(s, v, fstep(s, c)) {
            // v's only reader is v itself, so no cell off the cycle reads it
            let i0 = choose|i: int|
                0 <= i < cycle_len(s, v) && #[trigger] walk(s, v, i as nat) == fstep(s, c);
            assert(walk(s, v, 0) == v);
            assert(fstep(s, c) == v);
            assert(s[c] == v);
            assert(readers(s, v).contains(c));
            let t = choose|t: int|
                0 <= t < readers(s, v).len() && readers(s, v)[t] == c;
            assert(c == v);
            assert(false);
        }
    };
}

/// Emptying the scratch cell into the head's readers finishes the
/// rotation and hands the scan on to the next cell.
#[verifier::rlimit(100)]
proof fn lemma_c_finish(
    inputs: int,
    s: Seq<int>,
    init: Map<int, int>,
    mem: Map<int, int>,
    v: int,
)
    requires
        valid_mapping(inputs, s),
        initial_mem(inputs, init),
        cycle_head(s, v),
        0 <= v < scratch_cell(inputs, s.len() as int),
        inv_c(inputs, s, init, mem, v, cycle_len(s, v) - 1),
    ensures
        inv_b(
            inputs,
            s,
            init,
            step(
                mem,
                SpecInstr::Mov {
                    cell: scratch_cell(inputs, s.len() as int),
                    to: readers(s, v),
                },
            ),
            v - 1,
        ),
{
    let n = scratch_cell(inputs, s.len() as int);
    let m = s.len() as int;
    let len = cycle_len(s, v) as int;
    lemma_cycle_len(s, v);
    lemma_readers(s, v);
    let rs = readers(s, v);
    let p = lemma_member_reader_shape(s, v, 0);
    let last = walk(s, v, (len - 1) as nat);
    lemma_member_on_cycle(s, v, (len - 1) as nat);
    assert(rs.contains(last)) by {
        assert(fstep(s, last) == walk(s, v, 0));
        assert(walk(s, v, 0) == v);
        assert(s[last] == v);
    };
    assert forall|c: int| #[trigger] rs.contains(c) implies 0 <= c < m && fstep(s, c)
        == v by {
        let t = choose|t: int| 0 <= t < rs.len() && rs[t] == c;
        assert(walk(s, v, 0) == v);
    };
    assert(!rs.contains(n));
    assert(mem[n] == init[v]);
    let mem1 = mem.insert(n, 0);
    lemma_add_into(mem1, rs, mem[n]);
    let mem2 = step(mem, SpecInstr::Mov { cell: n, to: rs });
    assert(mem2[n] == 0);
    assert forall|c: int| #[trigger] rs.contains(c) implies mem2[c] == mem[c] + init[
        v
    ] by {
        assert(c != n);
        assert(mem1[c] == mem[c]);
    };
    assert(walk(s, v, 0) == v);
    assert forall|c: int| 0 <= c < n implies #[trigger] cell_ok_b(
        inputs,
        s,
        init,
        mem2,
        v - 1,
        c,
    ) by {
        lemma_b_head_scan(s, v, c);
        if 0 <= c < m {
            lemma_b_head_scan(s, v, fstep(s, c));
        }
        if member_of(s, v, c) {
            let i0 = choose|i: int|
                0 <= i < cycle_len(s, v) && #[trigger] walk(s, v, i as nat) == c;
            lemma_member_on_cycle(s, v, i0 as nat);
            assert(on_cycle(s, c));
            assert(orbit_done(s, v - 1, c));
            if i0 == len - 1 {
                // the last member receives the head's parked value now
                assert(mem[c] == 0);
                assert(mem2[c] == 0 + init[v]);
                assert(fstep(s, c) == v);
            } else {
                // earlier members already hold their final values
                assert(c != n);
                assert(!rs.contains(c)) by {
                    if rs.contains(c) {
                        assert(c == last);
                        lemma_members_distinct(s, v, i0, len - 1);
                        assert(false);
                    }
                };
                assert(mem2[c] == mem[c]);
                assert(mem[walk(s, v, ((i0 + 1) - 1) as nat)] == init[walk(
                    s,
                    v,
                    (i0 + 1) as nat,
                )]);
                assert(fstep(s, c) == walk(s, v, (i0 + 1) as nat));
            }
        } else if moved_reader(s, v, len - 1, c) {
            let i = choose|i: int|
                1 <= i <= len - 1 && fstep(s, c) == #[trigger] walk(s, v, i as nat);
            assert(mem[c] == init[fstep(s, c)]);
            assert(!rs.contains(c)) by {
                if rs.contains(c) {
                    lemma_members_distinct(s, v, 0, i);
                    assert(false);
                }
            };
            assert(c != n);
            assert(mem2[c] == mem[c]);
            assert(!on_cycle(s, c));
            lemma_member_on_cycle(s, v, i as nat);
            assert(member_of(s, v, fstep(s, c)));
            assert(on_cycle(s, fstep(s, c)));
            assert(orbit_done(s, v - 1, fstep(s, c)));
            assert(src_done(s, v - 1, c));
        } else if rs.contains(c) && !on_cycle(s, c) {
            // a reader of the head off the cycle receives its value now
            assert(fstep(s, c) == v);
            assert(cell_ok_b(inputs, s, init, mem, v, c));
            assert(member_of(s, v, v));
            lemma_head_orbit_pending(s, v, v);
            assert(!src_done(s, v, c));
            assert(mem[c] == 0);
            assert(mem2[c] == 0 + init[v]);
            assert(member_of(s, v, v));
            assert(orbit_done(s, v - 1, v));
            assert(src_done(s, v - 1, c));
        } else {
            // off this cycle entirely: unchanged, and its conditions carry
            assert(cell_ok_b(inputs, s, init, mem, v, c));
            assert(!rs.contains(c)) by {
                if rs.contains(c) {
                    assert(on_cycle(s, c));
                    lemma_cycle_reader(s, v, 0, c);
                    vstd::arithmetic::div_mod::lemma_mod_pos_bound(0 + len - 1, len);
                    vstd::arithmetic::div_mod::lemma_small_mod((len - 1) as nat, len as nat);
                    assert(c == last);
                    assert(member_of(s, v, c));
                    assert(false);
                }
            };
            assert(c != n);
            assert(mem2[c] == mem[c]);
            if !on_cycle(s, c) && 0 <= c < m && member_of(s, v, fstep(s, c)) {
                let i = choose|i: int|
                    0 <= i < cycle_len(s, v) && #[trigger] walk(s, v, i as nat) == fstep(
                        s,
                        c,
                    );
                if i == 0 {
                    assert(fstep(s, c) == v);
                    assert(s[c] == v);
                    assert(rs.contains(c));
                    assert(false);
                } else {
                    assert(moved_reader(s, v, len - 1, c));
                    assert(false);
                }
            }
        }
    };
    assert forall|c: int| !(0 <= c <= n) implies mem2[c] == init[c] by {
        assert(!rs.contains(c));
        assert(c != n);
        assert(mem2[c] == mem[c]);
    };
}

/// Rotating the middle of a cycle, member by member.
proof fn lemma_c_mids(
    inputs: int,
    s: Seq<int>,
    init: Map<int, int>,
    mem: Map<int, int>,
    v: int,
    j: int,
)
    requires
        valid_mapping(inputs, s),
        initial_mem(inputs, init),
        cycle_head(s, v),
        0 <= v < scratch_cell(inputs, s.len() as int),
        inv_c(inputs, s, init, mem, v, 0),
        0 <= j < cycle_len(s, v),
    ensures
        inv_c(inputs, s, init, run(mem, cycle_mids(s, v, j)), v, j),
    decreases j,
{
    if j == 0 {
        assert(cycle_mids(s, v, 0) =~= Seq::<SpecInstr>::empty());
    } else {
        lemma_c_mids(inputs, s, init, mem, v, j - 1);
        let done = cycle_mids(s, v, j - 1);
        let mem1 = run(mem, done);
        let mv = SpecInstr::Mov {
            cell: walk(s, v, j as nat),
            to: readers(s, walk(s, v, j as nat)),
        };
        lemma_run_concat(mem, done, seq![mv]);
        lemma_run_one(mem1, mv);
        lemma_c_step(inputs, s, init, mem1, v, j);
    }
}

/// Scanning one cell in the second phase preserves its invariant: a head
/// rotates its cycle, any other cell contributes nothing.
proof fn lemma_b_node(
    inputs: int,
    s: Seq<int>,
    init: Map<int, int>,
    mem: Map<int, int>,
    v: int,
)
    requires
        valid_mapping(inputs, s),
        initial_mem(inputs, init),
        inv_b(inputs, s, init, mem, v),
        0 <= v < scratch_cell(inputs, s.len() as int),
    ensures
        inv_b(inputs, s, init, run(mem, head_emit(inputs, s, v)), v - 1),
{
    let n = scratch_cell(inputs, s.len() as int);
    let mem2 = run(mem, head_emit(inputs, s, v));
    if !cycle_head(s, v) {
        assert(head_emit(inputs, s, v) =~= Seq::<SpecInstr>::empty());
        assert(mem2 == mem);
        assert forall|c: int| 0 <= c < n implies #[trigger] cell_ok_b(
            inputs,
            s,
            init,
            mem2,
            v - 1,
            c,
        ) by {
            assert(cell_ok_b(inputs, s, init, mem, v, c));
            lemma_b_scan(inputs, s, v, c);
            if 0 <= c < s.len() {
                lemma_b_scan(inputs, s, v, fstep(s, c));
            }
        };
    } else {
        lemma_cycle_len(s, v);
        let len = cycle_len(s, v) as int;
        if len == 1 && readers(s, v) == seq![v] {
            assert(cycle_emit(inputs, s, v) =~= Seq::<SpecInstr>::empty());
            assert(head_emit(inputs, s, v) =~= Seq::<SpecInstr>::empty());
            assert(mem2 == mem);
            lemma_b_head_trivial(inputs, s, init, mem, v);
        } else {
            let mv_a = SpecInstr::Mov { cell: v, to: seq![n] };
            let mv_z = SpecInstr::Mov { cell: n, to: readers(s, v) };
            let mids = cycle_mids(s, v, len - 1);
            assert(head_emit(inputs, s, v) == seq![mv_a] + mids + seq![mv_z]);
            lemma_run_concat(mem, seq![mv_a] + mids, seq![mv_z]);
            lemma_run_concat(mem, seq![mv_a], mids);
            lemma_run_one(mem, mv_a);
            let mem_a = step(mem, mv_a);
            lemma_c_start(inputs, s, init, mem, v);
            lemma_c_mids(inputs, s, init, mem_a, v, len - 1);
            let mem_m = run(mem_a, mids);
            lemma_run_one(mem_m, mv_z);
            lemma_c_finish(inputs, s, init, mem_m, v);
        }
    }
}

/// Scanning the second phase down from `v` handles every remaining cycle.
proof fn lemma_b_all(
    inputs: int,
    s: Seq<int>,
    init: Map<int, int>,
    mem: Map<int, int>,
    v: int,
)
    requires
        valid_mapping(inputs, s),
        initial_mem(inputs, init),
        inv_b(inputs, s, init, mem, v),
        -1 <= v < scratch_cell(inputs, s.len() as int),
    ensures
        inv_b(inputs, s, init, run(mem, phase_b(inputs, s, v)), -1),
    decreases v + 1,
{
    if v < 0 {
        assert(phase_b(inputs, s, v) =~= Seq::<SpecInstr>::empty());
    } else {
        lemma_run_concat(mem, head_emit(inputs, s, v), phase_b(inputs, s, v - 1));
        lemma_b_node(inputs, s, init, mem, v);
        lemma_b_all(inputs, s, init, run(mem, head_emit(inputs, s, v)), v - 1);
    }
}

/// Correctness of the solver, stated over any choice of input values: run
/// the emitted instructions from a memory where cell `k < inputs` holds
/// the value of input `k` and every other cell holds zero, and afterwards
/// every output position `i` holds the value of input `mapping[i]`, while
/// every other cell — dropped inputs, the scratch cell, and everything
/// beyond — holds zero.
pub proof fn lemma_solve_correct(inputs: int, mapping: Seq<int>, init: Map<int, int>)
    requires
        valid_mapping(inputs, mapping),
        initial_mem(inputs, init),
    ensures
        full_mem(run(init, solve_spec(inputs, mapping))),
        forall|i: int|
            0 <= i < mapping.len() ==> #[trigger] run(init, solve_spec(inputs, mapping))[i]
                == init[mapping[i]],
        forall|c: int|
            !(0 <= c < mapping.len()) ==> #[trigger] run(init, solve_spec(inputs, mapping))[c]
                == 0,
{
    let s = mapping;
    let n = scratch_cell(inputs, s.len() as int);
    let m = s.len() as int;
    let start_i = SpecInstr::Start { cell: inputs - 1 };
    let top_i = SpecInstr::Top { cell: m - 1 };
    let pa = phase_a(inputs, s, n);
    let pb = phase_b(inputs, s, n - 1);
    assert(solve_spec(inputs, s) == seq![start_i] + pa + pb + seq![top_i]);
    lemma_run_concat(init, seq![start_i] + pa + pb, seq![top_i]);
    lemma_run_concat(init, seq![start_i] + pa, pb);
    lemma_run_concat(init, seq![start_i], pa);
    lemma_run_one(init, start_i);
    assert(step(init, start_i) == init);
    lemma_a_start(inputs, s, init);
    lemma_a_all(inputs, s, init, init, n);
    let mem_a = run(init, pa);
    lemma_a_to_b(inputs, s, init, mem_a);
    lemma_b_all(inputs, s, init, mem_a, n - 1);
    let mem_b = run(mem_a, pb);
    lemma_run_one(mem_b, top_i);
    assert(step(mem_b, top_i) == mem_b);
    let fin = run(init, solve_spec(inputs, s));
    assert(fin == mem_b);
    // read the final state off the second phase's invariant at scan end
    assert forall|i: int| 0 <= i < m implies #[trigger] fin[i] == init[s[i]] by {
        assert(cell_ok_b(inputs, s, init, mem_b, -1, i));
        assert(fstep(s, i) == s[i]);
        if on_cycle(s, i) {
            assert(orbit_done(s, -1, i)) by {
                let zero: int = 0;
                lemma_cycle_len(s, i);
                assert(walk(s, i, zero as nat) == i);
                assert(walk(s, i, zero as nat) > -1);
            };
        } else {
            assert(src_done(s, -1, i)) by {
                let f = fstep(s, i);
                if on_cycle(s, f) {
                    let zero: int = 0;
                    lemma_cycle_len(s, f);
                    assert(walk(s, f, zero as nat) == f);
                    assert(walk(s, f, zero as nat) > -1);
                }
            };
        }
    };
    assert forall|c: int| !(0 <= c < m) implies #[trigger] fin[c] == 0 by {
        if 0 <= c < n {
            assert(cell_ok_b(inputs, s, init, mem_b, -1, c));
            assert(!on_cycle(s, c));
        } else if c == n {
        } else {
            assert(fin[c] == init[c]);
        }
    };
}

/// Whether an instruction stays within the cells `0 ..= bound`.  `Start`
/// and `Top` are bookkeeping and address no data.
pub open spec fn instr_within(instr: SpecInstr, bound: int) -> bool {
    match instr {
        SpecInstr::Clear { cell } => 0 <= cell <= bound,
        SpecInstr::Mov { cell, to } => 0 <= cell <= bound && forall|t: int|
            0 <= t < to.len() ==> 0 <= #[trigger] to[t] <= bound,
        SpecInstr::Start { cell } => true,
        SpecInstr::Top { cell } => true,
    }
}

/// Whether every instruction of a program stays within `0 ..= bound`.
pub open spec fn prog_within(prog: Seq<SpecInstr>, bound: int) -> bool {
    forall|k: int| 0 <= k < prog.len() ==> instr_within(#[trigger] prog[k], bound)
}

proof fn lemma_within_concat(a: Seq<SpecInstr>, b: Seq<SpecInstr>, bound: int)
    requires
        prog_within(a, bound),
        prog_within(b, bound),
    ensures
        prog_within(a + b, bound),
{
    assert forall|k: int| 0 <= k < (a + b).len() implies instr_within(
        #[trigger] (a + b)[k],
        bound,
    ) by {
        if k < a.len() {
            assert((a + b)[k] == a[k]);
        } else {
            assert((a + b)[k] == b[k - a.len()]);
        }
    };
}

proof fn lemma_within_acyclic(inputs: int, s: Seq<int>, v: int)
    requires
        valid_mapping(inputs, s),
        0 <= v < scratch_cell(inputs, s.len() as int),
    ensures
        prog_within(acyclic_emit(inputs, s, v), scratch_cell(inputs, s.len() as int)),
{
    lemma_readers(s, v);
}

proof fn lemma_within_rank_below(inputs: int, s: Seq<int>, rk: int, upto: int)
    requires
        valid_mapping(inputs, s),
        upto <= scratch_cell(inputs, s.len() as int),
    ensures
        prog_within(
            rank_emit_below(inputs, s, rk, upto),
            scratch_cell(inputs, s.len() as int),
        ),
    decreases upto,
{
    if upto > 0 {
        lemma_within_rank_below(inputs, s, rk, upto - 1);
        if !on_cycle(s, upto - 1) && rank(s, upto - 1) == rk {
            lemma_within_acyclic(inputs, s, upto - 1);
        }
        lemma_within_concat(
            rank_emit_below(inputs, s, rk, upto - 1),
            node_emit(inputs, s, rk, upto - 1),
            scratch_cell(inputs, s.len() as int),
        );
    }
}

proof fn lemma_within_phase_a(inputs: int, s: Seq<int>, rk: int)
    requires
        valid_mapping(inputs, s),
    ensures
        prog_within(phase_a(inputs, s, rk), scratch_cell(inputs, s.len() as int)),
    decreases rk + 1,
{
    let n = scratch_cell(inputs, s.len() as int);
    if rk >= 0 {
        lemma_within_rank_below(inputs, s, rk, n);
        lemma_within_phase_a(inputs, s, rk - 1);
        lemma_within_concat(rank_emit_below(inputs, s, rk, n), phase_a(inputs, s, rk - 1), n);
    }
}

proof fn lemma_within_mids(inputs: int, s: Seq<int>, c0: int, j: int)
    requires
        valid_mapping(inputs, s),
        on_cycle(s, c0),
    ensures
        prog_within(cycle_mids(s, c0, j), scratch_cell(inputs, s.len() as int)),
    decreases j,
{
    let n = scratch_cell(inputs, s.len() as int);
    if j > 0 {
        lemma_within_mids(inputs, s, c0, j - 1);
        let u = walk(s, c0, j as nat);
        lemma_member_on_cycle(s, c0, j as nat);
        lemma_readers(s, u);
        let mv = seq![SpecInstr::Mov { cell: u, to: readers(s, u) }];
        assert(prog_within(mv, n)) by {
            assert(mv[0] == (SpecInstr::Mov { cell: u, to: readers(s, u) }));
        };
        lemma_within_concat(cycle_mids(s, c0, j - 1), mv, n);
    }
}

proof fn lemma_within_cycle(inputs: int, s: Seq<int>, c0: int)
    requires
        valid_mapping(inputs, s),
        on_cycle(s, c0),
    ensures
        prog_within(cycle_emit(inputs, s, c0), scratch_cell(inputs, s.len() as int)),
{
    let n = scratch_cell(inputs, s.len() as int);
    let len = cycle_len(s, c0) as int;
    if !(len == 1 && readers(s, c0) == seq![c0]) {
        lemma_readers(s, c0);
        let head = seq![SpecInstr::Mov { cell: c0, to: seq![n] }];
        let tail = seq![SpecInstr::Mov { cell: n, to: readers(s, c0) }];
        assert(prog_within(head, n)) by {
            assert(head[0] == (SpecInstr::Mov { cell: c0, to: seq![n] }));
            assert(seq![n][0] == n);
        };
        assert(prog_within(tail, n)) by {
            assert(tail[0] == (SpecInstr::Mov { cell: n, to: readers(s, c0) }));
        };
        lemma_within_mids(inputs, s, c0, len - 1);
        lemma_within_concat(head, cycle_mids(s, c0, len - 1), n);
        lemma_within_concat(head + cycle_mids(s, c0, len - 1), tail, n);
    }
}

proof fn lemma_within_phase_b(inputs: int, s: Seq<int>, v: int)
    requires
        valid_mapping(inputs, s),
    ensures
        prog_within(phase_b(inputs, s, v), scratch_cell(inputs, s.len() as int)),
    decreases v + 1,
{
    let n = scratch_cell(inputs, s.len() as int);
    if v >= 0 {
        if cycle_head(s, v) {
            lemma_within_cycle(inputs, s, v);
        }
        lemma_within_phase_b(inputs, s, v - 1);
        lemma_within_concat(head_emit(inputs, s, v), phase_b(inputs, s, v - 1), n);
    }
}

/// The scratch bound: across any diagram, every cell the solver's
/// instructions address lies in `0 ..= scratch_cell`, so exactly one cell
/// beyond the data cells `0 .. scratch_cell` is ever used, and that one
/// coincides with no data cell.
pub proof fn lemma_scratch_bound(inputs: int, mapping: Seq<int>)
    requires
        valid_mapping(inputs, mapping),
    ensures
        prog_within(
            solve_spec(inputs, mapping),
            scratch_cell(inputs, mapping.len() as int),
        ),
{
    let n = scratch_cell(inputs, mapping.len() as int);
    let start_s = seq![SpecInstr::Start { cell: inputs - 1 }];
    let top_s = seq![SpecInstr::Top { cell: mapping.len() - 1 }];
    assert(prog_within(start_s, n)) by {
        assert(start_s[0] == (SpecInstr::Start { cell: inputs - 1 }));
    };
    assert(prog_within(top_s, n)) by {
        assert(top_s[0] == (SpecInstr::Top { cell: mapping.len() - 1 }));
    };
    lemma_within_phase_a(inputs, mapping, n);
    lemma_within_phase_b(inputs, mapping, n - 1);
    lemma_within_concat(start_s, phase_a(inputs, mapping, n), n);
    lemma_within_concat(start_s + phase_a(inputs, mapping, n), phase_b(inputs, mapping, n - 1), n);
    lemma_within_concat(
        start_s + phase_a(inputs, mapping, n) + phase_b(inputs, mapping, n - 1),
        top_s,
        n,
    );
}

/// Determinism of the solver: two diagrams with the same inputs and the
/// same mapping are given identical instruction sequences, so solving the
/// same diagram twice yields the same result.
pub proof fn lemma_solve_deterministic(
    d1: crate::parse::StackEffectDiagram,
    d2: crate::parse::StackEffectDiagram,
)
    requires
        d1.inputs == d2.inputs,
        d1.mapping@ == d2.mapping@,
    ensures
        solve_spec(d1.inputs as int, d1.map_view()) == solve_spec(
            d2.inputs as int,
            d2.map_view(),
        ),
{
}

/// Determinism of the generator: equal starting models fed identical
/// instruction sequences render identical outputs.
pub proof fn lemma_generate_deterministic<M: crate::model::Model>(
    state1: M::V,
    state2: M::V,
    prog1: Seq<SpecInstr>,
    prog2: Seq<SpecInstr>,
)
    requires
        state1 == state2,
        prog1 == prog2,
    ensures
        M::spec_finish(crate::model::fold_model::<M>(state1, prog1)) == M::spec_finish(
            crate::model::fold_model::<M>(state2, prog2),
        ),
{
}

/// How many instructions of a program satisfy a predicate.
pub open spec fn count_if(prog: Seq<SpecInstr>, pred: spec_fn(SpecInstr) -> bool) -> nat
    decreases prog.len(),
{
    if prog.len() == 0 {
        0
    } else {
        (if pred(prog[0]) {
            1nat
        } else {
            0nat
        }) + count_if(prog.skip(1), pred)
    }
}

/// Whether an instruction is the cycle-breaking move: a move whose one
/// destination is the scratch cell `t`.
pub open spec fn is_scratch_mov(instr: SpecInstr, t: int) -> bool {
    match instr {
        SpecInstr::Mov { cell, to } => to == seq![t],
        _ => false,
    }
}

/// Whether an instruction touches data at all.
pub open spec fn is_data_op(instr: SpecInstr) -> bool {
    match instr {
        SpecInstr::Clear { cell } => true,
        SpecInstr::Mov { cell, to } => true,
        _ => false,
    }
}

/// Whether `v` heads a cycle that needs a rotation.
pub open spec fn nontrivial_head(s: Seq<int>, v: int) -> bool {
    cycle_head(s, v) && !(cycle_len(s, v) == 1 && readers(s, v) == seq![v])
}

/// The number of cells up to `v` heading a cycle that needs a rotation.
pub open spec fn count_heads(s: Seq<int>, v: int) -> nat
    decreases v + 1,
{
    if v < 0 {
        0
    } else {
        (if nontrivial_head(s, v) {
            1nat
        } else {
            0nat
        }) + count_heads(s, v - 1)
    }
}

proof fn lemma_count_concat(a: Seq<SpecInstr>, b: Seq<SpecInstr>, pred: spec_fn(SpecInstr) -> bool)
    ensures
        count_if(a + b, pred) == count_if(a, pred) + count_if(b, pred),
    decreases a.len(),
{
    if a.len() == 0 {
        assert(a + b =~= b);
    } else {
        assert((a + b)[0] == a[0]);
        assert((a + b).skip(1) =~= a.skip(1) + b);
        lemma_count_concat(a.skip(1), b, pred);
    }
}

proof fn lemma_count_single(instr: SpecInstr, pred: spec_fn(SpecInstr) -> bool)
    ensures
        count_if(seq![instr], pred) == if pred(instr) {
            1nat
        } else {
            0nat
        },
{
    assert(seq![instr].skip(1) =~= Seq::<SpecInstr>::empty());
    assert(seq![instr][0] == instr);
    assert(count_if(Seq::<SpecInstr>::empty(), pred) == 0);
}

/// A reader list never equals the singleton scratch destination: readers
/// are output positions, which lie below the scratch cell.
proof fn lemma_readers_not_scratch(inputs: int, s: Seq<int>, v: int)
    requires
        valid_mapping(inputs, s),
    ensures
        readers(s, v) != seq![scratch_cell(inputs, s.len() as int)],
{
    let n = scratch_cell(inputs, s.len() as int);
    lemma_readers(s, v);
    if readers(s, v) == seq![n] {
        assert(readers(s, v)[0] == n);
        assert(false);
    }
}

proof fn lemma_scratch_count_mids(inputs: int, s: Seq<int>, c0: int, j: int)
    requires
        valid_mapping(inputs, s),
        on_cycle(s, c0),
    ensures
        count_if(
            cycle_mids(s, c0, j),
            |instr: SpecInstr| is_scratch_mov(instr, scratch_cell(inputs, s.len() as int)),
        ) == 0,
        count_if(cycle_mids(s, c0, j), |instr: SpecInstr| is_data_op(instr)) == if j <= 0 {
            0nat
        } else {
            j as nat
        },
    decreases j,
{
    let n = scratch_cell(inputs, s.len() as int);
    if j > 0 {
        lemma_scratch_count_mids(inputs, s, c0, j - 1);
        let u = walk(s, c0, j as nat);
        let mv = SpecInstr::Mov { cell: u, to: readers(s, u) };
        lemma_readers_not_scratch(inputs, s, u);
        lemma_count_single(mv, |instr: SpecInstr| is_scratch_mov(instr, n));
        lemma_count_single(mv, |instr: SpecInstr| is_data_op(instr));
        lemma_count_concat(
            cycle_mids(s, c0, j - 1),
            seq![mv],
            |instr: SpecInstr| is_scratch_mov(instr, n),
        );
        lemma_count_concat(
            cycle_mids(s, c0, j - 1),
            seq![mv],
            |instr: SpecInstr| is_data_op(instr),
        );
    }
}

/// A head's rotation breaks its cycle exactly once and spends one data
/// instruction per member plus one.
proof fn lemma_count_cycle(inputs: int, s: Seq<int>, c0: int)
    requires
        valid_mapping(inputs, s),
        on_cycle(s, c0),
    ensures
        count_if(
            cycle_emit(inputs, s, c0),
            |instr: SpecInstr| is_scratch_mov(instr, scratch_cell(inputs, s.len() as int)),
        ) == if cycle_len(s, c0) == 1 && readers(s, c0) == seq![c0] {
            0nat
        } else {
            1nat
        },
        count_if(cycle_emit(inputs, s, c0), |instr: SpecInstr| is_data_op(instr)) == if cycle_len(
            s,
            c0,
        ) == 1 && readers(s, c0) == seq![c0] {
            0nat
        } else {
            (cycle_len(s, c0) + 1) as nat
        },
{
    let n = scratch_cell(inputs, s.len() as int);
    let len = cycle_len(s, c0) as int;
    lemma_cycle_len(s, c0);
    if !(len == 1 && readers(s, c0) == seq![c0]) {
        let head = SpecInstr::Mov { cell: c0, to: seq![n] };
        let tail = SpecInstr::Mov { cell: n, to: readers(s, c0) };
        lemma_readers_not_scratch(inputs, s, c0);
        lemma_count_single(head, |instr: SpecInstr| is_scratch_mov(instr, n));
        lemma_count_single(tail, |instr: SpecInstr| is_scratch_mov(instr, n));
        lemma_count_single(head, |instr: SpecInstr| is_data_op(instr));
        lemma_count_single(tail, |instr: SpecInstr| is_data_op(instr));
        lemma_scratch_count_mids(inputs, s, c0, len - 1);
        lemma_count_concat(
            seq![head],
            cycle_mids(s, c0, len - 1),
            |instr: SpecInstr| is_scratch_mov(instr, n),
        );
        lemma_count_concat(
            seq![head] + cycle_mids(s, c0, len - 1),
            seq![tail],
            |instr: SpecInstr| is_scratch_mov(instr, n),
        );
        lemma_count_concat(
            seq![head],
            cycle_mids(s, c0, len - 1),
            |instr: SpecInstr| is_data_op(instr),
        );
        lemma_count_concat(
            seq![head] + cycle_mids(s, c0, len - 1),
            seq![tail],
            |instr: SpecInstr| is_data_op(instr),
        );
    }
}

proof fn lemma_scratch_count_phase_b(inputs: int, s: Seq<int>, v: int)
    requires
        valid_mapping(inputs, s),
    ensures
        count_if(
            phase_b(inputs, s, v),
            |instr: SpecInstr| is_scratch_mov(instr, scratch_cell(inputs, s.len() as int)),
        ) == count_heads(s, v),
    decreases v + 1,
{
    let n = scratch_cell(inputs, s.len() as int);
    if v >= 0 {
        lemma_scratch_count_phase_b(inputs, s, v - 1);
        if cycle_head(s, v) {
            lemma_count_cycle(inputs, s, v);
        } else {
            assert(head_emit(inputs, s, v) =~= Seq::<SpecInstr>::empty());
        }
        lemma_count_concat(
            head_emit(inputs, s, v),
            phase_b(inputs, s, v - 1),
            |instr: SpecInstr| is_scratch_mov(instr, n),
        );
    }
}

proof fn lemma_scratch_count_phase_a(inputs: int, s: Seq<int>, rk: int, upto: int)
    requires
        valid_mapping(inputs, s),
    ensures
        count_if(
            rank_emit_below(inputs, s, rk, upto),
            |instr: SpecInstr| is_scratch_mov(instr, scratch_cell(inputs, s.len() as int)),
        ) == 0,
    decreases upto,
{
    let n = scratch_cell(inputs, s.len() as int);
    if upto > 0 {
        lemma_scratch_count_phase_a(inputs, s, rk, upto - 1);
        let v = upto - 1;
        assert(count_if(node_emit(inputs, s, rk, v), |instr: SpecInstr| is_scratch_mov(instr, n))
            == 0) by {
            if !on_cycle(s, v) && rank(s, v) == rk {
                let rs = readers(s, v);
                if rs.len() == 0 {
                    if v < inputs {
                        lemma_count_single(
                            SpecInstr::Clear { cell: v },
                            |instr: SpecInstr| is_scratch_mov(instr, n),
                        );
                    }
                } else {
                    lemma_readers_not_scratch(inputs, s, v);
                    lemma_count_single(
                        SpecInstr::Mov { cell: v, to: rs },
                        |instr: SpecInstr| is_scratch_mov(instr, n),
                    );
                }
            }
        };
        lemma_count_concat(
            rank_emit_below(inputs, s, rk, upto - 1),
            node_emit(inputs, s, rk, v),
            |instr: SpecInstr| is_scratch_mov(instr, n),
        );
    }
}

proof fn lemma_scratch_count_phase_a_all(inputs: int, s: Seq<int>, rk: int)
    requires
        valid_mapping(inputs, s),
    ensures
        count_if(
            phase_a(inputs, s, rk),
            |instr: SpecInstr| is_scratch_mov(instr, scratch_cell(inputs, s.len() as int)),
        ) == 0,
    decreases rk + 1,
{
    let n = scratch_cell(inputs, s.len() as int);
    if rk >= 0 {
        lemma_scratch_count_phase_a(inputs, s, rk, n);
        lemma_scratch_count_phase_a_all(inputs, s, rk - 1);
        lemma_count_concat(
            rank_emit_below(inputs, s, rk, n),
            phase_a(inputs, s, rk - 1),
            |instr: SpecInstr| is_scratch_mov(instr, n),
        );
    }
}

/// The cycle-breaking rule runs exactly once per cycle that needs one: the
/// solver's output holds exactly one move into the scratch cell for every
/// head of a non-trivial cycle.
pub proof fn lemma_cycle_breaking_once(inputs: int, mapping: Seq<int>)
    requires
        valid_mapping(inputs, mapping),
    ensures
        count_if(
            solve_spec(inputs, mapping),
            |instr: SpecInstr|
                is_scratch_mov(instr, scratch_cell(inputs, mapping.len() as int)),
        ) == count_heads(mapping, scratch_cell(inputs, mapping.len() as int) - 1),
{
    let s = mapping;
    let n = scratch_cell(inputs, s.len() as int);
    let pred = |instr: SpecInstr| is_scratch_mov(instr, n);
    let start_s = seq![SpecInstr::Start { cell: inputs - 1 }];
    let top_s = seq![SpecInstr::Top { cell: s.len() - 1 }];
    lemma_count_single(SpecInstr::Start { cell: inputs - 1 }, pred);
    lemma_count_single(SpecInstr::Top { cell: s.len() - 1 }, pred);
    lemma_scratch_count_phase_a_all(inputs, s, n);
    lemma_scratch_count_phase_b(inputs, s, n - 1);
    lemma_count_concat(start_s, phase_a(inputs, s, n), pred);
    lemma_count_concat(start_s + phase_a(inputs, s, n), phase_b(inputs, s, n - 1), pred);
    lemma_count_concat(
        start_s + phase_a(inputs, s, n) + phase_b(inputs, s, n - 1),
        top_s,
        pred,
    );
}

/// The well-formedness of one instruction: a move goes to at least one
/// destination, and none of its destinations is the moved cell itself.
pub open spec fn mov_shape(instr: SpecInstr) -> bool {
    match instr {
        SpecInstr::Mov { cell, to } => to.len() > 0 && forall|t: int|
            0 <= t < to.len() ==> #[trigger] to[t] != cell,
        _ => true,
    }
}

/// Whether every instruction of a program is well formed.
pub open spec fn prog_shape(prog: Seq<SpecInstr>) -> bool {
    forall|k: int| 0 <= k < prog.len() ==> mov_shape(#[trigger] prog[k])
}

proof fn lemma_shape_concat(a: Seq<SpecInstr>, b: Seq<SpecInstr>)
    requires
        prog_shape(a),
        prog_shape(b),
    ensures
        prog_shape(a + b),
{
    assert forall|k: int| 0 <= k < (a + b).len() implies mov_shape(#[trigger] (a + b)[k]) by {
        if k < a.len() {
            assert((a + b)[k] == a[k]);
        } else {
            assert((a + b)[k] == b[k - a.len()]);
        }
    };
}

/// A cell on a cycle never reads from itself unless its cycle has one
/// member, and then it is not where a rotation would read it.
proof fn lemma_member_not_self_reader(s: Seq<int>, c0: int, j: int)
    requires
        on_cycle(s, c0),
        0 <= j < cycle_len(s, c0),
        cycle_len(s, c0) > 1 || j > 0,
    ensures
        !readers(s, walk(s, c0, j as nat)).contains(walk(s, c0, j as nat)),
{
    lemma_cycle_len(s, c0);
    let len = cycle_len(s, c0) as int;
    let u = walk(s, c0, j as nat);
    lemma_readers(s, u);
    if readers(s, u).contains(u) {
        let t = choose|t: int| 0 <= t < readers(s, u).len() && readers(s, u)[t] == u;
        assert(fstep(s, u) == u);
        assert(walk(s, c0, (j + 1) as nat) == u);
        if j + 1 < len {
            lemma_members_distinct(s, c0, j, j + 1);
        } else {
            assert(walk(s, c0, (j + 1) as nat) == c0);
            assert(walk(s, c0, 0) == c0);
            lemma_members_distinct(s, c0, 0, j);
        }
        assert(false);
    }
}

proof fn lemma_shape_acyclic(inputs: int, s: Seq<int>, rk: int, v: int)
    requires
        valid_mapping(inputs, s),
    ensures
        prog_shape(node_emit(inputs, s, rk, v)),
{
    if !on_cycle(s, v) && rank(s, v) == rk {
        let rs = readers(s, v);
        lemma_readers(s, v);
        if rs.len() > 0 {
            let mv = SpecInstr::Mov { cell: v, to: rs };
            assert(mov_shape(mv)) by {
                assert forall|t: int| 0 <= t < rs.len() implies #[trigger] rs[t] != v by {
                    if rs[t] == v {
                        assert(0 <= rs[t] < s.len());
                        assert(rs.contains(v));
                        assert(fstep(s, v) == v);
                        lemma_walk_one(s, v);
                        let one: int = 1;
                        assert(1 <= one <= s.len() && walk(s, v, one as nat) == v);
                        assert(on_cycle(s, v));
                        assert(false);
                    }
                };
            };
            assert(node_emit(inputs, s, rk, v) == seq![mv]);
            assert(prog_shape(seq![mv])) by {
                assert(seq![mv][0] == mv);
            };
        } else if v < inputs {
            assert(node_emit(inputs, s, rk, v) == seq![SpecInstr::Clear { cell: v }]);
            assert(prog_shape(seq![SpecInstr::Clear { cell: v }])) by {
                assert(seq![SpecInstr::Clear { cell: v }][0] == SpecInstr::Clear { cell: v });
            };
        }
    }
}

proof fn lemma_shape_rank_below(inputs: int, s: Seq<int>, rk: int, upto: int)
    requires
        valid_mapping(inputs, s),
    ensures
        prog_shape(rank_emit_below(inputs, s, rk, upto)),
    decreases upto,
{
    if upto > 0 {
        lemma_shape_rank_below(inputs, s, rk, upto - 1);
        lemma_shape_acyclic(inputs, s, rk, upto - 1);
        lemma_shape_concat(
            rank_emit_below(inputs, s, rk, upto - 1),
            node_emit(inputs, s, rk, upto - 1),
        );
    }
}

proof fn lemma_shape_phase_a(inputs: int, s: Seq<int>, rk: int)
    requires
        valid_mapping(inputs, s),
    ensures
        prog_shape(phase_a(inputs, s, rk)),
    decreases rk + 1,
{
    let n = scratch_cell(inputs, s.len() as int);
    if rk >= 0 {
        lemma_shape_rank_below(inputs, s, rk, n);
        lemma_shape_phase_a(inputs, s, rk - 1);
        lemma_shape_concat(rank_emit_below(inputs, s, rk, n), phase_a(inputs, s, rk - 1));
    }
}

proof fn lemma_shape_mids(s: Seq<int>, c0: int, j: int)
    requires
        on_cycle(s, c0),
        j < cycle_len(s, c0),
    ensures
        prog_shape(cycle_mids(s, c0, j)),
    decreases j,
{
    if j > 0 {
        lemma_shape_mids(s, c0, j - 1);
        let u = walk(s, c0, j as nat);
        let mv = SpecInstr::Mov { cell: u, to: readers(s, u) };
        lemma_cycle_len(s, c0);
        lemma_readers(s, u);
        lemma_member_not_self_reader(s, c0, j);
        assert(mov_shape(mv)) by {
            // the member one step before u reads from it, so the list is
            // not empty, and u itself is no reader of u
            let prev = walk(s, c0, (j - 1) as nat);
            lemma_member_on_cycle(s, c0, (j - 1) as nat);
            assert(fstep(s, prev) == u);
            assert(s[prev] == u);
            assert(readers(s, u).contains(prev));
            assert forall|t: int| 0 <= t < readers(s, u).len() implies #[trigger] readers(
                s,
                u,
            )[t] != u by {
                if readers(s, u)[t] == u {
                    assert(readers(s, u).contains(u));
                }
            };
        };
        lemma_shape_concat(cycle_mids(s, c0, j - 1), seq![mv]);
        assert(prog_shape(seq![mv])) by {
            assert(seq![mv][0] == mv);
        };
    }
}

proof fn lemma_shape_cycle(inputs: int, s: Seq<int>, c0: int)
    requires
        valid_mapping(inputs, s),
        on_cycle(s, c0),
    ensures
        prog_shape(cycle_emit(inputs, s, c0)),
{
    let n = scratch_cell(inputs, s.len() as int);
    let len = cycle_len(s, c0) as int;
    lemma_cycle_len(s, c0);
    if !(len == 1 && readers(s, c0) == seq![c0]) {
        let head = SpecInstr::Mov { cell: c0, to: seq![n] };
        let tail = SpecInstr::Mov { cell: n, to: readers(s, c0) };
        lemma_readers(s, c0);
        assert(mov_shape(head)) by {
            assert(seq![n][0] == n);
            assert(c0 < s.len() <= n);
        };
        assert(mov_shape(tail)) by {
            // the member one step before the head reads from it
            let prev = walk(s, c0, (len - 1) as nat);
            lemma_member_on_cycle(s, c0, (len - 1) as nat);
            assert(walk(s, c0, len as nat) == c0);
            assert(fstep(s, prev) == c0);
            assert(s[prev] == c0);
            assert(readers(s, c0).contains(prev));
            assert forall|t: int| 0 <= t < readers(s, c0).len() implies #[trigger] readers(
                s,
                c0,
            )[t] != n by {
                if readers(s, c0)[t] == n {
                    assert(readers(s, c0).contains(n));
                }
            };
        };
        lemma_shape_mids(s, c0, len - 1);
        assert(prog_shape(seq![head])) by {
            assert(seq![head][0] == head);
        };
        assert(prog_shape(seq![tail])) by {
            assert(seq![tail][0] == tail);
        };
        lemma_shape_concat(seq![head], cycle_mids(s, c0, len - 1));
        lemma_shape_concat(seq![head] + cycle_mids(s, c0, len - 1), seq![tail]);
    }
}

proof fn lemma_shape_phase_b(inputs: int, s: Seq<int>, v: int)
    requires
        valid_mapping(inputs, s),
    ensures
        prog_shape(phase_b(inputs, s, v)),
    decreases v + 1,
{
    if v >= 0 {
        if cycle_head(s, v) {
            lemma_shape_cycle(inputs, s, v);
        }
        lemma_shape_phase_b(inputs, s, v - 1);
        lemma_shape_concat(head_emit(inputs, s, v), phase_b(inputs, s, v - 1));
    }
}

/// The shape of the emitted moves: every `Mov` the solver emits has at
/// least one destination and never lists its own cell among them.
pub proof fn lemma_mov_shape(inputs: int, mapping: Seq<int>)
    requires
        valid_mapping(inputs, mapping),
    ensures
        prog_shape(solve_spec(inputs, mapping)),
{
    let s = mapping;
    let n = scratch_cell(inputs, s.len() as int);
    let start_s = seq![SpecInstr::Start { cell: inputs - 1 }];
    let top_s = seq![SpecInstr::Top { cell: s.len() - 1 }];
    assert(prog_shape(start_s)) by {
        assert(start_s[0] == (SpecInstr::Start { cell: inputs - 1 }));
    };
    assert(prog_shape(top_s)) by {
        assert(top_s[0] == (SpecInstr::Top { cell: s.len() - 1 }));
    };
    lemma_shape_phase_a(inputs, s, n);
    lemma_shape_phase_b(inputs, s, n - 1);
    lemma_shape_concat(start_s, phase_a(inputs, s, n));
    lemma_shape_concat(start_s + phase_a(inputs, s, n), phase_b(inputs, s, n - 1));
    lemma_shape_concat(
        start_s + phase_a(inputs, s, n) + phase_b(inputs, s, n - 1),
        top_s,
    );
}

/// Whether a mapping repeats no source: together with
/// `inputs == mapping.len()` this makes the diagram a pure permutation.
pub open spec fn injective_mapping(s: Seq<int>) -> bool {
    forall|x: int, y: int| 0 <= x < y < s.len() ==> s[x] != s[y]
}

/// In a permutation, walks never leave the cells `0 .. mapping.len()`.
proof fn lemma_perm_walk_range(s: Seq<int>, v: int, k: nat)
    requires
        valid_mapping(s.len() as int, s),
        0 <= v < s.len(),
    ensures
        0 <= walk(s, v, k) < s.len(),
    decreases k,
{
    if k != 0 {
        lemma_perm_walk_range(s, v, (k - 1) as nat);
    }
}

/// In a permutation, equal walk cells can be peeled back step by step.
proof fn lemma_walk_peel(s: Seq<int>, v: int, i: nat, j: nat)
    requires
        valid_mapping(s.len() as int, s),
        injective_mapping(s),
        0 <= v < s.len(),
        i <= j,
        walk(s, v, i) == walk(s, v, j),
    ensures
        v == walk(s, v, (j - i) as nat),
    decreases i,
{
    if i != 0 {
        let a = walk(s, v, (i - 1) as nat);
        let b = walk(s, v, (j - 1) as nat);
        lemma_perm_walk_range(s, v, (i - 1) as nat);
        lemma_perm_walk_range(s, v, (j - 1) as nat);
        assert(fstep(s, a) == fstep(s, b));
        assert(a == b) by {
            if a != b {
                if a < b {
                    assert(s[a] != s[b]);
                } else {
                    assert(s[b] != s[a]);
                }
            }
        };
        lemma_walk_peel(s, v, (i - 1) as nat, (j - 1) as nat);
    }
}

/// In a permutation every cell lies on a cycle.
proof fn lemma_perm_on_cycle(s: Seq<int>, v: int)
    requires
        valid_mapping(s.len() as int, s),
        injective_mapping(s),
        0 <= v < s.len(),
    ensures
        on_cycle(s, v),
{
    let m = s.len() as int;
    if !on_cycle(s, v) {
        assert forall|i: int, j: int| 0 <= i < j <= m implies #[trigger] walk(
            s,
            v,
            i as nat,
        ) != #[trigger] walk(s, v, j as nat) by {
            if walk(s, v, i as nat) == walk(s, v, j as nat) {
                lemma_walk_peel(s, v, i as nat, j as nat);
                assert(walk(s, v, (j - i) as nat) == v);
                assert(1 <= j - i <= m);
                assert(false);
            }
        };
        let sq = Seq::new((m + 1) as nat, |k: int| walk(s, v, k as nat));
        assert(sq.no_duplicates());
        sq.unique_seq_to_set();
        assert forall|x: int| sq.to_set().contains(x) implies crate::graph::range_set(
            m,
        ).contains(x) by {
            let i = choose|i: int| 0 <= i < sq.len() && sq[i] == x;
            lemma_perm_walk_range(s, v, i as nat);
        };
        vstd::set_lib::lemma_int_range(0, m);
        vstd::set_lib::lemma_len_subset(sq.to_set(), crate::graph::range_set(m));
        assert(false);
    }
}

proof fn lemma_data_count_phase_a(s: Seq<int>, rk: int, upto: int)
    requires
        valid_mapping(s.len() as int, s),
        injective_mapping(s),
        upto <= s.len(),
    ensures
        count_if(
            rank_emit_below(s.len() as int, s, rk, upto),
            |instr: SpecInstr| is_data_op(instr),
        ) == 0,
    decreases upto,
{
    if upto > 0 {
        lemma_data_count_phase_a(s, rk, upto - 1);
        lemma_perm_on_cycle(s, upto - 1);
        assert(node_emit(s.len() as int, s, rk, upto - 1) =~= Seq::<SpecInstr>::empty());
        lemma_count_concat(
            rank_emit_below(s.len() as int, s, rk, upto - 1),
            node_emit(s.len() as int, s, rk, upto - 1),
            |instr: SpecInstr| is_data_op(instr),
        );
    }
}

proof fn lemma_data_count_phase_a_all(s: Seq<int>, rk: int)
    requires
        valid_mapping(s.len() as int, s),
        injective_mapping(s),
    ensures
        count_if(phase_a(s.len() as int, s, rk), |instr: SpecInstr| is_data_op(instr))
            == 0,
    decreases rk + 1,
{
    if rk >= 0 {
        assert(scratch_cell(s.len() as int, s.len() as int) == s.len() as int);
        lemma_data_count_phase_a(s, rk, s.len() as int);
        lemma_data_count_phase_a_all(s, rk - 1);
        lemma_count_concat(
            rank_emit_below(s.len() as int, s, rk, s.len() as int),
            phase_a(s.len() as int, s, rk - 1),
            |instr: SpecInstr| is_data_op(instr),
        );
    }
}

proof fn lemma_data_count_phase_b(s: Seq<int>, v: int)
    requires
        valid_mapping(s.len() as int, s),
        count_heads(s, v) <= 1,
    ensures
        count_if(phase_b(s.len() as int, s, v), |instr: SpecInstr| is_data_op(instr))
            <= if count_heads(s, v) == 0 {
            0int
        } else {
            s.len() as int + 1
        },
    decreases v + 1,
{
    let inputs = s.len() as int;
    if v >= 0 {
        if cycle_head(s, v) {
            lemma_count_cycle(inputs, s, v);
            lemma_cycle_len(s, v);
        } else {
            assert(head_emit(inputs, s, v) =~= Seq::<SpecInstr>::empty());
        }
        lemma_data_count_phase_b(s, v - 1);
        lemma_count_concat(
            head_emit(inputs, s, v),
            phase_b(inputs, s, v - 1),
            |instr: SpecInstr| is_data_op(instr),
        );
    }
}

/// The cycle property: a diagram whose mapping is a pure permutation with
/// at most one cycle that needs rotating costs at most `n + 1` data
/// instructions for `n` cells.  (A permutation with several non-trivial
/// cycles spends one extra instruction per further cycle; the exact count
/// of cycle-breaking moves is [`lemma_cycle_breaking_once`].)
pub proof fn lemma_cycle_property(inputs: int, mapping: Seq<int>)
    requires
        valid_mapping(inputs, mapping),
        inputs == mapping.len(),
        injective_mapping(mapping),
        count_heads(mapping, scratch_cell(inputs, mapping.len() as int) - 1) <= 1,
    ensures
        count_if(solve_spec(inputs, mapping), |instr: SpecInstr| is_data_op(instr))
            <= mapping.len() + 1,
{
    let s = mapping;
    let n = scratch_cell(inputs, s.len() as int);
    let pred = |instr: SpecInstr| is_data_op(instr);
    let start_s = seq![SpecInstr::Start { cell: inputs - 1 }];
    let top_s = seq![SpecInstr::Top { cell: s.len() - 1 }];
    lemma_count_single(SpecInstr::Start { cell: inputs - 1 }, pred);
    lemma_count_single(SpecInstr::Top { cell: s.len() - 1 }, pred);
    lemma_data_count_phase_a_all(s, n);
    lemma_data_count_phase_b(s, n - 1);
    lemma_count_concat(start_s, phase_a(inputs, s, n), pred);
    lemma_count_concat(start_s + phase_a(inputs, s, n), phase_b(inputs, s, n - 1), pred);
    lemma_count_concat(
        start_s + phase_a(inputs, s, n) + phase_b(inputs, s, n - 1),
        top_s,
        pred,
    );
}

} // verus!
