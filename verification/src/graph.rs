//! The data-flow graph of a stack effect diagram, as specification functions.
//!
//! A diagram with `inputs` sources and a `mapping` of length `m` (output
//! position `i` reads from cell `mapping[i]`) induces a graph on the cells
//! `0 .. max(inputs, m)`: an edge runs from `mapping[i]` to `i` for every
//! output position `i`.  Every node has at most one incoming edge, so the
//! graph is described completely by the partial function that sends a cell
//! to its source, [`fstep`], and every strongly connected component is a
//! single node or a simple cycle.
//!
//! The definitions here classify the nodes (on a cycle or not), measure how
//! far a node stands from the cycles ([`rank`]), and list the readers of a
//! node.  The solver orders its work by these measures.

use vstd::prelude::*;

verus! {

/// The index of the spare cell of a diagram: one past every data cell.
pub open spec fn scratch_cell(inputs: int, m: int) -> int {
    if inputs >= m {
        inputs
    } else {
        m
    }
}

/// A vector of source indices, as a sequence of mathematical integers.
pub open spec fn cells(mapping: Seq<usize>) -> Seq<int> {
    mapping.map_values(|x: usize| x as int)
}

/// A mapping is valid when every source index names a real input slot.
pub open spec fn valid_mapping(inputs: int, mapping: Seq<int>) -> bool {
    &&& 0 <= inputs
    &&& forall|i: int| 0 <= i < mapping.len() ==> 0 <= #[trigger] mapping[i] < inputs
}

/// One step backwards along the data flow: the source feeding cell `v`.
/// Cells that are not output positions have no source and stay put.
pub open spec fn fstep(mapping: Seq<int>, v: int) -> int {
    if 0 <= v < mapping.len() {
        mapping[v]
    } else {
        v
    }
}

/// `k` steps of [`fstep`] from `v`.
pub open spec fn walk(mapping: Seq<int>, v: int, k: nat) -> int
    decreases k,
{
    if k == 0 {
        v
    } else {
        fstep(mapping, walk(mapping, v, (k - 1) as nat))
    }
}

/// Whether cell `v` lies on a cycle of the data-flow graph.
///
/// A cycle of length `k` visits `k` distinct cells, so a witness `k` of at
/// most `mapping.len()` steps always suffices.
pub open spec fn on_cycle(mapping: Seq<int>, v: int) -> bool {
    &&& 0 <= v < mapping.len()
    &&& exists|k: int|
        1 <= k <= mapping.len() && #[trigger] walk(mapping, v, k as nat) == v
}

/// The output positions below `j` that read from cell `v`, ascending.
pub open spec fn readers_below(mapping: Seq<int>, v: int, j: nat) -> Seq<int>
    decreases j,
{
    if j == 0 {
        Seq::empty()
    } else {
        let pre = readers_below(mapping, v, (j - 1) as nat);
        if mapping[j - 1] == v {
            pre.push(j - 1)
        } else {
            pre
        }
    }
}

/// All output positions that read from cell `v`, in ascending order.
pub open spec fn readers(mapping: Seq<int>, v: int) -> Seq<int> {
    readers_below(mapping, v, mapping.len())
}

/// Whether the walk from `v` has left the acyclic part of the graph:
/// either `v` has no source, or `v` lies on a cycle.
pub open spec fn settled(mapping: Seq<int>, v: int) -> bool {
    !(0 <= v < mapping.len()) || on_cycle(mapping, v)
}

/// The number of walk steps from `v` until a settled cell, cut off at
/// `fuel`.  A fuel of `mapping.len() + 1` is always enough ([`rank`]).
pub open spec fn rank_fuel(mapping: Seq<int>, v: int, fuel: nat) -> nat
    decreases fuel,
{
    if fuel == 0 || settled(mapping, v) {
        0
    } else {
        1 + rank_fuel(mapping, fstep(mapping, v), (fuel - 1) as nat)
    }
}

/// The number of walk steps from `v` until a settled cell.
///
/// A reader of an unsettled cell has rank one above it, so processing cells
/// by descending rank processes every reader before its source.
pub open spec fn rank(mapping: Seq<int>, v: int) -> nat {
    rank_fuel(mapping, v, (mapping.len() + 1) as nat)
}

/// The number of walk steps from `v` until `c0` is reached, cut off at
/// `fuel`.  Supports [`cycle_len`].
pub open spec fn ret_fuel(mapping: Seq<int>, c0: int, v: int, fuel: nat) -> nat
    decreases fuel,
{
    if fuel == 0 || v == c0 {
        0
    } else {
        1 + ret_fuel(mapping, c0, fstep(mapping, v), (fuel - 1) as nat)
    }
}

/// The length of the cycle through `c0` (meaningful when `on_cycle` holds):
/// the first `k >= 1` with `walk(mapping, c0, k) == c0`.
pub open spec fn cycle_len(mapping: Seq<int>, c0: int) -> nat {
    1 + ret_fuel(mapping, c0, fstep(mapping, c0), mapping.len() as nat)
}

/// Whether `x` is one of the cells of the cycle through `w`.
pub open spec fn member_of(mapping: Seq<int>, w: int, x: int) -> bool {
    exists|i: int|
        0 <= i < cycle_len(mapping, w) && #[trigger] walk(mapping, w, i as nat) == x
}

/// Whether `v` is the cell at which its cycle is handled: the largest
/// member of the cycle.
pub open spec fn cycle_head(mapping: Seq<int>, v: int) -> bool {
    &&& on_cycle(mapping, v)
    &&& forall|i: int|
        1 <= i < cycle_len(mapping, v) ==> #[trigger] walk(mapping, v, i as nat) < v
}

/// One step of a walk is one application of [`fstep`].
pub proof fn lemma_walk_one(mapping: Seq<int>, v: int)
    ensures
        walk(mapping, v, 1) == fstep(mapping, v),
{
    assert(walk(mapping, v, 0) == v);
}

/// Walks compose: `i + j` steps are `i` steps followed by `j` steps.
pub proof fn lemma_walk_add(mapping: Seq<int>, v: int, i: nat, j: nat)
    ensures
        walk(mapping, v, (i + j) as nat) == walk(mapping, walk(mapping, v, i), j),
    decreases j,
{
    if j != 0 {
        lemma_walk_add(mapping, v, i, (j - 1) as nat);
    }
}

/// A cell without a source never moves.
pub proof fn lemma_walk_frozen(mapping: Seq<int>, v: int, k: nat)
    requires
        !(0 <= v < mapping.len()),
    ensures
        walk(mapping, v, k) == v,
    decreases k,
{
    if k != 0 {
        lemma_walk_frozen(mapping, v, (k - 1) as nat);
    }
}

/// The source of a cycle cell is again a cycle cell.
pub proof fn lemma_cycle_step(mapping: Seq<int>, v: int)
    requires
        on_cycle(mapping, v),
    ensures
        0 <= fstep(mapping, v) < mapping.len(),
        on_cycle(mapping, fstep(mapping, v)),
{
    let k = choose|k: int|
        1 <= k <= mapping.len() && #[trigger] walk(mapping, v, k as nat) == v;
    let u = fstep(mapping, v);
    lemma_walk_one(mapping, v);
    lemma_walk_add(mapping, v, 1, (k - 1) as nat);
    assert(walk(mapping, u, (k - 1) as nat) == v);
    if !(0 <= u < mapping.len()) {
        lemma_walk_frozen(mapping, u, (k - 1) as nat);
        assert(false);
    }
    lemma_walk_add(mapping, v, 1, k as nat);
    assert(walk(mapping, v, (k + 1) as nat) == fstep(mapping, walk(mapping, v, k as nat)));
    assert(walk(mapping, u, k as nat) == u);
}

/// Every walk reaches a settled cell within `mapping.len()` steps: were the
/// first `mapping.len() + 1` cells of a walk all unsettled, they would be
/// that many distinct cells among the `mapping.len()` output positions.
pub proof fn lemma_walk_settles(mapping: Seq<int>, v: int)
    ensures
        exists|k: int|
            0 <= k <= mapping.len() && #[trigger] settled(
                mapping,
                walk(mapping, v, k as nat),
            ),
{
    let m = mapping.len() as int;
    if !(exists|k: int|
        0 <= k <= m && #[trigger] settled(mapping, walk(mapping, v, k as nat)))
    {
        assert forall|i: int, j: int| 0 <= i < j <= m implies #[trigger] walk(
            mapping,
            v,
            i as nat,
        ) != #[trigger] walk(mapping, v, j as nat) by {
            if walk(mapping, v, i as nat) == walk(mapping, v, j as nat) {
                lemma_walk_add(mapping, v, i as nat, (j - i) as nat);
                assert(!settled(mapping, walk(mapping, v, i as nat)));
                assert(walk(mapping, walk(mapping, v, i as nat), (j - i) as nat)
                    == walk(mapping, v, i as nat));
                assert(on_cycle(mapping, walk(mapping, v, i as nat)));
                assert(false);
            }
        };
        let s = Seq::new((m + 1) as nat, |k: int| walk(mapping, v, k as nat));
        assert(s.no_duplicates());
        s.unique_seq_to_set();
        assert forall|x: int| s.to_set().contains(x) implies crate::graph::range_set(
            m,
        ).contains(x) by {
            let i = choose|i: int| 0 <= i < s.len() && s[i] == x;
            assert(!settled(mapping, walk(mapping, v, i as nat)));
        };
        vstd::set_lib::lemma_int_range(0, m);
        vstd::set_lib::lemma_len_subset(s.to_set(), range_set(m));
        assert(false);
    }
}

/// The integers in `[0, m)`, as a set.
pub open spec fn range_set(m: int) -> Set<int> {
    vstd::set_lib::set_int_range(0, m)
}

proof fn lemma_rank_fuel_first(mapping: Seq<int>, v: int, fuel: nat, k: nat)
    requires
        k <= fuel,
        settled(mapping, walk(mapping, v, k)),
    ensures
        rank_fuel(mapping, v, fuel) <= k,
        settled(mapping, walk(mapping, v, rank_fuel(mapping, v, fuel))),
        forall|j: int|
            0 <= j < rank_fuel(mapping, v, fuel) ==> !settled(
                mapping,
                #[trigger] walk(mapping, v, j as nat),
            ),
    decreases fuel,
{
    if !settled(mapping, v) {
        let u = fstep(mapping, v);
        lemma_walk_one(mapping, v);
        lemma_walk_add(mapping, v, 1, (k - 1) as nat);
        lemma_rank_fuel_first(mapping, u, (fuel - 1) as nat, (k - 1) as nat);
        let r2 = rank_fuel(mapping, u, (fuel - 1) as nat);
        lemma_walk_add(mapping, v, 1, r2);
        assert forall|j: int| 1 <= j < 1 + r2 implies !settled(
            mapping,
            #[trigger] walk(mapping, v, j as nat),
        ) by {
            lemma_walk_add(mapping, v, 1, (j - 1) as nat);
        };
    }
}

/// The rank of a cell is the exact number of steps to the first settled
/// cell of its walk, and never more than `mapping.len()`.
pub proof fn lemma_rank(mapping: Seq<int>, v: int)
    ensures
        rank(mapping, v) <= mapping.len(),
        settled(mapping, walk(mapping, v, rank(mapping, v))),
        forall|j: int|
            0 <= j < rank(mapping, v) ==> !settled(
                mapping,
                #[trigger] walk(mapping, v, j as nat),
            ),
{
    lemma_walk_settles(mapping, v);
    let k = choose|k: int|
        0 <= k <= mapping.len() && #[trigger] settled(mapping, walk(mapping, v, k as nat));
    lemma_rank_fuel_first(mapping, v, (mapping.len() + 1) as nat, k as nat);
}

/// An unsettled cell ranks one above its source.
pub proof fn lemma_rank_step(mapping: Seq<int>, v: int)
    requires
        !settled(mapping, v),
    ensures
        rank(mapping, v) == rank(mapping, fstep(mapping, v)) + 1,
{
    let u = fstep(mapping, v);
    lemma_rank(mapping, v);
    let r = rank(mapping, v) as int;
    lemma_walk_one(mapping, v);
    lemma_walk_add(mapping, v, 1, (r - 1) as nat);
    lemma_rank_fuel_first(mapping, u, (mapping.len() + 1) as nat, (r - 1) as nat);
    if rank(mapping, u) < r - 1 {
        lemma_walk_add(mapping, v, 1, rank(mapping, u));
        assert(settled(mapping, walk(mapping, v, (rank(mapping, u) + 1) as nat)));
        assert(false);
    }
}

proof fn lemma_ret_fuel_first(mapping: Seq<int>, c0: int, v: int, fuel: nat, k: nat)
    requires
        k <= fuel,
        walk(mapping, v, k) == c0,
    ensures
        ret_fuel(mapping, c0, v, fuel) <= k,
        walk(mapping, v, ret_fuel(mapping, c0, v, fuel)) == c0,
        forall|j: int|
            0 <= j < ret_fuel(mapping, c0, v, fuel) ==> #[trigger] walk(mapping, v, j as nat)
                != c0,
    decreases fuel,
{
    if v != c0 {
        let u = fstep(mapping, v);
        lemma_walk_one(mapping, v);
        lemma_walk_add(mapping, v, 1, (k - 1) as nat);
        lemma_ret_fuel_first(mapping, c0, u, (fuel - 1) as nat, (k - 1) as nat);
        let r2 = ret_fuel(mapping, c0, u, (fuel - 1) as nat);
        lemma_walk_add(mapping, v, 1, r2);
        assert forall|j: int| 1 <= j < 1 + r2 implies #[trigger] walk(mapping, v, j as nat)
            != c0 by {
            lemma_walk_add(mapping, v, 1, (j - 1) as nat);
        };
    }
}

/// The cycle length of a cycle cell is the first return time of its walk,
/// positive and at most `mapping.len()`.
pub proof fn lemma_cycle_len(mapping: Seq<int>, c0: int)
    requires
        on_cycle(mapping, c0),
    ensures
        1 <= cycle_len(mapping, c0) <= mapping.len(),
        walk(mapping, c0, cycle_len(mapping, c0)) == c0,
        forall|j: int|
            1 <= j < cycle_len(mapping, c0) ==> #[trigger] walk(mapping, c0, j as nat) != c0,
{
    let k = choose|k: int|
        1 <= k <= mapping.len() && #[trigger] walk(mapping, c0, k as nat) == c0;
    let u = fstep(mapping, c0);
    lemma_walk_one(mapping, c0);
    lemma_walk_add(mapping, c0, 1, (k - 1) as nat);
    lemma_ret_fuel_first(mapping, c0, u, mapping.len(), (k - 1) as nat);
    let rr = ret_fuel(mapping, c0, u, mapping.len());
    lemma_walk_add(mapping, c0, 1, rr);
    assert forall|j: int| 1 <= j < 1 + rr implies #[trigger] walk(mapping, c0, j as nat)
        != c0 by {
        lemma_walk_add(mapping, c0, 1, (j - 1) as nat);
    };
}

/// Distinct positions around a cycle hold distinct cells.
pub proof fn lemma_members_distinct(mapping: Seq<int>, c0: int, i: int, j: int)
    requires
        on_cycle(mapping, c0),
        0 <= i < j < cycle_len(mapping, c0),
    ensures
        walk(mapping, c0, i as nat) != walk(mapping, c0, j as nat),
{
    lemma_cycle_len(mapping, c0);
    let len = cycle_len(mapping, c0) as int;
    if walk(mapping, c0, i as nat) == walk(mapping, c0, j as nat) {
        if i == 0 {
            assert(false);
        } else {
            lemma_walk_add(mapping, c0, j as nat, (len - j) as nat);
            lemma_walk_add(mapping, c0, i as nat, (len - j) as nat);
            assert(walk(mapping, c0, (i + len - j) as nat) == c0);
            assert(false);
        }
    }
}

/// A walk from a cycle cell repeats with period `cycle_len`.
pub proof fn lemma_walk_mod(mapping: Seq<int>, c0: int, k: nat)
    requires
        on_cycle(mapping, c0),
    ensures
        walk(mapping, c0, k) == walk(
            mapping,
            c0,
            ((k as int) % (cycle_len(mapping, c0) as int)) as nat,
        ),
    decreases k,
{
    lemma_cycle_len(mapping, c0);
    let len = cycle_len(mapping, c0) as int;
    if k >= len {
        lemma_walk_add(mapping, c0, cycle_len(mapping, c0), (k - len) as nat);
        lemma_walk_mod(mapping, c0, (k - len) as nat);
        vstd::arithmetic::div_mod::lemma_mod_sub_multiples_vanish(k as int, len);
    } else {
        vstd::arithmetic::div_mod::lemma_small_mod(k, cycle_len(mapping, c0));
    }
}

/// Every member of a cycle lies on it.
pub proof fn lemma_member_on_cycle(mapping: Seq<int>, c0: int, i: nat)
    requires
        on_cycle(mapping, c0),
    ensures
        on_cycle(mapping, walk(mapping, c0, i)),
    decreases i,
{
    if i == 0 {
    } else {
        lemma_member_on_cycle(mapping, c0, (i - 1) as nat);
        lemma_cycle_step(mapping, walk(mapping, c0, (i - 1) as nat));
    }
}

/// A cycle looks the same from each of its members: same length, same
/// member set, and the walks line up with a fixed offset.
pub proof fn lemma_member_symm(mapping: Seq<int>, c0: int, i: int)
    requires
        on_cycle(mapping, c0),
        0 <= i < cycle_len(mapping, c0),
    ensures
        on_cycle(mapping, walk(mapping, c0, i as nat)),
        cycle_len(mapping, walk(mapping, c0, i as nat)) == cycle_len(mapping, c0),
        forall|j: int|
            0 <= j < cycle_len(mapping, c0) ==> #[trigger] walk(
                mapping,
                walk(mapping, c0, i as nat),
                j as nat,
            ) == walk(mapping, c0, ((i + j) % (cycle_len(mapping, c0) as int)) as nat),
        forall|y: int| member_of(mapping, c0, y) <==> member_of(
            mapping,
            walk(mapping, c0, i as nat),
            y,
        ),
{
    lemma_cycle_len(mapping, c0);
    lemma_member_on_cycle(mapping, c0, i as nat);
    let x = walk(mapping, c0, i as nat);
    let len = cycle_len(mapping, c0) as int;
    assert forall|j: int| 0 <= j <= len implies #[trigger] walk(mapping, x, j as nat)
        == walk(mapping, c0, ((i + j) % len) as nat) by {
        lemma_walk_add(mapping, c0, i as nat, j as nat);
        lemma_walk_mod(mapping, c0, (i + j) as nat);
    };
    // first return of x is exactly the cycle length of c0
    assert((i + len) % len == i) by {
        vstd::arithmetic::div_mod::lemma_mod_sub_multiples_vanish(i + len, len);
        vstd::arithmetic::div_mod::lemma_small_mod(i as nat, len as nat);
    };
    assert(walk(mapping, x, cycle_len(mapping, c0)) == x);
    assert forall|j: int| 1 <= j < len implies #[trigger] walk(mapping, x, j as nat)
        != x by {
        let r = (i + j) % len;
        vstd::arithmetic::div_mod::lemma_mod_pos_bound(i + j, len);
        if r == i {
            // then j would be a multiple of len strictly between 0 and len
            if i + j < len {
                vstd::arithmetic::div_mod::lemma_small_mod((i + j) as nat, len as nat);
            } else {
                vstd::arithmetic::div_mod::lemma_mod_sub_multiples_vanish(i + j, len);
                vstd::arithmetic::div_mod::lemma_small_mod((i + j - len) as nat, len as nat);
            }
            assert(false);
        }
        if r < i {
            lemma_members_distinct(mapping, c0, r, i);
        } else {
            lemma_members_distinct(mapping, c0, i, r);
        }
    };
    lemma_cycle_len(mapping, x);
    let lx = cycle_len(mapping, x) as int;
    if lx < len {
        assert(walk(mapping, x, lx as nat) == x);
        assert(false);
    }
    if lx > len {
        assert(walk(mapping, x, cycle_len(mapping, c0)) == x);
        assert(false);
    }
    // member sets agree
    assert forall|y: int| member_of(mapping, c0, y) implies member_of(mapping, x, y) by {
        let j = choose|j: int|
            0 <= j < cycle_len(mapping, c0) && #[trigger] walk(mapping, c0, j as nat) == y;
        let t = (j + len - i) % len;
        vstd::arithmetic::div_mod::lemma_mod_pos_bound(j + len - i, len);
        assert(walk(mapping, x, t as nat) == walk(mapping, c0, ((i + t) % len) as nat));
        assert((i + t) % len == j) by {
            vstd::arithmetic::div_mod::lemma_mod_adds(i, j + len - i, len);
            vstd::arithmetic::div_mod::lemma_small_mod(i as nat, len as nat);
            vstd::arithmetic::div_mod::lemma_mod_sub_multiples_vanish(j + len, len);
            vstd::arithmetic::div_mod::lemma_small_mod(j as nat, len as nat);
            vstd::arithmetic::div_mod::lemma_mod_twice(j + len - i, len);
            vstd::arithmetic::div_mod::lemma_mod_adds(i % len, ((j + len - i) % len), len);
        };
    };
    assert forall|y: int| member_of(mapping, x, y) implies member_of(mapping, c0, y) by {
        let j = choose|j: int|
            0 <= j < cycle_len(mapping, x) && #[trigger] walk(mapping, x, j as nat) == y;
        vstd::arithmetic::div_mod::lemma_mod_pos_bound(i + j, len);
        assert(walk(mapping, c0, (((i + j) % len)) as nat) == y);
    };
}

/// The only cycle cell reading from the member at offset `i` of a cycle is
/// the member one step further around it.
pub proof fn lemma_cycle_reader(mapping: Seq<int>, c0: int, i: int, w: int)
    requires
        on_cycle(mapping, c0),
        0 <= i < cycle_len(mapping, c0),
        on_cycle(mapping, w),
        fstep(mapping, w) == walk(mapping, c0, i as nat),
    ensures
        w == walk(
            mapping,
            c0,
            ((i + cycle_len(mapping, c0) - 1) % (cycle_len(mapping, c0) as int)) as nat,
        ),
{
    lemma_cycle_len(mapping, c0);
    let len = cycle_len(mapping, c0) as int;
    lemma_cycle_len(mapping, w);
    let lw = cycle_len(mapping, w) as int;
    lemma_walk_one(mapping, w);
    lemma_walk_add(mapping, w, 1, (lw - 1) as nat);
    lemma_walk_add(mapping, c0, i as nat, (lw - 1) as nat);
    lemma_walk_mod(mapping, c0, (i + lw - 1) as nat);
    let r = (i + lw - 1) % len;
    vstd::arithmetic::div_mod::lemma_mod_pos_bound(i + lw - 1, len);
    assert(w == walk(mapping, c0, r as nat));
    // the source of w is the member after r, and also the member at i
    lemma_walk_one(mapping, c0);
    lemma_walk_add(mapping, c0, r as nat, 1);
    lemma_walk_mod(mapping, c0, (r + 1) as nat);
    let r1 = (r + 1) % len;
    vstd::arithmetic::div_mod::lemma_mod_pos_bound(r + 1, len);
    assert(fstep(mapping, w) == walk(mapping, c0, r1 as nat)) by {
        assert(walk(mapping, c0, (r + 1) as nat)
            == fstep(mapping, walk(mapping, c0, r as nat)));
    };
    if r1 != i {
        if r1 < i {
            lemma_members_distinct(mapping, c0, r1, i);
        } else {
            lemma_members_distinct(mapping, c0, i, r1);
        }
        assert(false);
    }
    // from (r + 1) % len == i conclude r == (i + len - 1) % len
    if r + 1 < len {
        vstd::arithmetic::div_mod::lemma_small_mod((r + 1) as nat, len as nat);
        assert(i == r + 1);
        vstd::arithmetic::div_mod::lemma_mod_sub_multiples_vanish(i + len - 1, len);
        vstd::arithmetic::div_mod::lemma_small_mod((i - 1) as nat, len as nat);
    } else {
        assert(r == len - 1);
        vstd::arithmetic::div_mod::lemma_mod_sub_multiples_vanish(r + 1, len);
        vstd::arithmetic::div_mod::lemma_small_mod(0, len as nat);
        assert(i == 0);
        vstd::arithmetic::div_mod::lemma_small_mod((len - 1) as nat, len as nat);
    }
}

/// The readers of `v` below `j` are exactly the output positions below `j`
/// whose source is `v`, listed in strictly ascending order.
pub proof fn lemma_readers_below(mapping: Seq<int>, v: int, j: nat)
    requires
        j <= mapping.len(),
    ensures
        forall|t: int|
            0 <= t < readers_below(mapping, v, j).len() ==> 0 <= #[trigger] readers_below(
                mapping,
                v,
                j,
            )[t] < j && mapping[readers_below(mapping, v, j)[t]] == v,
        forall|x: int|
            0 <= x < j && mapping[x] == v ==> readers_below(mapping, v, j).contains(x),
        forall|a: int, b: int|
            0 <= a < b < readers_below(mapping, v, j).len() ==> readers_below(
                mapping,
                v,
                j,
            )[a] < readers_below(mapping, v, j)[b],
    decreases j,
{
    if j != 0 {
        lemma_readers_below(mapping, v, (j - 1) as nat);
        let pre = readers_below(mapping, v, (j - 1) as nat);
        if mapping[j - 1] == v {
            assert forall|x: int|
                0 <= x < j && mapping[x] == v implies readers_below(
                mapping,
                v,
                j,
            ).contains(x) by {
                if x < j - 1 {
                    let t = choose|t: int| 0 <= t < pre.len() && pre[t] == x;
                    assert(readers_below(mapping, v, j)[t] == x);
                } else {
                    assert(readers_below(mapping, v, j)[pre.len() as int] == x);
                }
            };
        }
    }
}

/// The full reader list of `v`: contents, order, and distinctness.
pub proof fn lemma_readers(mapping: Seq<int>, v: int)
    ensures
        forall|t: int|
            0 <= t < readers(mapping, v).len() ==> 0 <= #[trigger] readers(mapping, v)[t]
                < mapping.len() && mapping[readers(mapping, v)[t]] == v,
        forall|x: int|
            0 <= x < mapping.len() && mapping[x] == v ==> readers(mapping, v).contains(x),
        forall|a: int, b: int|
            0 <= a < b < readers(mapping, v).len() ==> readers(mapping, v)[a] < readers(
                mapping,
                v,
            )[b],
{
    lemma_readers_below(mapping, v, mapping.len());
}

} // verus!
