//! The backtracking search engine.
//!
//! The engine repeatedly asks the selector for the most constrained
//! (cell, layer-bit) target, branches over every orientation of every
//! unused piece and every footprint cell that could supply the target
//! bit, commits a valid placement, recurses, and rolls back on failure.
//! On success the winning placements stay committed and the solution
//! trace records the legal sequence of placements that packed the
//! interior; on failure it leaves grid and usage flags exactly as it
//! found them, and no legal single-use placement sequence could have
//! packed it: the search answers exactly whether the state is solvable.

use vstd::prelude::*;
use crate::cell::{cell_ok, lemma_both_bits_full};
use crate::grid::{Assembly, can_place_at, overlap_free, place_at, is_target, target_score,
    scan_before, lemma_unplace_undoes_place};
use crate::tile::Shape;

verus! {

/// The orientation orbits of all pieces, as a mathematical matrix.
pub open spec fn groups_view(gs: Vec<Vec<Shape>>) -> Seq<Seq<Shape>> {
    Seq::new(gs@.len(), |p: int| gs@[p]@)
}

/// Every tile of every orbit is well formed.
pub open spec fn groups_ok(gs: Seq<Seq<Shape>>) -> bool {
    forall|p: int, o: int| 0 <= p < gs.len() && 0 <= o < gs[p].len() ==> (#[trigger] gs[p][o]).wf()
}

/// One trace entry (piece, orientation, anchor row, anchor col) is a
/// legal next placement: the piece is unused, the indices are in range,
/// the covered span lies in the grid, and the tile may anchor there.
pub open spec fn step_ok(
    g: Seq<Seq<u8>>,
    gs: Seq<Seq<Shape>>,
    used: Seq<bool>,
    st: (usize, usize, usize, usize),
) -> bool {
    let n = g.len() as int;
    &&& (st.0 as int) < used.len()
    &&& !used[st.0 as int]
    &&& (st.0 as int) < gs.len()
    &&& (st.1 as int) < gs[st.0 as int].len()
    &&& st.2 + 3 <= n
    &&& st.3 + 3 <= n
    &&& can_place_at(g, st.2 as int, st.3 as int,
            gs[st.0 as int][st.1 as int].color, gs[st.0 as int][st.1 as int].cells())
}

/// The grid after committing one trace entry.
pub open spec fn apply_step(
    g: Seq<Seq<u8>>,
    gs: Seq<Seq<Shape>>,
    st: (usize, usize, usize, usize),
) -> Seq<Seq<u8>> {
    place_at(g, st.2 as int, st.3 as int, gs[st.0 as int][st.1 as int].cells())
}

/// A trace is a legal single-use replay from grid `g` with usage flags
/// `used`: each entry is a legal next placement, and marks its piece
/// used for the rest of the trace.
pub open spec fn replay_ok(
    g: Seq<Seq<u8>>,
    gs: Seq<Seq<Shape>>,
    used: Seq<bool>,
    tr: Seq<(usize, usize, usize, usize)>,
) -> bool
    decreases tr.len(),
{
    tr.len() == 0 || {
        &&& step_ok(g, gs, used, tr[0])
        &&& replay_ok(apply_step(g, gs, tr[0]), gs, used.update(tr[0].0 as int, true), tr.skip(1))
    }
}

/// The grid a trace produces when replayed from `g`.
pub open spec fn replay(
    g: Seq<Seq<u8>>,
    gs: Seq<Seq<Shape>>,
    tr: Seq<(usize, usize, usize, usize)>,
) -> Seq<Seq<u8>>
    decreases tr.len(),
{
    if tr.len() == 0 {
        g
    } else {
        replay(apply_step(g, gs, tr[0]), gs, tr.skip(1))
    }
}

/// A completely packed grid: every interior cell has both layer bits set.
pub open spec fn interior_full(g: Seq<Seq<u8>>, b: int) -> bool {
    let n = g.len() as int;
    forall|i: int, j: int| b <= i < n - b && b <= j < n - b ==> #[trigger] g[i][j] == 3
}

/// The number of pieces still available.
pub open spec fn count_unused(used: Seq<bool>) -> nat
    decreases used.len(),
{
    if used.len() == 0 {
        0
    } else {
        (if used[0] { 0nat } else { 1nat }) + count_unused(used.skip(1))
    }
}

/// The usage flags after marking every piece of a trace used.
pub open spec fn mark_used(used: Seq<bool>, tr: Seq<(usize, usize, usize, usize)>) -> Seq<bool>
    decreases tr.len(),
{
    if tr.len() == 0 {
        used
    } else {
        mark_used(used.update(tr[0].0 as int, true), tr.skip(1))
    }
}

/// A square grid matrix: every row is as long as there are rows.
pub open spec fn square(g: Seq<Seq<u8>>) -> bool {
    forall|i: int| 0 <= i < g.len() ==> (#[trigger] g[i]).len() == g.len()
}

/// Some legal single-use replay from this state packs the interior.
pub open spec fn solvable(g: Seq<Seq<u8>>, gs: Seq<Seq<Shape>>, used: Seq<bool>, b: int) -> bool {
    exists|tr: Seq<(usize, usize, usize, usize)>|
        #[trigger] replay_ok(g, gs, used, tr) && interior_full(replay(g, gs, tr), b)
}

/// Trace entry `st` sets layer bit `z` of cell (row, col).
pub open spec fn covers(
    gs: Seq<Seq<Shape>>,
    st: (usize, usize, usize, usize),
    row: int,
    col: int,
    z: u8,
) -> bool {
    &&& st.2 <= row < st.2 + 3
    &&& st.3 <= col < st.3 + 3
    &&& gs[st.0 as int][st.1 as int].cells()[row - st.2][col - st.3] & z != 0
}

/// (i, j, z) is the target the selector picks: a target of maximum
/// constraint score, earliest in scan order among the maxima.  At most
/// one triple satisfies this.
pub open spec fn selected(g: Seq<Seq<u8>>, b: int, t: (int, int, u8)) -> bool {
    &&& is_target(g, b, t.0, t.1, t.2)
    &&& forall|i: int, j: int, z: u8| #[trigger] is_target(g, b, i, j, z) ==>
            target_score(g, i, j, z) <= target_score(g, t.0, t.1, t.2)
    &&& forall|i: int, j: int, z: u8| #[trigger] is_target(g, b, i, j, z)
            && scan_before(i, j, z, t.0, t.1, t.2) ==>
            target_score(g, i, j, z) < target_score(g, t.0, t.1, t.2)
}

/// The selector's choice is unique.
pub proof fn lemma_selected_unique(g: Seq<Seq<u8>>, b: int, t1: (int, int, u8), t2: (int, int, u8))
    requires
        selected(g, b, t1),
        selected(g, b, t2),
    ensures
        t1 == t2,
{
    if t1 != t2 {
        assert(is_target(g, b, t1.0, t1.1, t1.2));
        assert(is_target(g, b, t2.0, t2.1, t2.2));
        if scan_before(t1.0, t1.1, t1.2, t2.0, t2.1, t2.2) {
            assert(target_score(g, t1.0, t1.1, t1.2) < target_score(g, t2.0, t2.1, t2.2));
            assert(target_score(g, t2.0, t2.1, t2.2) <= target_score(g, t1.0, t1.1, t1.2));
        } else {
            assert(scan_before(t2.0, t2.1, t2.2, t1.0, t1.1, t1.2));
            assert(target_score(g, t2.0, t2.1, t2.2) < target_score(g, t1.0, t1.1, t1.2));
            assert(target_score(g, t1.0, t1.1, t1.2) <= target_score(g, t2.0, t2.1, t2.2));
        }
    }
}

/// The search's enumeration order on candidate entries for one target:
/// piece, then orientation, then the footprint scan position — a larger
/// anchor coordinate means an earlier footprint cell.
pub open spec fn cand_before(s1: (usize, usize, usize, usize), s2: (usize, usize, usize, usize)) -> bool {
    ||| (s1.0 as int) < (s2.0 as int)
    ||| (s1.0 == s2.0 && (s1.1 as int) < (s2.1 as int))
    ||| (s1.0 == s2.0 && s1.1 == s2.1 && (s1.2 as int) > (s2.2 as int))
    ||| (s1.0 == s2.0 && s1.1 == s2.1 && s1.2 == s2.2 && (s1.3 as int) > (s2.3 as int))
}

/// A candidate the search would commit at this node: it supplies the
/// target bit, is a legal next placement, and its subtree has a
/// solution.
pub open spec fn viable(
    g: Seq<Seq<u8>>,
    gs: Seq<Seq<Shape>>,
    used: Seq<bool>,
    b: int,
    t: (int, int, u8),
    st: (usize, usize, usize, usize),
) -> bool {
    &&& covers(gs, st, t.0, t.1, t.2)
    &&& step_ok(g, gs, used, st)
    &&& solvable(apply_step(g, gs, st), gs, used.update(st.0 as int, true), b)
}

/// The one trace the search commits.  At every node: if no target is
/// left the trace ends; otherwise its head is the first viable
/// candidate, in enumeration order, for the selector's target, and its
/// tail is the committed trace of the resulting state.  Together with
/// the selector's and the order's uniqueness this pins the returned
/// trace completely, so the first solution found is reproducible.
pub open spec fn first_solution(
    g: Seq<Seq<u8>>,
    gs: Seq<Seq<Shape>>,
    used: Seq<bool>,
    b: int,
    tr: Seq<(usize, usize, usize, usize)>,
) -> bool
    decreases tr.len(),
{
    if !(exists|i: int, j: int, z: u8| is_target(g, b, i, j, z)) {
        tr.len() == 0
    } else {
        &&& tr.len() > 0
        &&& exists|t: (int, int, u8)| #[trigger] selected(g, b, t)
                && viable(g, gs, used, b, t, tr[0])
                && (forall|st: (usize, usize, usize, usize)|
                        #[trigger] viable(g, gs, used, b, t, st) ==> !cand_before(st, tr[0]))
        &&& first_solution(apply_step(g, gs, tr[0]), gs, used.update(tr[0].0 as int, true), b, tr.skip(1))
    }
}

/// Only one trace satisfies the search's characterization: with equal
/// inputs the search returns the identical solution trace.
pub proof fn lemma_first_solution_unique(
    g: Seq<Seq<u8>>,
    gs: Seq<Seq<Shape>>,
    used: Seq<bool>,
    b: int,
    tr1: Seq<(usize, usize, usize, usize)>,
    tr2: Seq<(usize, usize, usize, usize)>,
)
    requires
        first_solution(g, gs, used, b, tr1),
        first_solution(g, gs, used, b, tr2),
    ensures
        tr1 == tr2,
    decreases tr1.len(),
{
    if !(exists|i: int, j: int, z: u8| is_target(g, b, i, j, z)) {
        assert(first_solution(g, gs, used, b, tr1));
        assert(first_solution(g, gs, used, b, tr2));
        assert(tr1.len() == 0 && tr2.len() == 0);
        assert(tr1 =~= Seq::<(usize, usize, usize, usize)>::empty());
        assert(tr2 =~= Seq::<(usize, usize, usize, usize)>::empty());
    } else {
        let t1 = choose|t: (int, int, u8)| #[trigger] selected(g, b, t)
            && viable(g, gs, used, b, t, tr1[0])
            && (forall|st: (usize, usize, usize, usize)|
                    #[trigger] viable(g, gs, used, b, t, st) ==> !cand_before(st, tr1[0]));
        let t2 = choose|t: (int, int, u8)| #[trigger] selected(g, b, t)
            && viable(g, gs, used, b, t, tr2[0])
            && (forall|st: (usize, usize, usize, usize)|
                    #[trigger] viable(g, gs, used, b, t, st) ==> !cand_before(st, tr2[0]));
        lemma_selected_unique(g, b, t1, t2);
        assert(viable(g, gs, used, b, t1, tr2[0]));
        assert(!cand_before(tr1[0], tr2[0]) && !cand_before(tr2[0], tr1[0]));
        assert(tr1[0] == tr2[0]);
        lemma_first_solution_unique(apply_step(g, gs, tr1[0]), gs,
            used.update(tr1[0].0 as int, true), b, tr1.skip(1), tr2.skip(1));
        assert(tr1.len() == 1 + tr1.skip(1).len() && tr2.len() == 1 + tr2.skip(1).len());
        assert forall|k: int| 0 <= k < tr1.len() implies tr1[k] == tr2[k] by {
            if k > 0 {
                assert(tr1.skip(1)[k - 1] == tr1[k]);
                assert(tr2.skip(1)[k - 1] == tr2[k]);
            }
        }
        assert(tr1 =~= tr2);
    }
}

/// Placing a tile keeps the grid square and its side unchanged.
proof fn lemma_place_at_square(g: Seq<Seq<u8>>, row: int, col: int, t: Seq<Seq<u8>>)
    requires
        square(g),
    ensures
        square(place_at(g, row, col, t)),
        place_at(g, row, col, t).len() == g.len(),
{
    assert forall|i: int| 0 <= i < g.len() implies
        (#[trigger] place_at(g, row, col, t)[i]).len() == g.len() by {
        assert(g[i].len() == g.len());
    }
}

/// Two placements commute: the covered cells just accumulate ORed bits.
proof fn lemma_place_at_comm(
    g: Seq<Seq<u8>>,
    r1: int, c1: int, t1: Seq<Seq<u8>>,
    r2: int, c2: int, t2: Seq<Seq<u8>>,
)
    requires
        square(g),
    ensures
        place_at(place_at(g, r1, c1, t1), r2, c2, t2)
            == place_at(place_at(g, r2, c2, t2), r1, c1, t1),
{
    let ga = place_at(place_at(g, r1, c1, t1), r2, c2, t2);
    let gb = place_at(place_at(g, r2, c2, t2), r1, c1, t1);
    let n = g.len() as int;
    assert forall|i: int| 0 <= i < n implies (#[trigger] ga[i]).len() == (#[trigger] gb[i]).len() by {
        assert(g[i].len() == n);
    }
    assert forall|i: int, j: int| 0 <= i < n && 0 <= j < n implies
        #[trigger] ga[i][j] == #[trigger] gb[i][j] by {
        assert(g[i].len() == n);
        let x = g[i][j];
        if r1 <= i < r1 + 3 && c1 <= j < c1 + 3 && r2 <= i < r2 + 3 && c2 <= j < c2 + 3 {
            let a = t1[i - r1][j - c1];
            let b = t2[i - r2][j - c2];
            assert((x | a) | b == (x | b) | a) by (bit_vector);
        }
    }
    assert(ga =~~= gb);
}

/// If a tile fits after another was placed, it already fit before, and
/// the two may be placed in either order.
proof fn lemma_swap_overlap(
    g: Seq<Seq<u8>>,
    r1: int, c1: int, t1: Seq<Seq<u8>>,
    r2: int, c2: int, t2: Seq<Seq<u8>>,
)
    requires
        square(g),
        0 <= r1, 0 <= c1, r1 + 3 <= g.len(), c1 + 3 <= g.len(),
        0 <= r2, 0 <= c2, r2 + 3 <= g.len(), c2 + 3 <= g.len(),
        overlap_free(g, r1, c1, t1),
        overlap_free(place_at(g, r1, c1, t1), r2, c2, t2),
    ensures
        overlap_free(g, r2, c2, t2),
        overlap_free(place_at(g, r2, c2, t2), r1, c1, t1),
{
    let gp1 = place_at(g, r1, c1, t1);
    let gp2 = place_at(g, r2, c2, t2);
    assert forall|a: int, b: int| 0 <= a < 3 && 0 <= b < 3 implies
        #[trigger] (g[r2 + a][c2 + b] & t2[a][b]) == 0 by {
        assert(g[r2 + a].len() == g.len());
        assert(gp1[r2 + a][c2 + b] & t2[a][b] == 0);
        let x = g[r2 + a][c2 + b];
        let w = t2[a][b];
        if r1 <= r2 + a < r1 + 3 && c1 <= c2 + b < c1 + 3 {
            let v = t1[r2 + a - r1][c2 + b - c1];
            assert(gp1[r2 + a][c2 + b] == x | v);
            assert((x | v) & w == 0 ==> x & w == 0) by (bit_vector);
        } else {
            assert(gp1[r2 + a][c2 + b] == x);
        }
    }
    assert forall|a: int, b: int| 0 <= a < 3 && 0 <= b < 3 implies
        #[trigger] (gp2[r1 + a][c1 + b] & t1[a][b]) == 0 by {
        assert(g[r1 + a].len() == g.len());
        assert(g[r1 + a][c1 + b] & t1[a][b] == 0);
        let x = g[r1 + a][c1 + b];
        let v = t1[a][b];
        if r2 <= r1 + a < r2 + 3 && c2 <= c1 + b < c2 + 3 {
            let a2 = r1 + a - r2;
            let b2 = c1 + b - c2;
            let w = t2[a2][b2];
            assert(gp1[r2 + a2][c2 + b2] & t2[a2][b2] == 0);
            assert(gp1[r2 + a2][c2 + b2] == x | v);
            assert(x & v == 0 && (x | v) & w == 0 ==> (x | w) & v == 0) by (bit_vector);
            assert(gp2[r1 + a][c1 + b] == x | w);
        } else {
            assert(gp2[r1 + a][c1 + b] == x);
        }
    }
}

/// Replaying any trace keeps the grid square and its side unchanged.
proof fn lemma_replay_square(g: Seq<Seq<u8>>, gs: Seq<Seq<Shape>>, tr: Seq<(usize, usize, usize, usize)>)
    requires
        square(g),
    ensures
        square(replay(g, gs, tr)),
        replay(g, gs, tr).len() == g.len(),
    decreases tr.len(),
{
    if tr.len() > 0 {
        lemma_place_at_square(g, tr[0].2 as int, tr[0].3 as int,
            gs[tr[0].0 as int][tr[0].1 as int].cells());
        lemma_replay_square(apply_step(g, gs, tr[0]), gs, tr.skip(1));
    }
}

/// The first two entries of a legal trace may be exchanged: both stay
/// legal and the replayed grid is the same.
proof fn lemma_swap_adjacent(
    g: Seq<Seq<u8>>,
    gs: Seq<Seq<Shape>>,
    used: Seq<bool>,
    s1: (usize, usize, usize, usize),
    s2: (usize, usize, usize, usize),
    rest: Seq<(usize, usize, usize, usize)>,
)
    requires
        square(g),
        replay_ok(g, gs, used, seq![s1, s2] + rest),
    ensures
        replay_ok(g, gs, used, seq![s2, s1] + rest),
        replay(g, gs, seq![s2, s1] + rest) == replay(g, gs, seq![s1, s2] + rest),
{
    let ta = seq![s1, s2] + rest;
    let tb = seq![s2, s1] + rest;
    assert(ta[0] == s1 && tb[0] == s2);
    assert(ta.skip(1) =~= seq![s2] + rest);
    assert(tb.skip(1) =~= seq![s1] + rest);
    assert((seq![s2] + rest)[0] == s2 && (seq![s1] + rest)[0] == s1);
    assert((seq![s2] + rest).skip(1) =~= rest);
    assert((seq![s1] + rest).skip(1) =~= rest);
    let t1 = gs[s1.0 as int][s1.1 as int].cells();
    let t2 = gs[s2.0 as int][s2.1 as int].cells();
    let u1 = used.update(s1.0 as int, true);
    let u2 = used.update(s2.0 as int, true);
    let u12 = u1.update(s2.0 as int, true);
    let u21 = u2.update(s1.0 as int, true);
    assert(step_ok(g, gs, used, s1));
    assert(replay_ok(apply_step(g, gs, s1), gs, u1, seq![s2] + rest));
    assert(step_ok(apply_step(g, gs, s1), gs, u1, s2));
    assert(replay_ok(apply_step(apply_step(g, gs, s1), gs, s2), gs, u12, rest));
    assert(s1.0 != s2.0);
    assert(u12 =~= u21);
    lemma_swap_overlap(g, s1.2 as int, s1.3 as int, t1, s2.2 as int, s2.3 as int, t2);
    lemma_place_at_comm(g, s1.2 as int, s1.3 as int, t1, s2.2 as int, s2.3 as int, t2);
    assert(step_ok(g, gs, used, s2));
    assert(step_ok(apply_step(g, gs, s2), gs, u2, s1)) by {
        assert(apply_step(g, gs, s2).len() == g.len()) by {
            lemma_place_at_square(g, s2.2 as int, s2.3 as int, t2);
        }
    }
    assert(apply_step(apply_step(g, gs, s2), gs, s1) == apply_step(apply_step(g, gs, s1), gs, s2));
    assert(replay_ok(apply_step(apply_step(g, gs, s2), gs, s1), gs, u21, rest));
    assert(replay_ok(apply_step(g, gs, s2), gs, u2, seq![s1] + rest));
    assert(replay_ok(g, gs, used, tb));
    assert(replay(g, gs, tb) == replay(apply_step(g, gs, s2), gs, seq![s1] + rest));
    assert(replay(apply_step(g, gs, s2), gs, seq![s1] + rest)
        == replay(apply_step(apply_step(g, gs, s2), gs, s1), gs, rest));
    assert(replay(g, gs, ta) == replay(apply_step(g, gs, s1), gs, seq![s2] + rest));
    assert(replay(apply_step(g, gs, s1), gs, seq![s2] + rest)
        == replay(apply_step(apply_step(g, gs, s1), gs, s2), gs, rest));
}

/// Any entry of a legal trace may be pulled to the front: the reordered
/// trace is still legal and replays to the same grid.
proof fn lemma_pull_front(
    g: Seq<Seq<u8>>,
    gs: Seq<Seq<Shape>>,
    used: Seq<bool>,
    tr: Seq<(usize, usize, usize, usize)>,
    k: int,
)
    requires
        square(g),
        replay_ok(g, gs, used, tr),
        0 <= k < tr.len(),
    ensures
        replay_ok(g, gs, used, seq![tr[k]] + (tr.subrange(0, k) + tr.skip(k + 1))),
        replay(g, gs, seq![tr[k]] + (tr.subrange(0, k) + tr.skip(k + 1))) == replay(g, gs, tr),
    decreases k,
{
    if k == 0 {
        assert(seq![tr[0]] + (tr.subrange(0, 0) + tr.skip(1)) =~= tr);
    } else {
        let s0 = tr[0];
        let g1 = apply_step(g, gs, s0);
        let u1 = used.update(s0.0 as int, true);
        let tl = tr.skip(1);
        assert(step_ok(g, gs, used, s0));
        assert(replay_ok(g1, gs, u1, tl));
        lemma_place_at_square(g, s0.2 as int, s0.3 as int, gs[s0.0 as int][s0.1 as int].cells());
        lemma_pull_front(g1, gs, u1, tl, k - 1);
        let sk = tl[k - 1];
        assert(sk == tr[k]);
        let rest1 = tl.subrange(0, k - 1) + tl.skip(k);
        assert(replay_ok(g1, gs, u1, seq![sk] + rest1));
        assert(replay(g1, gs, seq![sk] + rest1) == replay(g1, gs, tl));
        // reattach the head, then exchange the first two entries
        let two = seq![s0, sk] + rest1;
        assert(two[0] == s0);
        assert(two.skip(1) =~= seq![sk] + rest1);
        assert(replay_ok(g, gs, used, two));
        assert(replay(g, gs, two) == replay(g1, gs, seq![sk] + rest1));
        lemma_swap_adjacent(g, gs, used, s0, sk, rest1);
        let swapped = seq![sk, s0] + rest1;
        let goal = seq![tr[k]] + (tr.subrange(0, k) + tr.skip(k + 1));
        assert(tr.subrange(0, k) =~= seq![s0] + tl.subrange(0, k - 1));
        assert(tr.skip(k + 1) =~= tl.skip(k));
        assert(goal =~= swapped);
        assert(replay(g, gs, tr) == replay(g1, gs, tl));
    }
}

/// A legal trace that fills a still-empty target bit must contain an
/// entry whose tile sets that bit of that cell.
proof fn lemma_cover_exists(
    g: Seq<Seq<u8>>,
    gs: Seq<Seq<Shape>>,
    used: Seq<bool>,
    tr: Seq<(usize, usize, usize, usize)>,
    b: int,
    row: int,
    col: int,
    z: u8,
)
    requires
        square(g),
        replay_ok(g, gs, used, tr),
        interior_full(replay(g, gs, tr), b),
        0 <= b,
        b <= row < g.len() - b,
        b <= col < g.len() - b,
        z == 1 || z == 2,
        g[row][col] & z == 0,
    ensures
        exists|k: int| 0 <= k < tr.len() && #[trigger] covers(gs, tr[k], row, col, z),
    decreases tr.len(),
{
    lemma_replay_square(g, gs, tr);
    if tr.len() == 0 {
        assert(replay(g, gs, tr) == g);
        assert(g[row][col] == 3);
        assert(!(3u8 & z == 0)) by (bit_vector)
            requires
                z == 1 || z == 2,
        ;
    } else {
        let s0 = tr[0];
        if covers(gs, s0, row, col, z) {
            assert(covers(gs, tr[0], row, col, z));
        } else {
            let g1 = apply_step(g, gs, s0);
            let u1 = used.update(s0.0 as int, true);
            assert(g[row].len() == g.len());
            assert(g1[row][col] & z == 0) by {
                let x = g[row][col];
                if s0.2 <= row < s0.2 + 3 && s0.3 <= col < s0.3 + 3 {
                    let v = gs[s0.0 as int][s0.1 as int].cells()[row - s0.2][col - s0.3];
                    assert(g1[row][col] == x | v);
                    assert(v & z == 0);
                    assert(x & z == 0 && v & z == 0 ==> (x | v) & z == 0) by (bit_vector);
                } else {
                    assert(g1[row][col] == x);
                }
            }
            lemma_place_at_square(g, s0.2 as int, s0.3 as int, gs[s0.0 as int][s0.1 as int].cells());
            lemma_cover_exists(g1, gs, u1, tr.skip(1), b, row, col, z);
            let k1 = choose|k: int| 0 <= k < tr.skip(1).len() && #[trigger] covers(gs, tr.skip(1)[k], row, col, z);
            assert(tr.skip(1)[k1] == tr[k1 + 1]);
            assert(covers(gs, tr[k1 + 1], row, col, z));
        }
    }
}

/// Marking an unused piece used strictly decreases the number of
/// available pieces — the search's termination measure.
proof fn lemma_count_unused_update(used: Seq<bool>, k: int)
    requires
        0 <= k < used.len(),
        !used[k],
    ensures
        count_unused(used.update(k, true)) < count_unused(used),
    decreases used.len(),
{
    if k == 0 {
        assert(used.update(0, true).skip(1) =~= used.skip(1));
    } else {
        assert(used.update(k, true).skip(1) =~= used.skip(1).update(k - 1, true));
        lemma_count_unused_update(used.skip(1), k - 1);
    }
}

/// Depth-first search for a complete packing.
///
/// On success the winning placements stay committed: the grid ends as
/// the replay of the appended trace — a legal single-use placement
/// sequence — with every interior cell fully packed, and the usage
/// flags mark exactly the traced pieces.  On failure the grid, the
/// flags and the trace return to their entry state, and no legal
/// single-use placement sequence from that state could have packed the
/// interior: the search succeeds exactly on solvable states.
/// Enumeration order is fixed (piece, then orientation, then footprint
/// scan order), so the first solution found is reproducible.
#[verifier::loop_isolation(false)]
#[verifier::rlimit(40)]
pub fn backtrack(
    board: &mut Assembly,
    shape_groups: &Vec<Vec<Shape>>,
    used_shapes: &mut Vec<bool>,
    solution: &mut Vec<(usize, usize, usize, usize)>,
) -> (found: bool)
    requires
        old(board).wf(),
        groups_ok(groups_view(*shape_groups)),
        old(used_shapes)@.len() == shape_groups@.len(),
    ensures
        final(board).border == old(board).border,
        old(solution)@.len() <= final(solution)@.len(),
        final(solution)@.subrange(0, old(solution)@.len() as int) == old(solution)@,
        found == solvable(
            old(board).grid(),
            groups_view(*shape_groups),
            old(used_shapes)@,
            old(board).border as int),
        found ==> replay_ok(
            old(board).grid(),
            groups_view(*shape_groups),
            old(used_shapes)@,
            final(solution)@.skip(old(solution)@.len() as int)),
        found ==> final(board).grid() == replay(
            old(board).grid(),
            groups_view(*shape_groups),
            final(solution)@.skip(old(solution)@.len() as int)),
        found ==> interior_full(final(board).grid(), old(board).border as int),
        found ==> final(used_shapes)@ == mark_used(
            old(used_shapes)@,
            final(solution)@.skip(old(solution)@.len() as int)),
        found ==> first_solution(
            old(board).grid(),
            groups_view(*shape_groups),
            old(used_shapes)@,
            old(board).border as int,
            final(solution)@.skip(old(solution)@.len() as int)),
        !found ==> final(board).grid() == old(board).grid(),
        !found ==> final(used_shapes)@ == old(used_shapes)@,
        !found ==> final(solution)@ == old(solution)@,
    decreases count_unused(old(used_shapes)@),
{
    let ghost g0 = old(board).grid();
    let ghost gs = groups_view(*shape_groups);
    let ghost u0 = old(used_shapes)@;
    let ghost sol0 = old(solution)@;
    let ghost bi = old(board).border as int;
    let (row, col, z) = board.find_most_constrained_cell();
    if z == 0 {
        proof {
            let n = g0.len() as int;
            assert forall|i: int, j: int| bi <= i < n - bi && bi <= j < n - bi implies
                #[trigger] g0[i][j] == 3 by {
                assert(!is_target(g0, bi, i, j, 1u8));
                assert(!is_target(g0, bi, i, j, 2u8));
                assert(cell_ok(g0[i][j]));
                lemma_both_bits_full(g0[i][j]);
            }
            assert(solution@.skip(sol0.len() as int)
                =~= Seq::<(usize, usize, usize, usize)>::empty());
            assert(solution@.subrange(0, sol0.len() as int) =~= sol0);
            assert(replay_ok(g0, gs, u0, Seq::<(usize, usize, usize, usize)>::empty()));
            assert(replay(g0, gs, Seq::<(usize, usize, usize, usize)>::empty()) == g0);
            assert(mark_used(u0, Seq::<(usize, usize, usize, usize)>::empty()) == u0);
            assert(solvable(g0, gs, u0, bi));
            assert(!(exists|i: int, j: int, z: u8| is_target(g0, bi, i, j, z)));
            assert(first_solution(g0, gs, u0, bi, Seq::<(usize, usize, usize, usize)>::empty()));
        }
        return true;
    }
    proof {
        assert(is_target(g0, bi, row as int, col as int, z));
    }
    let num: usize = used_shapes.len();
    let mut sgi: usize = 0;
    while sgi < num
        invariant
            sgi <= num,
            board.grid() == g0,
            board.border == old(board).border,
            used_shapes@ == u0,
            solution@ == sol0,
            forall|st: (usize, usize, usize, usize)|
                #[trigger] covers(gs, st, row as int, col as int, z)
                    && step_ok(g0, gs, u0, st)
                    && (st.0 as int) < sgi as int
                ==> !solvable(apply_step(g0, gs, st), gs, u0.update(st.0 as int, true), bi),
        decreases num - sgi,
    {
        if !used_shapes[sgi] {
            let glen: usize = shape_groups[sgi].len();
            let mut si: usize = 0;
            while si < glen
                invariant
                    sgi < num,
                    si <= glen,
                    board.grid() == g0,
                    board.border == old(board).border,
                    used_shapes@ == u0,
                    solution@ == sol0,
                    forall|st: (usize, usize, usize, usize)|
                        #[trigger] covers(gs, st, row as int, col as int, z)
                            && step_ok(g0, gs, u0, st)
                            && ((st.0 as int) < sgi as int
                                || ((st.0 as int) == sgi as int && (st.1 as int) < si as int))
                        ==> !solvable(apply_step(g0, gs, st), gs, u0.update(st.0 as int, true), bi),
                decreases glen - si,
            {
                proof {
                    assert(gs[sgi as int] == shape_groups@[sgi as int]@);
                    assert(gs[sgi as int][si as int].wf());
                }
                let mut fi: usize = 0;
                while fi < 3
                    invariant
                        sgi < num,
                        si < glen,
                        fi <= 3,
                        board.grid() == g0,
                        board.border == old(board).border,
                        used_shapes@ == u0,
                        solution@ == sol0,
                        forall|st: (usize, usize, usize, usize)|
                            #[trigger] covers(gs, st, row as int, col as int, z)
                                && step_ok(g0, gs, u0, st)
                                && ((st.0 as int) < sgi as int
                                    || ((st.0 as int) == sgi as int && (st.1 as int) < si as int)
                                    || ((st.0 as int) == sgi as int && (st.1 as int) == si as int
                                        && row - st.2 < fi as int))
                            ==> !solvable(apply_step(g0, gs, st), gs, u0.update(st.0 as int, true), bi),
                    decreases 3 - fi,
                {
                    let mut fj: usize = 0;
                    while fj < 3
                        invariant
                            sgi < num,
                            si < glen,
                            fi < 3,
                            fj <= 3,
                            board.grid() == g0,
                            board.border == old(board).border,
                            used_shapes@ == u0,
                            solution@ == sol0,
                            forall|st: (usize, usize, usize, usize)|
                                #[trigger] covers(gs, st, row as int, col as int, z)
                                    && step_ok(g0, gs, u0, st)
                                    && ((st.0 as int) < sgi as int
                                        || ((st.0 as int) == sgi as int && (st.1 as int) < si as int)
                                        || ((st.0 as int) == sgi as int && (st.1 as int) == si as int
                                            && (row - st.2 < fi as int
                                                || (row - st.2 == fi as int && col - st.3 < fj as int))))
                                ==> !solvable(apply_step(g0, gs, st), gs, u0.update(st.0 as int, true), bi),
                        decreases 3 - fj,
                    {
                        let sval: u8 = shape_groups[sgi][si].data[fi][fj];
                        proof {
                            assert(gs[sgi as int][si as int].cells()[fi as int][fj as int]
                                == shape_groups@[sgi as int]@[si as int].data@[fi as int]@[fj as int]);
                        }
                        if sval & z != 0 {
                            let ar: usize = row - fi;
                            let ac: usize = col - fj;
                            if board.can_place(ar, ac, &shape_groups[sgi][si]) {
                                let ghost st = (sgi, si, ar, ac);
                                let ghost gp = place_at(g0, ar as int, ac as int,
                                    gs[sgi as int][si as int].cells());
                                solution.push((sgi, si, ar, ac));
                                board.place(ar, ac, &shape_groups[sgi][si]);
                                used_shapes[sgi] = true;
                                proof {
                                    assert(used_shapes@ =~= u0.update(sgi as int, true));
                                    lemma_count_unused_update(u0, sgi as int);
                                }
                                let ghost sol1 = solution@;
                                let found = backtrack(board, shape_groups, used_shapes, solution);
                                if found {
                                    // success propagates upward unchanged:
                                    // the placement stays committed
                                    proof {
                                        let ext2 = solution@.skip(sol1.len() as int);
                                        let ext = solution@.skip(sol0.len() as int);
                                        assert(solution@.subrange(0, sol1.len() as int) == sol1);
                                        assert(sol1 == sol0.push(st));
                                        assert forall|k: int| 0 <= k < ext.len() implies
                                            ext[k] == (seq![st] + ext2)[k] by {
                                            if k == 0 {
                                                assert(solution@.subrange(0, sol1.len() as int)[sol0.len() as int]
                                                    == solution@[sol0.len() as int]);
                                                assert(sol1[sol0.len() as int] == st);
                                            } else {
                                                assert(ext[k] == solution@[k + sol0.len()]);
                                                assert(ext2[k - 1] == solution@[k - 1 + sol1.len()]);
                                            }
                                        }
                                        assert(ext =~= seq![st] + ext2);
                                        assert(ext[0] == st);
                                        assert(ext.skip(1) =~= ext2);
                                        assert(step_ok(g0, gs, u0, st));
                                        assert(apply_step(g0, gs, st) == gp);
                                        assert(replay_ok(g0, gs, u0, ext));
                                        assert(replay(g0, gs, ext) == replay(gp, gs, ext2));
                                        assert(mark_used(u0, ext)
                                            == mark_used(u0.update(sgi as int, true), ext2));
                                        assert(solution@.subrange(0, sol0.len() as int) =~= sol0);
                                        assert(solvable(g0, gs, u0, bi));
                                        let t = (row as int, col as int, z);
                                        assert(selected(g0, bi, t));
                                        assert(covers(gs, st, row as int, col as int, z));
                                        assert(viable(g0, gs, u0, bi, t, st));
                                        assert forall|st2: (usize, usize, usize, usize)|
                                            #[trigger] viable(g0, gs, u0, bi, t, st2) implies
                                            !cand_before(st2, st) by {
                                            if cand_before(st2, st) {
                                                assert(covers(gs, st2, row as int, col as int, z));
                                                assert(!solvable(apply_step(g0, gs, st2), gs,
                                                    u0.update(st2.0 as int, true), bi));
                                                assert(false);
                                            }
                                        }
                                        assert(first_solution(gp, gs,
                                            u0.update(sgi as int, true), bi, ext2));
                                        assert(first_solution(g0, gs, u0, bi, ext));
                                    }
                                    return true;
                                }
                                used_shapes[sgi] = false;
                                proof {
                                    assert(used_shapes@ =~= u0);
                                }
                                proof {
                                    gs[sgi as int][si as int].lemma_wf_cells();
                                    lemma_unplace_undoes_place(g0, bi, ar as int, ac as int,
                                        gs[sgi as int][si as int].cells());
                                }
                                board.unplace(ar, ac, &shape_groups[sgi][si]);
                                solution.pop();
                                proof {
                                    assert(solution@ =~= sol0);
                                    // this candidate is settled: its subtree is unsolvable
                                    assert forall|st2: (usize, usize, usize, usize)|
                                        #[trigger] covers(gs, st2, row as int, col as int, z)
                                            && step_ok(g0, gs, u0, st2)
                                            && (st2.0 as int) == sgi as int && (st2.1 as int) == si as int
                                            && row - st2.2 == fi as int && col - st2.3 == fj as int
                                        implies !solvable(apply_step(g0, gs, st2), gs,
                                            u0.update(st2.0 as int, true), bi) by {
                                        assert(st2.2 == ar && st2.3 == ac);
                                        assert(apply_step(g0, gs, st2) == gp);
                                    }
                                }
                            } else {
                                proof {
                                    // the tile cannot anchor here: no such legal step exists
                                    assert forall|st2: (usize, usize, usize, usize)|
                                        #[trigger] covers(gs, st2, row as int, col as int, z)
                                            && step_ok(g0, gs, u0, st2)
                                            && (st2.0 as int) == sgi as int && (st2.1 as int) == si as int
                                            && row - st2.2 == fi as int && col - st2.3 == fj as int
                                        implies !solvable(apply_step(g0, gs, st2), gs,
                                            u0.update(st2.0 as int, true), bi) by {
                                        assert(st2.2 == ar && st2.3 == ac);
                                        assert(!can_place_at(g0, ar as int, ac as int,
                                            gs[sgi as int][si as int].color,
                                            gs[sgi as int][si as int].cells()));
                                        assert(false);
                                    }
                                }
                            }
                        } else {
                            proof {
                                // the footprint cell lacks the target bit: no step covers it here
                                assert forall|st2: (usize, usize, usize, usize)|
                                    #[trigger] covers(gs, st2, row as int, col as int, z)
                                        && step_ok(g0, gs, u0, st2)
                                        && (st2.0 as int) == sgi as int && (st2.1 as int) == si as int
                                        && row - st2.2 == fi as int && col - st2.3 == fj as int
                                    implies !solvable(apply_step(g0, gs, st2), gs,
                                        u0.update(st2.0 as int, true), bi) by {
                                    assert(gs[st2.0 as int][st2.1 as int].cells()
                                        [row - st2.2][col - st2.3] & z != 0);
                                    assert(sval & z == 0);
                                    assert(false);
                                }
                            }
                        }
                        fj += 1;
                    }
                    fi += 1;
                }
                si += 1;
            }
            proof {
                assert(gs[sgi as int] == shape_groups@[sgi as int]@);
            }
        } else {
            proof {
                assert(u0[sgi as int]);
            }
        }
        sgi += 1;
    }
    proof {
        assert(solution@.subrange(0, sol0.len() as int) =~= sol0);
        assert(square(g0));
        assert forall|tr: Seq<(usize, usize, usize, usize)>|
            #[trigger] replay_ok(g0, gs, u0, tr) implies
            !interior_full(replay(g0, gs, tr), bi) by {
            if interior_full(replay(g0, gs, tr), bi) {
                lemma_cover_exists(g0, gs, u0, tr, bi, row as int, col as int, z);
                let k = choose|k: int| 0 <= k < tr.len()
                    && #[trigger] covers(gs, tr[k], row as int, col as int, z);
                lemma_pull_front(g0, gs, u0, tr, k);
                let st = tr[k];
                let rest = tr.subrange(0, k) + tr.skip(k + 1);
                let tr2 = seq![st] + rest;
                assert(replay_ok(g0, gs, u0, tr2));
                assert(tr2[0] == st);
                assert(tr2.skip(1) =~= rest);
                assert(step_ok(g0, gs, u0, st));
                assert(replay_ok(apply_step(g0, gs, st), gs, u0.update(st.0 as int, true), rest));
                assert((st.0 as int) < num as int);
                assert(!solvable(apply_step(g0, gs, st), gs, u0.update(st.0 as int, true), bi));
                assert(interior_full(replay(g0, gs, tr2), bi));
                assert(replay(g0, gs, tr2) == replay(apply_step(g0, gs, st), gs, rest));
                assert(solvable(apply_step(g0, gs, st), gs, u0.update(st.0 as int, true), bi));
                assert(false);
            }
        }
        if solvable(g0, gs, u0, bi) {
            let tr = choose|tr: Seq<(usize, usize, usize, usize)>|
                #[trigger] replay_ok(g0, gs, u0, tr) && interior_full(replay(g0, gs, tr), bi);
            assert(false);
        }
    }
    false
}

} // verus!

