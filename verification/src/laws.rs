use crate::solver::{
    adjacent_ok, cell_count, consistent, inside, inside_set, nbr, spec_palette, spec_solve,
    spec_tiling, spec_try,
};
use crate::spiral::{init_state, pos_at, state_at, step_state};
use crate::spiral_props::{abs_sp, sq};
use crate::tiles::{filter_compat, lemma_filter_compat_open, Tile};
use vstd::prelude::*;

verus! {

/// Edge consistency: in an edge-consistent assignment, horizontally
/// adjacent records agree right edge to left edge, and vertically adjacent
/// records agree top edge to bottom edge.
pub proof fn lemma_edge_consistency(m: Map<(int, int), Tile>, x: int, y: int)
    requires
        consistent(m),
    ensures
        m.dom().contains((x, y)) && m.dom().contains((x + 1, y)) ==> m[(x, y)].right == m[(
            x + 1,
            y,
        )].left,
        m.dom().contains((x, y)) && m.dom().contains((x, y + 1)) ==> m[(x, y)].top == m[(
            x,
            y + 1,
        )].bottom,
{
    if m.dom().contains((x, y)) && m.dom().contains((x + 1, y)) {
        assert(adjacent_ok(m, (x, y), (x + 1, y)));
    }
    if m.dom().contains((x, y)) && m.dom().contains((x, y + 1)) {
        assert(adjacent_ok(m, (x, y), (x, y + 1)));
    }
}

/// Coverage: when a result assigns exactly the interior of the target
/// square, a cell is assigned exactly when both of its coordinates lie
/// strictly between `-|size|` and `|size|`.
pub proof fn lemma_coverage_bounds(m: Map<(int, int), Tile>, size: int, x: int, y: int)
    requires
        m.dom() =~= inside_set(size),
    ensures
        m.dom().contains((x, y)) <==> (-abs_sp(size) < x < abs_sp(size) && -abs_sp(size) < y
            < abs_sp(size)),
{
    assert(inside_set(size).contains((x, y)) == inside(x, y, size));
}

/// Determinism: the produced tiling is a function of the requested size
/// alone, so two runs with the same size yield identical mappings.
pub proof fn lemma_generate_deterministic(
    m1: Map<(int, int), Tile>,
    m2: Map<(int, int), Tile>,
    size: int,
)
    requires
        m1 == spec_tiling(size),
        m2 == spec_tiling(size),
    ensures
        m1 == m2,
{
}

/// Spiral order: the first seventeen cells the spiral emits, in order.
pub proof fn lemma_spiral_prefix()
    ensures
        pos_at(0) == (0int, 0int),
        pos_at(1) == (0int, 1int),
        pos_at(2) == (1int, 1int),
        pos_at(3) == (1int, 0int),
        pos_at(4) == (1int, -1int),
        pos_at(5) == (0int, -1int),
        pos_at(6) == (-1int, -1int),
        pos_at(7) == (-1int, 0int),
        pos_at(8) == (-1int, 1int),
        pos_at(9) == (-1int, 2int),
        pos_at(10) == (0int, 2int),
        pos_at(11) == (1int, 2int),
        pos_at(12) == (2int, 2int),
        pos_at(13) == (2int, 1int),
        pos_at(14) == (2int, 0int),
        pos_at(15) == (2int, -1int),
        pos_at(16) == (2int, -2int),
{
    reveal_with_fuel(state_at, 18);
}

/// Degenerate size: with half-extent zero no cell lies strictly inside,
/// and the produced tiling is empty.
pub proof fn lemma_degenerate_tiling()
    ensures
        spec_tiling(0) == Map::<(int, int), Tile>::empty(),
{
    assert(state_at(0) == init_state());
    assert(!inside(pos_at(0).0, pos_at(0).1, 0));
}

/// Smallest useful size: with half-extent one the single interior cell is
/// the origin, no neighbor constrains it, and the first palette tile is
/// chosen.
pub proof fn lemma_single_cell_tiling()
    ensures
        spec_tiling(1) == Map::<(int, int), Tile>::empty().insert((0, 0), spec_palette()[0]),
{
    let pal = spec_palette();
    let e = Map::<(int, int), Tile>::empty();
    assert(state_at(0) == init_state());
    assert(pos_at(0) == (0int, 0int));
    assert(inside(0, 0, 1));
    assert(abs_sp(1) == 1);
    assert(sq(1) == 1);
    assert(cell_count(1) == 1);
    lemma_filter_compat_open(pal);
    assert(nbr(e, 0, 1) is None && nbr(e, 0, -1) is None && nbr(e, -1, 0) is None && nbr(e, 1, 0)
        is None);
    let m1 = e.insert((0int, 0int), pal[0]);
    assert(state_at(1) == step_state(state_at(0)));
    assert(pos_at(1) == (0int, 1int));
    assert(!inside(0, 1, 1));
    assert(spec_solve(m1, 1, pal, 1, 1nat) == Some(m1));
    assert(pal.len() == 11);
    assert(spec_try(e, 0, pal, 0, pal, 1, 2nat) == Some(m1));
    assert(spec_solve(e, 0, pal, 1, 2nat) == Some(m1));
}

} // verus!
