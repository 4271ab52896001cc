use crate::grid::Grid;
use crate::spiral::{init_state, pos_at, state_at, TilePos};
use crate::spiral_props::{
    abs_sp, lemma_coverage, lemma_injective, lemma_radius_step, lemma_state_fits, lemma_window,
    radius, sq,
};
use crate::tiles::{filter_compat, lemma_filter_compat_members, spec_compatible, Color, Tile};
use vstd::prelude::*;

verus! {

/// A cell lies strictly inside the target square when its Chebyshev
/// distance from the origin is below the half-extent's magnitude.
pub open spec fn inside(x: int, y: int, size: int) -> bool {
    radius(x, y) < abs_sp(size)
}

/// All cells strictly inside the target square of half-extent `size`.
pub open spec fn inside_set(size: int) -> Set<(int, int)> {
    Set::new(|c: (int, int)| inside(c.0, c.1, size))
}

/// How many cells lie strictly inside the target square: the spiral emits
/// exactly these before it first steps outside.
pub open spec fn cell_count(size: int) -> int {
    if size == 0 {
        0
    } else {
        sq(2 * abs_sp(size) - 1)
    }
}

/// The set of cells the spiral emits at indices `lo <= j < hi`.
pub open spec fn seg_set(lo: int, hi: int) -> Set<(int, int)> {
    Set::new(|c: (int, int)| exists|j: nat| lo <= j < hi && c == pos_at(j))
}

/// The index at which a search that resumes at index `i` walks out of the
/// target square: immediately if `i` is already past the interior cells.
pub open spec fn exit_index(i: int, size: int) -> int {
    if i >= cell_count(size) {
        i
    } else {
        cell_count(size)
    }
}

/// Termination measure of the search: interior cells not yet reached.
pub open spec fn fuel_left(i: int, size: int) -> int {
    if i <= cell_count(size) {
        cell_count(size) - i
    } else {
        0
    }
}

/// The tile assigned to `(x, y)`, if that cell is assigned.
pub open spec fn nbr(m: Map<(int, int), Tile>, x: int, y: int) -> Option<Tile> {
    if m.dom().contains((x, y)) {
        Some(m[(x, y)])
    } else {
        None
    }
}

/// The edge conditions a pair of assigned cells must meet: when `b` is the
/// right neighbor of `a` their shared vertical edge carries one color, and
/// when `b` is the upper neighbor of `a` their shared horizontal edge does.
pub open spec fn adjacent_ok(m: Map<(int, int), Tile>, a: (int, int), b: (int, int)) -> bool {
    &&& (b.0 == a.0 + 1 && b.1 == a.1 ==> m[a].right == m[b].left)
    &&& (b.1 == a.1 + 1 && b.0 == a.0 ==> m[a].top == m[b].bottom)
}

/// Edge consistency of a partial assignment: every two assigned cells that
/// touch agree on the color of their shared edge.
pub open spec fn consistent(m: Map<(int, int), Tile>) -> bool {
    forall|a: (int, int), b: (int, int)|
        m.dom().contains(a) && m.dom().contains(b) ==> adjacent_ok(m, a, b)
}

/// Assigning a fresh cell a tile compatible with its assigned neighbors
/// keeps the assignment edge consistent.
pub proof fn lemma_insert_consistent(m: Map<(int, int), Tile>, x: int, y: int, t: Tile)
    requires
        consistent(m),
        !m.dom().contains((x, y)),
        spec_compatible(t, nbr(m, x, y + 1), nbr(m, x, y - 1), nbr(m, x - 1, y), nbr(m, x + 1, y)),
    ensures
        consistent(m.insert((x, y), t)),
{
    let m2 = m.insert((x, y), t);
    assert forall|a: (int, int), b: (int, int)|
        m2.dom().contains(a) && m2.dom().contains(b) implies adjacent_ok(m2, a, b) by {
        if a == (x, y) && b == (x, y) {
        } else if a == (x, y) {
            if b.0 == a.0 + 1 && b.1 == a.1 {
                assert(nbr(m, x + 1, y) == Some(m[b]));
            }
            if b.1 == a.1 + 1 && b.0 == a.0 {
                assert(nbr(m, x, y + 1) == Some(m[b]));
            }
        } else if b == (x, y) {
            if b.0 == a.0 + 1 && b.1 == a.1 {
                assert(a == (x - 1, y));
                assert(nbr(m, x - 1, y) == Some(m[a]));
            }
            if b.1 == a.1 + 1 && b.0 == a.0 {
                assert(a == (x, y - 1));
                assert(nbr(m, x, y - 1) == Some(m[a]));
            }
        } else {
            assert(adjacent_ok(m, a, b));
        }
    }
}

/// The mathematical counterpart of the backtracking search, from a partial
/// assignment `m` and spiral index `i`. Outside the target square the
/// current assignment is the answer; inside, the compatible palette tiles
/// are tried in order. The fuel only bounds the recursion; callers pass
/// one more than the interior cells still ahead, which is never exhausted.
pub open spec fn spec_solve(
    m: Map<(int, int), Tile>,
    i: nat,
    pal: Seq<Tile>,
    size: int,
    fuel: nat,
) -> Option<Map<(int, int), Tile>>
    decreases fuel, 1int, 0int,
{
    let c = pos_at(i);
    if !inside(c.0, c.1, size) {
        Some(m)
    } else if fuel == 0 {
        None
    } else {
        let cands = filter_compat(
            pal,
            nbr(m, c.0, c.1 + 1),
            nbr(m, c.0, c.1 - 1),
            nbr(m, c.0 - 1, c.1),
            nbr(m, c.0 + 1, c.1),
        );
        spec_try(m, i, cands, 0, pal, size, fuel)
    }
}

/// Tries the candidate tiles `cands[ci..]` for the cell at spiral index
/// `i`: the first whose subtree completes wins; if none does, this branch
/// fails.
pub open spec fn spec_try(
    m: Map<(int, int), Tile>,
    i: nat,
    cands: Seq<Tile>,
    ci: int,
    pal: Seq<Tile>,
    size: int,
    fuel: nat,
) -> Option<Map<(int, int), Tile>>
    decreases fuel, 0int, cands.len() - ci,
{
    if fuel == 0 || ci < 0 || ci >= cands.len() {
        None
    } else {
        match spec_solve(m.insert(pos_at(i), cands[ci]), i + 1, pal, size, (fuel - 1) as nat) {
            Some(res) => Some(res),
            None => spec_try(m, i, cands, ci + 1, pal, size, fuel),
        }
    }
}

/// Absolute value of a non-extreme machine integer.
fn abs_i32(v: i32) -> (r: i32)
    requires
        i32::MIN < v as int,
    ensures
        r as int == abs_sp(v as int),
{
    if v < 0 {
        -v
    } else {
        v
    }
}

/// The backtracking solver: a palette of candidate tiles and the
/// half-extent of the square region to fill.
pub struct WangTiler {
    pub size: i32,
    pub tiles: Vec<Tile>,
}

impl WangTiler {
    /// The half-extent leaves room to step one cell past the region and to
    /// take its magnitude, on machine integers.
    pub open spec fn wf(self) -> bool {
        -0x7fff_fffe <= self.size as int <= 0x7fff_fffe
    }

    pub fn new(tiles: Vec<Tile>, size: i32) -> (r: WangTiler)
        requires
            -0x7fff_fffe <= size as int <= 0x7fff_fffe,
        ensures
            r.wf(),
            r.size == size,
            r.tiles == tiles,
    {
        WangTiler { size, tiles }
    }

    /// The palette tiles compatible with the cell's assigned neighbors, in
    /// palette order.
    #[verifier::loop_isolation(false)]
    pub fn next_tiles(&self, x: i32, y: i32, visited: &Grid) -> (r: Vec<Tile>)
        requires
            visited.wf(),
            i32::MIN < x as int - 1,
            x as int + 1 <= i32::MAX,
            i32::MIN < y as int - 1,
            y as int + 1 <= i32::MAX,
        ensures
            r@ == filter_compat(
                self.tiles@,
                nbr(visited@, x as int, y as int + 1),
                nbr(visited@, x as int, y as int - 1),
                nbr(visited@, x as int - 1, y as int),
                nbr(visited@, x as int + 1, y as int),
            ),
    {
        let up = visited.get(x, y + 1);
        let down = visited.get(x, y - 1);
        let left = visited.get(x - 1, y);
        let right = visited.get(x + 1, y);
        proof {
            assert(up == nbr(visited@, x as int, y as int + 1));
            assert(down == nbr(visited@, x as int, y as int - 1));
            assert(left == nbr(visited@, x as int - 1, y as int));
            assert(right == nbr(visited@, x as int + 1, y as int));
        }
        let mut out: Vec<Tile> = Vec::new();
        let mut i: usize = 0;
        while i < self.tiles.len()
            invariant
                0 <= i <= self.tiles@.len(),
                out@ == filter_compat(self.tiles@.take(i as int), up, down, left, right),
            decreases self.tiles@.len() - i,
        {
            let t = self.tiles[i];
            proof {
                assert(self.tiles@.take(i as int + 1).drop_last() =~= self.tiles@.take(i as int));
                assert(self.tiles@.take(i as int + 1).last() == t);
            }
            if t.compatible_with(up.as_ref(), down.as_ref(), left.as_ref(), right.as_ref()) {
                out.push(t);
            }
            i = i + 1;
        }
        proof {
            assert(self.tiles@.take(self.tiles@.len() as int) =~= self.tiles@);
        }
        out
    }

    /// Depth-first backtracking search. It pulls the next cell from the
    /// spiral cursor; outside the target square it reports success and
    /// leaves the assignment as the result. Inside, it tries each
    /// compatible palette tile in order, recursing with a cloned cursor,
    /// and undoes the tentative assignment when a branch fails.
    ///
    /// On success the assignment has gained exactly the interior spiral
    /// cells from the cursor's index onward, every earlier entry is kept
    /// unchanged, and the whole assignment is edge consistent. On failure
    /// the assignment is exactly as it was.
    #[verifier::loop_isolation(false)]
    pub fn generate(&self, mut pos: TilePos, visited: &mut Grid) -> (r: bool)
        requires
            self.wf(),
            pos.wf(),
            radius(pos_at(pos@).0, pos_at(pos@).1) <= abs_sp(self.size as int),
            old(visited).wf(),
            consistent(old(visited)@),
            forall|j: nat| pos@ <= j ==> !old(visited)@.dom().contains(pos_at(j)),
        ensures
            final(visited).wf(),
            !r ==> final(visited).entries@ == old(visited).entries@,
            !r ==> final(visited)@ == old(visited)@,
            r ==> consistent(final(visited)@),
            r ==> final(visited)@.dom() =~= old(visited)@.dom() + seg_set(
                pos@ as int,
                exit_index(pos@ as int, self.size as int),
            ),
            r ==> forall|k: (int, int)|
                old(visited)@.dom().contains(k) ==> final(visited)@.dom().contains(k)
                    && final(visited)@[k] == old(visited)@[k],
            (match spec_solve(
                old(visited)@,
                pos@,
                self.tiles@,
                self.size as int,
                (fuel_left(pos@ as int, self.size as int) + 1) as nat,
            ) {
                Some(res) => r && final(visited)@ == res,
                None => !r,
            }),
        decreases fuel_left(pos@ as int, self.size as int),
    {
        let ghost i0 = pos@;
        let ghost sz = self.size as int;
        proof {
            lemma_radius_step(i0);
            lemma_state_fits((i0 + 1) as nat);
        }
        let (x, y) = pos.next();
        let size_abs = abs_i32(self.size);
        let xa = abs_i32(x);
        let ya = abs_i32(y);
        if xa >= size_abs || ya >= size_abs {
            proof {
                if self.size != 0 {
                    lemma_window(i0, abs_sp(sz));
                }
                assert(exit_index(i0 as int, sz) == i0 as int);
                assert(seg_set(i0 as int, i0 as int) =~= Set::<(int, int)>::empty());
                assert(visited@.dom() + seg_set(i0 as int, i0 as int) =~= visited@.dom());
                assert((x as int, y as int) == pos_at(i0));
                assert(!inside(pos_at(i0).0, pos_at(i0).1, sz));
            }
            return true;
        }
        let ghost m0 = visited@;
        let ghost e0 = visited.entries@;
        let ghost pal = self.tiles@;
        let ghost ff = (fuel_left(i0 as int, sz) + 1) as nat;
        proof {
            assert((x as int, y as int) == pos_at(i0));
            assert(inside(pos_at(i0).0, pos_at(i0).1, sz));
            lemma_window(i0, abs_sp(sz));
            assert((i0 as int) < cell_count(sz));
            assert(ff >= 2);
        }
        let cands = self.next_tiles(x, y, visited);
        proof {
            assert(cands@ == filter_compat(
                pal,
                nbr(m0, pos_at(i0).0, pos_at(i0).1 + 1),
                nbr(m0, pos_at(i0).0, pos_at(i0).1 - 1),
                nbr(m0, pos_at(i0).0 - 1, pos_at(i0).1),
                nbr(m0, pos_at(i0).0 + 1, pos_at(i0).1),
            ));
            assert(spec_solve(m0, i0, pal, sz, ff) == spec_try(m0, i0, cands@, 0, pal, sz, ff));
        }
        let mut ci: usize = 0;
        while ci < cands.len()
            invariant
                visited.wf(),
                visited@ == m0,
                visited.entries@ == e0,
                0 <= ci <= cands@.len(),
                spec_try(m0, i0, cands@, 0, pal, sz, ff) == spec_try(
                    m0,
                    i0,
                    cands@,
                    ci as int,
                    pal,
                    sz,
                    ff,
                ),
            decreases cands@.len() - ci,
        {
            let t = cands[ci];
            proof {
                lemma_filter_compat_members(
                    self.tiles@,
                    nbr(m0, x as int, y as int + 1),
                    nbr(m0, x as int, y as int - 1),
                    nbr(m0, x as int - 1, y as int),
                    nbr(m0, x as int + 1, y as int),
                );
                assert(spec_compatible(
                    t,
                    nbr(m0, x as int, y as int + 1),
                    nbr(m0, x as int, y as int - 1),
                    nbr(m0, x as int - 1, y as int),
                    nbr(m0, x as int + 1, y as int),
                ));
                assert((x as int, y as int) == pos_at(i0));
                assert(!m0.dom().contains((x as int, y as int)));
                lemma_insert_consistent(m0, x as int, y as int, t);
            }
            visited.insert(x, y, t);
            proof {
                assert forall|j: nat| pos@ <= j implies !visited@.dom().contains(pos_at(j)) by {
                    lemma_injective(i0, j);
                }
                lemma_radius_step(i0);
                lemma_window(i0, abs_sp(sz));
            }
            if self.generate(pos.clone(), visited) {
                proof {
                    let m2 = m0.insert((x as int, y as int), t);
                    assert(m2 == m0.insert(pos_at(i0), t));
                    assert((fuel_left(i0 as int + 1, sz) + 1) as nat == (ff - 1) as nat);
                    assert(spec_try(m0, i0, cands@, ci as int, pal, sz, ff) == spec_solve(
                        m2,
                        i0 + 1,
                        pal,
                        sz,
                        (ff - 1) as nat,
                    ));
                    let cc = cell_count(sz);
                    assert(exit_index(i0 as int, sz) == cc);
                    assert(exit_index(i0 as int + 1, sz) == cc);
                    assert(seg_set(i0 as int, cc) =~= seg_set(i0 as int + 1, cc).insert(
                        pos_at(i0),
                    )) by {
                        assert forall|c: (int, int)| seg_set(i0 as int, cc).contains(c) implies
                            seg_set(i0 as int + 1, cc).insert(pos_at(i0)).contains(c) by {
                            let j = choose|j: nat| i0 as int <= j < cc && c == pos_at(j);
                            if j == i0 {
                                assert(c == pos_at(i0));
                            } else {
                                assert(i0 as int + 1 <= j < cc && c == pos_at(j));
                            }
                        }
                        assert forall|c: (int, int)|
                            seg_set(i0 as int + 1, cc).insert(pos_at(i0)).contains(c) implies
                            seg_set(i0 as int, cc).contains(c) by {
                            if c == pos_at(i0) {
                                assert((i0 as int) < cc && c == pos_at(i0));
                            } else {
                                let j = choose|j: nat|
                                    i0 as int + 1 <= j < cc && c == pos_at(j);
                                assert(i0 as int <= j < cc && c == pos_at(j));
                            }
                        }
                    }
                    assert(visited@.dom() =~= m0.dom() + seg_set(i0 as int, cc));
                }
                return true;
            }
            visited.remove(x, y);
            proof {
                assert(visited.entries@ =~= e0);
                assert(m0.insert((x as int, y as int), t).remove((x as int, y as int)) =~= m0);
                assert((fuel_left(i0 as int + 1, sz) + 1) as nat == (ff - 1) as nat);
                assert(spec_solve(
                    m0.insert(pos_at(i0), t),
                    i0 + 1,
                    pal,
                    sz,
                    (ff - 1) as nat,
                ) is None);
                assert(spec_try(m0, i0, cands@, ci as int, pal, sz, ff) == spec_try(
                    m0,
                    i0,
                    cands@,
                    ci as int + 1,
                    pal,
                    sz,
                    ff,
                ));
            }
            ci = ci + 1;
        }
        proof {
            assert(spec_try(m0, i0, cands@, ci as int, pal, sz, ff) is None);
            assert(spec_solve(m0, i0, pal, sz, ff) is None);
        }
        false
    }
}

/// The fixed eleven-tile palette the shipped generator searches over; its
/// order is the search's tie-break order.
pub open spec fn spec_palette() -> Seq<Tile> {
    seq![
        Tile { top: Color::R, bottom: Color::R, left: Color::G, right: Color::R },
        Tile { top: Color::B, bottom: Color::B, left: Color::G, right: Color::R },
        Tile { top: Color::R, bottom: Color::G, left: Color::G, right: Color::G },
        Tile { top: Color::W, bottom: Color::R, left: Color::B, right: Color::B },
        Tile { top: Color::B, bottom: Color::W, left: Color::B, right: Color::B },
        Tile { top: Color::W, bottom: Color::R, left: Color::W, right: Color::W },
        Tile { top: Color::R, bottom: Color::B, left: Color::W, right: Color::G },
        Tile { top: Color::B, bottom: Color::B, left: Color::R, right: Color::W },
        Tile { top: Color::B, bottom: Color::W, left: Color::R, right: Color::R },
        Tile { top: Color::G, bottom: Color::B, left: Color::R, right: Color::G },
        Tile { top: Color::R, bottom: Color::R, left: Color::G, right: Color::W },
    ]
}

/// Builds the fixed palette as a vector, in palette order.
pub fn palette() -> (r: Vec<Tile>)
    ensures
        r@ == spec_palette(),
{
    let mut v: Vec<Tile> = Vec::new();
    v.push(Tile { top: Color::R, bottom: Color::R, left: Color::G, right: Color::R });
    v.push(Tile { top: Color::B, bottom: Color::B, left: Color::G, right: Color::R });
    v.push(Tile { top: Color::R, bottom: Color::G, left: Color::G, right: Color::G });
    v.push(Tile { top: Color::W, bottom: Color::R, left: Color::B, right: Color::B });
    v.push(Tile { top: Color::B, bottom: Color::W, left: Color::B, right: Color::B });
    v.push(Tile { top: Color::W, bottom: Color::R, left: Color::W, right: Color::W });
    v.push(Tile { top: Color::R, bottom: Color::B, left: Color::W, right: Color::G });
    v.push(Tile { top: Color::B, bottom: Color::B, left: Color::R, right: Color::W });
    v.push(Tile { top: Color::B, bottom: Color::W, left: Color::R, right: Color::R });
    v.push(Tile { top: Color::G, bottom: Color::B, left: Color::R, right: Color::G });
    v.push(Tile { top: Color::R, bottom: Color::R, left: Color::G, right: Color::W });
    proof {
        assert(v@ =~= spec_palette());
    }
    v
}

/// The one tiling the library produces for a given half-extent: what the
/// backtracking search over the fixed palette returns from an empty
/// assignment, or the empty map when the search fails.
pub open spec fn spec_tiling(size: int) -> Map<(int, int), Tile> {
    match spec_solve(
        Map::<(int, int), Tile>::empty(),
        0,
        spec_palette(),
        size,
        (cell_count(size) + 1) as nat,
    ) {
        Some(m) => m,
        None => Map::<(int, int), Tile>::empty(),
    }
}

/// Runs the backtracking search over the fixed palette. The result is
/// exactly `spec_tiling(size)`: it either assigns all the cells strictly
/// inside the square of half-extent `|size|`, every adjacent pair of them
/// matching on their shared edge, or is empty when no tiling exists (the
/// search undoes every tentative assignment on the way out).
pub fn generate_tiling(size: i32) -> (r: Grid)
    requires
        -0x7fff_fffe <= size as int <= 0x7fff_fffe,
    ensures
        r.wf(),
        consistent(r@),
        r@.dom() =~= inside_set(size as int) || r@ =~= Map::<(int, int), Tile>::empty(),
        r@ == spec_tiling(size as int),
{
    let tiles = palette();
    let mut tile_map = Grid::new();
    let tiler = WangTiler::new(tiles, size);
    let cursor = TilePos::new();
    proof {
        assert(state_at(0) == init_state());
        assert(radius(pos_at(0).0, pos_at(0).1) == 0);
    }
    let ok = tiler.generate(cursor, &mut tile_map);
    proof {
        let sz = size as int;
        assert((fuel_left(0, sz) + 1) as nat == (cell_count(sz) + 1) as nat);
        if ok {
            assert(tile_map@ == spec_tiling(sz));
            let cc = cell_count(sz);
            assert(exit_index(0, sz) == cc);
            assert(tile_map@.dom() =~= seg_set(0, cc));
            assert(seg_set(0, cc) =~= inside_set(sz)) by {
                assert forall|c: (int, int)| seg_set(0, cc).contains(c) implies inside_set(
                    sz,
                ).contains(c) by {
                    let j = choose|j: nat| 0 <= j < cc && c == pos_at(j);
                    lemma_window(j, abs_sp(sz));
                }
                assert forall|c: (int, int)| inside_set(sz).contains(c) implies seg_set(
                    0,
                    cc,
                ).contains(c) by {
                    lemma_coverage(c.0, c.1, abs_sp(sz));
                    let i = choose|i: nat| (i as int) < sq(2 * abs_sp(sz) - 1) && pos_at(i) == c;
                    assert(0 <= i < cc && c == pos_at(i));
                }
            }
        }
    }
    tile_map
}

/// One solved cell as a plain record: its coordinate and the four edge
/// colors of the tile assigned there.
#[derive(Clone, Copy, Debug, PartialEq, Eq, Structural)]
pub struct SerTile {
    pub x: i32,
    pub y: i32,
    pub top: Color,
    pub bottom: Color,
    pub left: Color,
    pub right: Color,
}

/// A record restates a grid entry field for field.
pub open spec fn record_matches(r: SerTile, e: ((i32, i32), Tile)) -> bool {
    &&& r.x == e.0.0
    &&& r.y == e.0.1
    &&& r.top == e.1.top
    &&& r.bottom == e.1.bottom
    &&& r.left == e.1.left
    &&& r.right == e.1.right
}

/// Flattens a solved grid into one record per assigned cell, in
/// assignment order.
#[verifier::loop_isolation(false)]
pub fn tile_records(g: &Grid) -> (r: Vec<SerTile>)
    ensures
        r@.len() == g.entries@.len(),
        forall|i: int| 0 <= i < r@.len() ==> record_matches(r@[i], g.entries@[i]),
{
    let mut out: Vec<SerTile> = Vec::new();
    let mut i: usize = 0;
    while i < g.entries.len()
        invariant
            0 <= i <= g.entries@.len(),
            out@.len() == i,
            forall|j: int| 0 <= j < i ==> record_matches(out@[j], g.entries@[j]),
        decreases g.entries@.len() - i,
    {
        let ((x, y), t) = g.entries[i];
        out.push(SerTile { x, y, top: t.top, bottom: t.bottom, left: t.left, right: t.right });
        i = i + 1;
    }
    out
}

} // verus!
