use crate::spiral::{
    init_state, pos_at, state_at, state_fits, step_state, Direction, SpiralState,
};
use vstd::prelude::*;

verus! {

/// Absolute value of a mathematical integer.
pub open spec fn abs_sp(x: int) -> int {
    if x < 0 {
        -x
    } else {
        x
    }
}

/// The ring a cell lies on: its Chebyshev distance from the origin.
pub open spec fn radius(x: int, y: int) -> int {
    if abs_sp(x) >= abs_sp(y) {
        abs_sp(x)
    } else {
        abs_sp(y)
    }
}

/// The square of `n`.
pub open spec fn sq(n: int) -> int {
    n * n
}

pub proof fn lemma_sq_monotone(a: int, b: int)
    requires
        0 <= a,
        a <= b,
    ensures
        0 <= sq(a),
        sq(a) <= sq(b),
{
    assert(0 <= a * a && a * a <= b * b) by (nonlinear_arith)
        requires
            0 <= a,
            a <= b,
    ;
}

/// Walking one full ring takes eight times its radius in steps.
pub proof fn lemma_sq_ring(r: int)
    ensures
        sq(2 * r - 1) + 8 * r == sq(2 * r + 1),
{
    assert((2 * r - 1) * (2 * r - 1) + 8 * r == (2 * r + 1) * (2 * r + 1)) by (nonlinear_arith);
}

/// The cursor state just before it emits the `k`-th cell of ring `r`
/// (for `r >= 1` and `0 <= k < 8r`). A ring is walked as a run to the
/// right along its top side, then down its right side, then left along
/// its bottom side, then up its left side, ending one cell above the
/// ring's top-left corner.
pub open spec fn ring_state(r: int, k: int) -> SpiralState {
    let t1 = 2 * r - 1;
    if k < t1 {
        SpiralState {
            dir: Direction::Right,
            total: t1 as nat,
            step: k as nat,
            x: -(r - 1) + k,
            y: r,
        }
    } else if k < t1 + 2 * r {
        SpiralState {
            dir: Direction::Down,
            total: (2 * r) as nat,
            step: (k - t1) as nat,
            x: r,
            y: r - (k - t1),
        }
    } else if k < t1 + 4 * r {
        SpiralState {
            dir: Direction::Left,
            total: (2 * r) as nat,
            step: (k - t1 - 2 * r) as nat,
            x: r - (k - t1 - 2 * r),
            y: -r,
        }
    } else {
        SpiralState {
            dir: Direction::Up,
            total: (2 * r + 1) as nat,
            step: (k - t1 - 4 * r) as nat,
            x: -r,
            y: -r + (k - t1 - 4 * r),
        }
    }
}

/// One advance moves the cursor from one cell of a ring to the next, or
/// from a ring's last cell to the first cell of the next ring.
pub proof fn lemma_ring_step(r: int, k: int)
    requires
        1 <= r,
        0 <= k < 8 * r,
    ensures
        step_state(ring_state(r, k)) == if k + 1 < 8 * r {
            ring_state(r, k + 1)
        } else {
            ring_state(r + 1, 0)
        },
{
}

/// The spiral state at index `sq(2r - 1) + k` is the `k`-th cell of ring
/// `r`: rings are emitted in order, each one immediately after the square
/// of cells it encloses.
pub proof fn lemma_state_char(r: int, k: int)
    requires
        1 <= r,
        0 <= k < 8 * r,
    ensures
        1 <= sq(2 * r - 1) + k,
        state_at((sq(2 * r - 1) + k) as nat) == ring_state(r, k),
    decreases r, k,
{
    lemma_sq_monotone(1, 2 * r - 1);
    let n = sq(2 * r - 1) + k;
    if k > 0 {
        lemma_state_char(r, k - 1);
        lemma_ring_step(r, k - 1);
        assert(state_at(n as nat) == step_state(state_at((n - 1) as nat)));
    } else if r == 1 {
        assert(state_at(0) == init_state());
        assert(state_at(1) == step_state(state_at(0)));
        assert(sq(1) == 1);
        assert(step_state(init_state()) == ring_state(1, 0));
    } else {
        lemma_state_char(r - 1, 8 * (r - 1) - 1);
        lemma_ring_step(r - 1, 8 * (r - 1) - 1);
        lemma_sq_ring(r - 1);
        assert(sq(2 * (r - 1) - 1) + 8 * (r - 1) == sq(2 * r - 1));
        assert(n >= 1);
        assert(state_at(n as nat) == step_state(state_at((n - 1) as nat)));
    }
}

/// The ring on which the cell emitted at index `i` lies.
pub open spec fn ring_of(i: nat) -> int
    decreases i,
{
    if i == 0 {
        0
    } else {
        let r = ring_of((i - 1) as nat);
        let k = off_of((i - 1) as nat);
        if r == 0 {
            1
        } else if k + 1 < 8 * r {
            r
        } else {
            r + 1
        }
    }
}

/// The position within its ring of the cell emitted at index `i`.
pub open spec fn off_of(i: nat) -> int
    decreases i,
{
    if i == 0 {
        0
    } else {
        let r = ring_of((i - 1) as nat);
        let k = off_of((i - 1) as nat);
        if r == 0 {
            0
        } else if k + 1 < 8 * r {
            k + 1
        } else {
            0
        }
    }
}

/// Every positive index decomposes as a ring and an offset within it.
pub proof fn lemma_decomp(i: nat)
    requires
        i >= 1,
    ensures
        1 <= ring_of(i),
        0 <= off_of(i) < 8 * ring_of(i),
        i == sq(2 * ring_of(i) - 1) + off_of(i),
    decreases i,
{
    if i == 1 {
        assert(ring_of(0) == 0 && off_of(0) == 0);
        assert(ring_of(1) == 1 && off_of(1) == 0);
        assert(sq(1) == 1);
    } else {
        lemma_decomp((i - 1) as nat);
        let r = ring_of((i - 1) as nat);
        let k = off_of((i - 1) as nat);
        if k + 1 < 8 * r {
        } else {
            lemma_sq_ring(r);
            assert(2 * (r + 1) - 1 == 2 * r + 1);
        }
    }
}

/// The full characterization of the spiral at a positive index.
pub proof fn lemma_spiral_index(i: nat)
    requires
        i >= 1,
    ensures
        1 <= ring_of(i),
        0 <= off_of(i) < 8 * ring_of(i),
        i == sq(2 * ring_of(i) - 1) + off_of(i),
        state_at(i) == ring_state(ring_of(i), off_of(i)),
{
    lemma_decomp(i);
    lemma_state_char(ring_of(i), off_of(i));
    assert((sq(2 * ring_of(i) - 1) + off_of(i)) as nat == i);
}

/// The cell emitted at index `i` lies on ring `ring_of(i)`.
pub proof fn lemma_radius_at(i: nat)
    ensures
        radius(pos_at(i).0, pos_at(i).1) == ring_of(i),
{
    if i == 0 {
        assert(state_at(0) == init_state());
    } else {
        lemma_spiral_index(i);
    }
}

/// A cell lies strictly inside the square of half-extent `s` exactly when
/// its index comes before the `sq(2s - 1)` cells that fill that square.
pub proof fn lemma_window(i: nat, s: int)
    requires
        1 <= s,
    ensures
        radius(pos_at(i).0, pos_at(i).1) < s <==> (i as int) < sq(2 * s - 1),
{
    lemma_radius_at(i);
    if i == 0 {
        lemma_sq_monotone(1, 2 * s - 1);
    } else {
        lemma_spiral_index(i);
        let r = ring_of(i);
        if r < s {
            lemma_sq_ring(r);
            lemma_sq_monotone(2 * r + 1, 2 * s - 1);
        } else {
            lemma_sq_monotone(2 * s - 1, 2 * r - 1);
        }
    }
}

/// Every cell strictly inside the square of half-extent `s` is emitted at
/// some index before `sq(2s - 1)`.
pub proof fn lemma_coverage(x: int, y: int, s: int)
    requires
        1 <= s,
        radius(x, y) < s,
    ensures
        exists|i: nat| (i as int) < sq(2 * s - 1) && pos_at(i) == (x, y),
{
    let r = radius(x, y);
    lemma_sq_monotone(1, 2 * s - 1);
    if r == 0 {
        assert(state_at(0) == init_state());
        assert(pos_at(0nat) == (x, y));
        assert((0nat as int) < sq(2 * s - 1));
    } else {
        let t1 = 2 * r - 1;
        let k = if x == r && y > -r {
            t1 + (r - y)
        } else if y == -r && x > -r {
            t1 + 2 * r + (r - x)
        } else if x == -r {
            t1 + 4 * r + (y + r)
        } else {
            x + (r - 1)
        };
        assert(0 <= k < 8 * r);
        lemma_state_char(r, k);
        let i = sq(2 * r - 1) + k;
        assert(pos_at(i as nat) == (x, y));
        lemma_sq_ring(r);
        lemma_sq_monotone(2 * r + 1, 2 * s - 1);
        assert((i as nat as int) < sq(2 * s - 1));
    }
}

/// The spiral never emits the same cell twice.
pub proof fn lemma_injective(i: nat, j: nat)
    requires
        i < j,
    ensures
        pos_at(i) != pos_at(j),
{
    lemma_radius_at(i);
    lemma_radius_at(j);
    if pos_at(i) == pos_at(j) {
        assert(ring_of(i) == ring_of(j));
        lemma_spiral_index(j);
        if i == 0 {
            assert(false);
        } else {
            lemma_spiral_index(i);
            let r = ring_of(i);
            let ki = off_of(i);
            let kj = off_of(j);
            assert(ki != kj);
            assert(ring_state(r, ki).x == ring_state(r, kj).x && ring_state(r, ki).y == ring_state(
                r,
                kj,
            ).y);
            assert(false);
        }
    }
}

/// One advance changes the emitted cell's ring by at most one.
pub proof fn lemma_radius_step(i: nat)
    ensures
        radius(pos_at((i + 1) as nat).0, pos_at((i + 1) as nat).1) <= radius(
            pos_at(i).0,
            pos_at(i).1,
        ) + 1,
{
    assert(state_at((i + 1) as nat) == step_state(state_at(i)));
}

/// A cursor whose cell lies within `i32` range has concrete bookkeeping
/// that fits the machine types.
pub proof fn lemma_state_fits(i: nat)
    requires
        radius(pos_at(i).0, pos_at(i).1) <= 0x7fff_ffff,
    ensures
        state_fits(state_at(i)),
{
    if i == 0 {
        assert(state_at(0) == init_state());
    } else {
        lemma_spiral_index(i);
        assert(state_at(i).total <= 2 * ring_of(i) + 1);
        assert(usize::MAX >= 0xffff_ffff);
    }
}

} // verus!
