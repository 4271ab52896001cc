use vstd::prelude::*;

verus! {

/// Direction of travel of the spiral cursor.
#[derive(Clone, Copy, PartialEq, Eq, Structural)]
pub enum Direction {
    Up,
    Down,
    Left,
    Right,
}

/// The mathematical state of the spiral cursor: the direction of travel,
/// the length of the current run, how many steps of that run are done, and
/// the current coordinate.
pub ghost struct SpiralState {
    pub dir: Direction,
    pub total: nat,
    pub step: nat,
    pub x: int,
    pub y: int,
}

/// Horizontal displacement of one step in direction `d`.
pub open spec fn dir_dx(d: Direction) -> int {
    match d {
        Direction::Up => 0,
        Direction::Down => 0,
        Direction::Left => -1,
        Direction::Right => 1,
    }
}

/// Vertical displacement of one step in direction `d`.
pub open spec fn dir_dy(d: Direction) -> int {
    match d {
        Direction::Up => 1,
        Direction::Down => -1,
        Direction::Left => 0,
        Direction::Right => 0,
    }
}

/// Direction after a completed run: up -> right -> down -> left -> up.
pub open spec fn turn(d: Direction) -> Direction {
    match d {
        Direction::Up => Direction::Right,
        Direction::Right => Direction::Down,
        Direction::Down => Direction::Left,
        Direction::Left => Direction::Up,
    }
}

/// Run length for the segment that follows a completed run: the length
/// grows by one on every other turn, giving runs of 1,1,2,2,3,3,...
pub open spec fn grown_total(d: Direction, total: nat) -> nat {
    match d {
        Direction::Up => total,
        Direction::Right => total + 1,
        Direction::Down => total,
        Direction::Left => total + 1,
    }
}

/// The cursor's starting state: at the origin, about to walk a run of one
/// step upward.
pub open spec fn init_state() -> SpiralState {
    SpiralState { dir: Direction::Up, total: 1, step: 0, x: 0, y: 0 }
}

/// One advance of the cursor: move one unit in the current direction and,
/// when that completes the current run, turn and take the next run length.
pub open spec fn step_state(s: SpiralState) -> SpiralState {
    let x2 = s.x + dir_dx(s.dir);
    let y2 = s.y + dir_dy(s.dir);
    if s.step + 1 == s.total {
        SpiralState { dir: turn(s.dir), total: grown_total(s.dir, s.total), step: 0, x: x2, y: y2 }
    } else {
        SpiralState { dir: s.dir, total: s.total, step: s.step + 1, x: x2, y: y2 }
    }
}

/// The cursor state after `i` advances from the initial state.
pub open spec fn state_at(i: nat) -> SpiralState
    decreases i,
{
    if i == 0 {
        init_state()
    } else {
        step_state(state_at((i - 1) as nat))
    }
}

/// The `i`-th coordinate the spiral emits: the position the cursor holds
/// just before its `i+1`-th advance.
pub open spec fn pos_at(i: nat) -> (int, int) {
    (state_at(i).x, state_at(i).y)
}

/// Every reachable cursor state has a positive run length with strictly
/// fewer steps taken than the run asks for.
pub open spec fn state_inv(s: SpiralState) -> bool {
    1 <= s.total && s.step < s.total
}

pub proof fn lemma_state_inv(i: nat)
    ensures
        state_inv(state_at(i)),
    decreases i,
{
    if i > 0 {
        lemma_state_inv((i - 1) as nat);
    }
}

/// The concrete fields of an executable cursor can mirror this state: the
/// coordinate fits an `i32` and the run bookkeeping fits a `usize`.
pub open spec fn state_fits(s: SpiralState) -> bool {
    &&& -0x8000_0000 <= s.x <= 0x7fff_ffff
    &&& -0x8000_0000 <= s.y <= 0x7fff_ffff
    &&& s.total <= usize::MAX
}

/// The executable spiral cursor. The ghost index counts how many advances
/// it is past the initial state; the concrete fields always mirror
/// `state_at` of that index.
#[derive(Clone, Copy)]
pub struct TilePos {
    pub dir: Direction,
    pub total_step: usize,
    pub step: usize,
    pub pos: (i32, i32),
    pub index: Ghost<nat>,
}

impl View for TilePos {
    type V = nat;

    open spec fn view(&self) -> nat {
        self.index@
    }
}

impl TilePos {
    /// The concrete fields agree with the spiral state at the ghost index.
    pub open spec fn wf(self) -> bool {
        let s = state_at(self.index@);
        &&& self.dir == s.dir
        &&& self.total_step as nat == s.total
        &&& self.step as nat == s.step
        &&& self.pos.0 as int == s.x
        &&& self.pos.1 as int == s.y
    }

    /// A fresh cursor at the origin, about to emit `(0, 0)`.
    pub fn new() -> (r: TilePos)
        ensures
            r.wf(),
            r@ == 0,
    {
        TilePos { dir: Direction::Up, total_step: 1, step: 0, pos: (0, 0), index: Ghost(0) }
    }

    /// The unit displacement for the current direction.
    pub fn get_diff(&self) -> (r: (i32, i32))
        ensures
            r.0 as int == dir_dx(self.dir),
            r.1 as int == dir_dy(self.dir),
    {
        match self.dir {
            Direction::Up => (0, 1),
            Direction::Down => (0, -1),
            Direction::Left => (-1, 0),
            Direction::Right => (1, 0),
        }
    }

    /// Direction and run length for the segment after the current run.
    pub fn next_dir(&self) -> (r: (Direction, usize))
        requires
            grown_total(self.dir, self.total_step as nat) <= usize::MAX,
        ensures
            r.0 == turn(self.dir),
            r.1 as nat == grown_total(self.dir, self.total_step as nat),
    {
        match self.dir {
            Direction::Up => (Direction::Right, self.total_step),
            Direction::Right => (Direction::Down, self.total_step + 1),
            Direction::Down => (Direction::Left, self.total_step),
            Direction::Left => (Direction::Up, self.total_step + 1),
        }
    }

    /// Returns the coordinate the cursor currently holds, then advances the
    /// cursor one step along the spiral.
    pub fn next(&mut self) -> (r: (i32, i32))
        requires
            old(self).wf(),
            state_fits(state_at(old(self)@ + 1)),
        ensures
            final(self).wf(),
            final(self)@ == old(self)@ + 1,
            r.0 as int == pos_at(old(self)@).0,
            r.1 as int == pos_at(old(self)@).1,
    {
        proof {
            lemma_state_inv(self.index@);
        }
        let (x, y) = self.pos;
        let (dx, dy) = self.get_diff();
        self.pos = (x + dx, y + dy);
        self.step = self.step + 1;
        if self.step == self.total_step {
            self.step = 0;
            let (d, t) = self.next_dir();
            self.dir = d;
            self.total_step = t;
        }
        self.index = Ghost(self.index@ + 1);
        (x, y)
    }
}

} // verus!
