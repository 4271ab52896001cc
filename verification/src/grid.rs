use crate::tiles::Tile;
use vstd::prelude::*;

verus! {

/// A partial assignment of tiles to integer grid coordinates. It is stored
/// as an association list whose keys are pairwise distinct; the solver only
/// ever removes the most recently added entry, so removal is a pop.
pub struct Grid {
    pub entries: Vec<((i32, i32), Tile)>,
}

/// The key of an entry, as a pair of mathematical integers.
pub open spec fn key_at(s: Seq<((i32, i32), Tile)>, i: int) -> (int, int) {
    (s[i].0.0 as int, s[i].0.1 as int)
}

/// The mathematical map a sequence of key/tile pairs describes; a later
/// entry would win, though a well-formed grid never repeats a key.
pub open spec fn as_map(s: Seq<((i32, i32), Tile)>) -> Map<(int, int), Tile>
    decreases s.len(),
{
    if s.len() == 0 {
        Map::empty()
    } else {
        as_map(s.drop_last()).insert(key_at(s, s.len() - 1), s.last().1)
    }
}

impl View for Grid {
    type V = Map<(int, int), Tile>;

    open spec fn view(&self) -> Map<(int, int), Tile> {
        as_map(self.entries@)
    }
}

/// A key is in the map exactly when some entry carries it.
pub proof fn lemma_as_map_dom(s: Seq<((i32, i32), Tile)>)
    ensures
        forall|k: (int, int)|
            as_map(s).dom().contains(k) <==> exists|i: int| 0 <= i < s.len() && key_at(s, i) == k,
    decreases s.len(),
{
    if s.len() > 0 {
        let s0 = s.drop_last();
        lemma_as_map_dom(s0);
        assert(as_map(s) == as_map(s0).insert(key_at(s, s.len() - 1), s.last().1));
        assert forall|k: (int, int)| as_map(s).dom().contains(k) implies exists|i: int|
            0 <= i < s.len() && key_at(s, i) == k by {
            if k == key_at(s, s.len() - 1) {
                assert(0 <= s.len() - 1 < s.len() && key_at(s, s.len() - 1) == k);
            } else {
                assert(as_map(s0).dom().contains(k));
                let i = choose|i: int| 0 <= i < s0.len() && key_at(s0, i) == k;
                assert(s0[i] == s[i]);
                assert(0 <= i < s.len() && key_at(s, i) == k);
            }
        }
        assert forall|k: (int, int)|
            (exists|i: int| 0 <= i < s.len() && key_at(s, i) == k) implies as_map(
            s,
        ).dom().contains(k) by {
            let i = choose|i: int| 0 <= i < s.len() && key_at(s, i) == k;
            if i < s.len() - 1 {
                assert(s0[i] == s[i]);
                assert(0 <= i < s0.len() && key_at(s0, i) == k);
                assert(as_map(s0).dom().contains(k));
            }
        }
    }
}

/// With pairwise distinct keys, each entry's tile is the map's value at its
/// key.
pub proof fn lemma_as_map_values(s: Seq<((i32, i32), Tile)>)
    requires
        forall|i: int, j: int| 0 <= i < j < s.len() ==> key_at(s, i) != key_at(s, j),
    ensures
        forall|i: int|
            0 <= i < s.len() ==> as_map(s).dom().contains(key_at(s, i)) && as_map(s)[key_at(s, i)]
                == s[i].1,
    decreases s.len(),
{
    if s.len() > 0 {
        let s0 = s.drop_last();
        assert forall|i: int, j: int| 0 <= i < j < s0.len() implies key_at(s0, i) != key_at(
            s0,
            j,
        ) by {
            assert(s0[i] == s[i] && s0[j] == s[j]);
            assert(key_at(s, i) != key_at(s, j));
        }
        lemma_as_map_values(s0);
        assert(as_map(s) == as_map(s0).insert(key_at(s, s.len() - 1), s.last().1));
        assert forall|i: int|
            0 <= i < s.len() implies as_map(s).dom().contains(key_at(s, i)) && as_map(s)[key_at(
            s,
            i,
        )] == s[i].1 by {
            if i < s.len() - 1 {
                assert(s0[i] == s[i]);
                assert(as_map(s0).dom().contains(key_at(s0, i)) && as_map(s0)[key_at(s0, i)]
                    == s0[i].1);
                assert(key_at(s, i) != key_at(s, s.len() - 1));
            }
        }
    }
}

impl Grid {
    /// The stored keys are pairwise distinct.
    pub open spec fn wf(self) -> bool {
        forall|i: int, j: int|
            0 <= i < j < self.entries@.len() ==> key_at(self.entries@, i) != key_at(
                self.entries@,
                j,
            )
    }

    /// An empty grid: no cell is assigned.
    pub fn new() -> (r: Grid)
        ensures
            r.wf(),
            r@ == Map::<(int, int), Tile>::empty(),
    {
        Grid { entries: Vec::new() }
    }

    /// Looks up the tile assigned to `(x, y)`, if any.
    #[verifier::loop_isolation(false)]
    pub fn get(&self, x: i32, y: i32) -> (r: Option<Tile>)
        requires
            self.wf(),
        ensures
            match r {
                Some(t) => self@.dom().contains((x as int, y as int)) && self@[(x as int, y as int)]
                    == t,
                None => !self@.dom().contains((x as int, y as int)),
            },
    {
        proof {
            lemma_as_map_dom(self.entries@);
            lemma_as_map_values(self.entries@);
        }
        let mut i: usize = 0;
        while i < self.entries.len()
            invariant
                0 <= i <= self.entries@.len(),
                forall|j: int| 0 <= j < i ==> key_at(self.entries@, j) != (x as int, y as int),
            decreases self.entries@.len() - i,
        {
            let ((ex, ey), t) = self.entries[i];
            if ex == x && ey == y {
                proof {
                    assert(key_at(self.entries@, i as int) == (x as int, y as int));
                }
                return Some(t);
            }
            i = i + 1;
        }
        proof {
            if self@.dom().contains((x as int, y as int)) {
                let j = choose|j: int|
                    0 <= j < self.entries@.len() && key_at(self.entries@, j) == (
                    x as int,
                    y as int,
                    );
                assert(false);
            }
        }
        None
    }

    /// Assigns tile `t` to the unassigned cell `(x, y)`.
    pub fn insert(&mut self, x: i32, y: i32, t: Tile)
        requires
            old(self).wf(),
            !old(self)@.dom().contains((x as int, y as int)),
        ensures
            final(self).wf(),
            final(self).entries@ == old(self).entries@.push(((x, y), t)),
            final(self)@ == old(self)@.insert((x as int, y as int), t),
    {
        proof {
            lemma_as_map_dom(self.entries@);
        }
        let ghost s0 = self.entries@;
        self.entries.push(((x, y), t));
        proof {
            let s = self.entries@;
            assert(s =~= s0.push(((x, y), t)));
            assert(s.drop_last() =~= s0);
            assert(key_at(s, s.len() - 1) == (x as int, y as int));
            assert(as_map(s) == as_map(s0).insert((x as int, y as int), t));
            assert forall|i: int, j: int| 0 <= i < j < s.len() implies key_at(s, i) != key_at(
                s,
                j,
            ) by {
                if j < s.len() - 1 {
                    assert(s0[i] == s[i] && s0[j] == s[j]);
                    assert(key_at(s0, i) != key_at(s0, j));
                } else {
                    assert(s0[i] == s[i]);
                    assert(key_at(s, j) == (x as int, y as int));
                    if key_at(s0, i) == (x as int, y as int) {
                        assert(exists|m: int|
                            0 <= m < s0.len() && key_at(s0, m) == (x as int, y as int));
                        assert(false);
                    }
                }
            }
        }
    }

    /// Removes the most recently assigned cell, which must be `(x, y)`.
    pub fn remove(&mut self, x: i32, y: i32)
        requires
            old(self).wf(),
            old(self).entries@.len() > 0,
            key_at(old(self).entries@, old(self).entries@.len() - 1) == (x as int, y as int),
        ensures
            final(self).wf(),
            final(self).entries@ == old(self).entries@.drop_last(),
            final(self)@ == old(self)@.remove((x as int, y as int)),
    {
        let ghost s0 = self.entries@;
        self.entries.pop();
        proof {
            let s = self.entries@;
            assert(s =~= s0.drop_last());
            lemma_as_map_dom(s);
            if as_map(s).dom().contains((x as int, y as int)) {
                let i = choose|i: int| 0 <= i < s.len() && key_at(s, i) == (x as int, y as int);
                assert(s0[i] == s[i]);
                assert(key_at(s0, i) == key_at(s0, s0.len() - 1));
                assert(false);
            }
            assert(as_map(s0) == as_map(s).insert((x as int, y as int), s0.last().1));
            assert(as_map(s0).remove((x as int, y as int)) =~= as_map(s));
            assert forall|i: int, j: int| 0 <= i < j < s.len() implies key_at(s, i) != key_at(
                s,
                j,
            ) by {
                assert(s0[i] == s[i] && s0[j] == s[j]);
                assert(key_at(s0, i) != key_at(s0, j));
            }
        }
    }
}

} // verus!
