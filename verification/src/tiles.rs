use vstd::prelude::*;
use vstd::string::StringExecFns;

verus! {

/// One of the four edge colors a tile can carry.
#[derive(Clone, Copy, Debug, PartialEq, Eq, Structural)]
pub enum Color {
    R,
    G,
    B,
    W,
}

/// A Wang tile: a square with one color per edge. Tiles are small immutable
/// values and are copied freely.
#[derive(Clone, Copy, Debug, PartialEq, Eq, Structural)]
pub struct Tile {
    pub top: Color,
    pub bottom: Color,
    pub left: Color,
    pub right: Color,
}

/// The lowercase English name of a color, as the rendering layer prints it.
pub open spec fn color_name(c: Color) -> Seq<char> {
    match c {
        Color::R => "red"@,
        Color::G => "green"@,
        Color::B => "blue"@,
        Color::W => "white"@,
    }
}

impl Color {
    /// The color's lowercase English name.
    pub fn name(&self) -> (r: String)
        ensures
            r@ == color_name(*self),
    {
        match self {
            Color::R => "red".to_owned(),
            Color::G => "green".to_owned(),
            Color::B => "blue".to_owned(),
            Color::W => "white".to_owned(),
        }
    }
}

/// Turns an optional borrowed tile into an optional tile value.
pub open spec fn copied(o: Option<&Tile>) -> Option<Tile> {
    match o {
        Some(t) => Some(*t),
        None => None,
    }
}

/// The edge-matching rule: a candidate tile fits between its (possibly
/// absent) four neighbors when each present neighbor's facing edge carries
/// the same color as the candidate's edge on that side. An absent neighbor
/// imposes no constraint.
pub open spec fn spec_compatible(
    t: Tile,
    up: Option<Tile>,
    down: Option<Tile>,
    left: Option<Tile>,
    right: Option<Tile>,
) -> bool {
    &&& match up {
        Some(u) => t.top == u.bottom,
        None => true,
    }
    &&& match down {
        Some(d) => t.bottom == d.top,
        None => true,
    }
    &&& match left {
        Some(l) => t.left == l.right,
        None => true,
    }
    &&& match right {
        Some(r) => t.right == r.left,
        None => true,
    }
}

/// The subsequence of `s` made of the tiles compatible with the given
/// neighbors, with their order kept.
pub open spec fn filter_compat(
    s: Seq<Tile>,
    up: Option<Tile>,
    down: Option<Tile>,
    left: Option<Tile>,
    right: Option<Tile>,
) -> Seq<Tile>
    decreases s.len(),
{
    if s.len() == 0 {
        Seq::empty()
    } else {
        let rest = filter_compat(s.drop_last(), up, down, left, right);
        if spec_compatible(s.last(), up, down, left, right) {
            rest.push(s.last())
        } else {
            rest
        }
    }
}

/// Every tile the filter keeps passes the edge-matching rule.
pub proof fn lemma_filter_compat_members(
    s: Seq<Tile>,
    up: Option<Tile>,
    down: Option<Tile>,
    left: Option<Tile>,
    right: Option<Tile>,
)
    ensures
        forall|i: int|
            0 <= i < filter_compat(s, up, down, left, right).len() ==> spec_compatible(
                filter_compat(s, up, down, left, right)[i],
                up,
                down,
                left,
                right,
            ),
    decreases s.len(),
{
    if s.len() > 0 {
        lemma_filter_compat_members(s.drop_last(), up, down, left, right);
        let rest = filter_compat(s.drop_last(), up, down, left, right);
        let whole = filter_compat(s, up, down, left, right);
        assert forall|i: int| 0 <= i < whole.len() implies spec_compatible(
            whole[i],
            up,
            down,
            left,
            right,
        ) by {
            if i < rest.len() {
                assert(whole[i] == rest[i]);
            } else {
                assert(whole[i] == s.last());
            }
        }
    }
}

/// With no assigned neighbor there is no constraint: the filter keeps the
/// whole palette.
pub proof fn lemma_filter_compat_open(s: Seq<Tile>)
    ensures
        filter_compat(s, None, None, None, None) == s,
    decreases s.len(),
{
    if s.len() > 0 {
        lemma_filter_compat_open(s.drop_last());
    }
    assert(filter_compat(s, None, None, None, None) =~= s);
}

impl Tile {
    /// Decides the edge-matching rule against the four optional neighbors.
    pub fn compatible_with(
        &self,
        up: Option<&Tile>,
        down: Option<&Tile>,
        left: Option<&Tile>,
        right: Option<&Tile>,
    ) -> (r: bool)
        ensures
            r == spec_compatible(*self, copied(up), copied(down), copied(left), copied(right)),
    {
        (match up {
            Some(u) => self.top == u.bottom,
            None => true,
        }) && (match down {
            Some(d) => self.bottom == d.top,
            None => true,
        }) && (match left {
            Some(l) => self.left == l.right,
            None => true,
        }) && (match right {
            Some(r) => self.right == r.left,
            None => true,
        })
    }

    /// Renders the tile as `[t:<top> b:<bottom> l:<left> r:<right>]` with
    /// each edge's color name.
    pub fn label(&self) -> (r: String)
        ensures
            r@ == "[t:"@ + color_name(self.top) + " b:"@ + color_name(self.bottom) + " l:"@
                + color_name(self.left) + " r:"@ + color_name(self.right) + "]"@,
    {
        let mut s: String = "[t:".to_owned();
        s.append(self.top.name().as_str());
        s.append(" b:");
        s.append(self.bottom.name().as_str());
        s.append(" l:");
        s.append(self.left.name().as_str());
        s.append(" r:");
        s.append(self.right.name().as_str());
        s.append("]");
        s
    }
}

} // verus!
