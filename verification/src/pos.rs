use vstd::prelude::*;

verus! {

/// An integer 2D coordinate. Used both for addressing tiles on the world grid
/// and for level dimensions.
#[derive(Clone, Copy, Debug, PartialEq, Eq, Hash, Structural)]
pub struct Pos {
    pub x: i32,
    pub y: i32,
}

impl Pos {
    pub fn new(x: i32, y: i32) -> (p: Pos)
        ensures
            p == (Pos { x, y }),
    {
        Pos { x, y }
    }
}

impl Default for Pos {
    /// The origin, `(0, 0)`.
    fn default() -> (p: Pos)
        ensures
            p == (Pos { x: 0, y: 0 }),
    {
        Pos { x: 0, y: 0 }
    }
}

/// Whether `v` fits in an `i32`.
pub open spec fn in_i32(v: int) -> bool {
    -2147483648 <= v <= 2147483647
}

/// Strict lexicographic order on `(x, y)`. This is the total order in which
/// tile entries are kept and serialized, so that equal levels always produce
/// identical files.
pub open spec fn pos_lt(a: Pos, b: Pos) -> bool {
    a.x < b.x || (a.x == b.x && a.y < b.y)
}

/// Decides `pos_lt`.
pub fn pos_before(a: Pos, b: Pos) -> (r: bool)
    ensures
        r == pos_lt(a, b),
{
    a.x < b.x || (a.x == b.x && a.y < b.y)
}

/// `pos_lt` is a strict total order: any two coordinates are related in
/// exactly one of the three possible ways.
pub proof fn lemma_pos_lt_trichotomy(a: Pos, b: Pos)
    ensures
        pos_lt(a, b) || pos_lt(b, a) || a == b,
        pos_lt(a, b) ==> !pos_lt(b, a) && a != b,
        a == b ==> !pos_lt(a, b),
{
}

/// `pos_lt` is transitive.
pub proof fn lemma_pos_lt_trans(a: Pos, b: Pos, c: Pos)
    requires
        pos_lt(a, b),
        pos_lt(b, c),
    ensures
        pos_lt(a, c),
{
}

} // verus!
