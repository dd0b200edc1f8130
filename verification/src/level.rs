use vstd::prelude::*;
use crate::assoc::{assoc_map, has_key, lemma_assoc_map_dom, lemma_assoc_map_index,
    lemma_assoc_map_insert, lemma_assoc_map_update, unique_keys};
use crate::pos::{lemma_pos_lt_trans, lemma_pos_lt_trichotomy, pos_before, pos_lt, Pos};

verus! {

/// The byte that ends each line of a level file. Tile keys may not contain
/// it, so that every key fits on one line.
pub const NEWLINE: u8 = 10;

/// Rejections raised while building or loading a level.
#[derive(Clone, Copy, Debug, PartialEq, Eq, Structural)]
pub enum LevelError {
    /// A tile key holds a line break, which the level format cannot carry.
    InvalidTileKey,
    /// A line names a field that the level format does not declare.
    UnknownField,
    /// The `pos` or `dimens` field appears more than once.
    DuplicateField,
    /// Two `tile` lines name the same coordinate.
    DuplicateTile,
    /// A line is structurally broken: a missing token, an unparsable number,
    /// a value out of range, or a missing line break.
    Malformed,
}

/// Entries strictly ascending in the coordinate order.
pub open spec fn sorted_entries(s: Seq<(Pos, Seq<u8>)>) -> bool {
    forall|i: int, j: int| 0 <= i < j < s.len() ==> pos_lt(s[i].0, s[j].0)
}

/// No entry's key holds a line break.
pub open spec fn line_safe_entries(s: Seq<(Pos, Seq<u8>)>) -> bool {
    forall|i: int| 0 <= i < s.len() ==> !s[i].1.contains(NEWLINE)
}

/// Strictly ascending entries have unique coordinates.
pub proof fn lemma_sorted_unique(s: Seq<(Pos, Seq<u8>)>)
    requires
        sorted_entries(s),
    ensures
        unique_keys(s),
{
    assert forall|i: int, j: int| 0 <= i < j < s.len() implies s[i].0 != s[j].0 by {
        assert(pos_lt(s[i].0, s[j].0));
        lemma_pos_lt_trichotomy(s[i].0, s[j].0);
    }
}

/// Two strictly ascending entry lists that describe the same map are the
/// same list: the sorted form is canonical.
pub proof fn lemma_sorted_entries_canonical(s1: Seq<(Pos, Seq<u8>)>, s2: Seq<(Pos, Seq<u8>)>)
    requires
        sorted_entries(s1),
        sorted_entries(s2),
        assoc_map(s1) == assoc_map(s2),
    ensures
        s1 == s2,
    decreases s1.len(),
{
    lemma_sorted_unique(s1);
    lemma_sorted_unique(s2);
    lemma_assoc_map_dom(s1);
    lemma_assoc_map_dom(s2);
    if s1.len() == 0 {
        if s2.len() > 0 {
            assert(s2[s2.len() - 1].0 == s2.last().0);
            assert(has_key(s2, s2.last().0));
            assert(assoc_map(s1).contains_key(s2.last().0));
            assert(false);
        }
        assert(s1 =~= s2);
    } else {
        if s2.len() == 0 {
            assert(s1[s1.len() - 1].0 == s1.last().0);
            assert(has_key(s1, s1.last().0));
            assert(assoc_map(s2).contains_key(s1.last().0));
            assert(false);
        }
        let k1 = s1.last().0;
        let k2 = s2.last().0;
        assert(s1[s1.len() - 1].0 == k1);
        assert(has_key(s1, k1));
        assert(assoc_map(s2).contains_key(k1));
        let i2 = choose|i: int| 0 <= i < s2.len() && s2[i].0 == k1;
        assert(s2[s2.len() - 1].0 == k2);
        assert(has_key(s2, k2));
        assert(assoc_map(s1).contains_key(k2));
        let i1 = choose|i: int| 0 <= i < s1.len() && s1[i].0 == k2;
        assert(i2 < s2.len() - 1 ==> pos_lt(k1, k2));
        assert(i1 < s1.len() - 1 ==> pos_lt(k2, k1));
        lemma_pos_lt_trichotomy(k1, k2);
        assert(k1 == k2);
        lemma_assoc_map_index(s1, s1.len() - 1);
        lemma_assoc_map_index(s2, s2.len() - 1);
        assert(s1.last().1 == s2.last().1);
        let d1 = s1.drop_last();
        let d2 = s2.drop_last();
        assert forall|i: int, j: int| 0 <= i < j < d1.len() implies pos_lt(d1[i].0, d1[j].0) by {
            assert(d1[i] == s1[i]);
            assert(d1[j] == s1[j]);
        }
        assert forall|i: int, j: int| 0 <= i < j < d2.len() implies pos_lt(d2[i].0, d2[j].0) by {
            assert(d2[i] == s2[i]);
            assert(d2[j] == s2[j]);
        }
        lemma_assoc_map_dom(d1);
        lemma_assoc_map_dom(d2);
        assert(!has_key(d1, k1)) by {
            if has_key(d1, k1) {
                let i = choose|i: int| 0 <= i < d1.len() && d1[i].0 == k1;
                assert(d1[i] == s1[i]);
                assert(pos_lt(s1[i].0, k1));
                lemma_pos_lt_trichotomy(s1[i].0, k1);
            }
        }
        assert(!has_key(d2, k2)) by {
            if has_key(d2, k2) {
                let i = choose|i: int| 0 <= i < d2.len() && d2[i].0 == k2;
                assert(d2[i] == s2[i]);
                assert(pos_lt(s2[i].0, k2));
                lemma_pos_lt_trichotomy(s2[i].0, k2);
            }
        }
        assert(assoc_map(d1) =~= assoc_map(s1).remove(k1));
        assert(assoc_map(d2) =~= assoc_map(s2).remove(k2));
        lemma_sorted_entries_canonical(d1, d2);
        assert(s1 =~= d1.push(s1.last()));
        assert(s2 =~= d2.push(s2.last()));
        assert(s1 =~= s2);
    }
}

/// Describes a complete level: where it sits in the world, how large it is,
/// and which tile stands on which coordinate. A level file can be loaded
/// into this struct and used to start a game.
#[derive(Debug)]
pub struct Level {
    pos: Pos,
    dimens: Pos,
    tiles: Vec<(Pos, Vec<u8>)>,
}

impl Level {
    /// Where the level sits in the world.
    pub closed spec fn spec_pos(self) -> Pos {
        self.pos
    }

    /// Width and height of the level. The world wraps at the borders.
    pub closed spec fn spec_dimens(self) -> Pos {
        self.dimens
    }

    /// Where the level sits in the world.
    pub fn pos(&self) -> (r: Pos)
        ensures
            r == self.spec_pos(),
    {
        self.pos
    }

    /// Width and height of the level. The world wraps at the borders.
    pub fn dimens(&self) -> (r: Pos)
        ensures
            r == self.spec_dimens(),
    {
        self.dimens
    }

    /// Moves the level to a new origin.
    pub fn set_pos(&mut self, pos: Pos)
        ensures
            final(self).spec_pos() == pos,
            final(self).spec_dimens() == old(self).spec_dimens(),
            final(self).tile_entries() == old(self).tile_entries(),
    {
        self.pos = pos;
    }

    /// Resizes the level.
    pub fn set_dimens(&mut self, dimens: Pos)
        ensures
            final(self).spec_pos() == old(self).spec_pos(),
            final(self).spec_dimens() == dimens,
            final(self).tile_entries() == old(self).tile_entries(),
    {
        self.dimens = dimens;
    }

    /// The tile entries, in ascending coordinate order, with keys as byte
    /// sequences.
    pub closed spec fn tile_entries(self) -> Seq<(Pos, Seq<u8>)> {
        self.tiles@.map_values(|e: (Pos, Vec<u8>)| (e.0, e.1@))
    }

    /// The mapping of grid coordinates to tile-definition keys that this
    /// level describes. Sparse: keys need not cover every coordinate.
    pub open spec fn tile_map(self) -> Map<Pos, Seq<u8>> {
        assoc_map(self.tile_entries())
    }

    /// The entries are kept strictly sorted — so a level always serializes
    /// to the same file regardless of insertion order — and every key fits
    /// on one line.
    pub open spec fn wf(self) -> bool {
        &&& sorted_entries(self.tile_entries())
        &&& line_safe_entries(self.tile_entries())
    }

    /// An empty level with the given origin and dimensions.
    pub fn new(pos: Pos, dimens: Pos) -> (r: Level)
        ensures
            r.wf(),
            r.spec_pos() == pos,
            r.spec_dimens() == dimens,
            r.tile_map() == Map::<Pos, Seq<u8>>::empty(),
            r.tile_entries().len() == 0,
    {
        let r = Level { pos, dimens, tiles: Vec::new() };
        proof {
            assert(r.tile_entries() =~= Seq::<(Pos, Seq<u8>)>::empty());
        }
        r
    }

    /// Places the tile-definition key `key` on coordinate `p`, replacing
    /// whatever the coordinate held. Fails, leaving the level unchanged,
    /// only if the key holds a line break.
    pub fn insert(&mut self, p: Pos, key: Vec<u8>) -> (r: Result<(), LevelError>)
        requires
            old(self).wf(),
        ensures
            final(self).wf(),
            final(self).spec_pos() == old(self).spec_pos(),
            final(self).spec_dimens() == old(self).spec_dimens(),
            match r {
                Ok(()) => !key@.contains(NEWLINE) && final(self).tile_map() == old(
                    self,
                ).tile_map().insert(p, key@),
                Err(e) => e == LevelError::InvalidTileKey && key@.contains(NEWLINE) && *final(self)
                    == *old(self),
            },
    {
        if contains_byte(&key, NEWLINE) {
            return Err(LevelError::InvalidTileKey);
        }
        let ghost oe = old(self).tile_entries();
        proof {
            lemma_sorted_unique(oe);
        }
        let mut i: usize = 0;
        while i < self.tiles.len()
            invariant
                old(self).wf(),
                *self == *old(self),
                i <= self.tiles.len(),
                forall|j: int| 0 <= j < i ==> pos_lt(#[trigger] self.tile_entries()[j].0, p),
            ensures
                old(self).wf(),
                *self == *old(self),
                i <= self.tiles.len(),
                forall|j: int| 0 <= j < i ==> pos_lt(#[trigger] self.tile_entries()[j].0, p),
                i < self.tiles.len() ==> !pos_lt(self.tile_entries()[i as int].0, p),
            decreases self.tiles.len() - i,
        {
            if !pos_before(self.tiles[i].0, p) {
                break;
            }
            i += 1;
        }
        if i < self.tiles.len() && self.tiles[i].0 == p {
            proof {
                assert(oe[i as int].0 == p);
            }
            self.tiles[i] = (p, key);
            proof {
                let ne = self.tile_entries();
                assert forall|j: int| 0 <= j < ne.len()
                    implies ne[j] == oe.update(i as int, (p, key@))[j] by {
                    if j != i {
                        assert(self.tiles@[j] == old(self).tiles@[j]);
                    }
                }
                assert(ne =~= oe.update(i as int, (p, key@)));
                lemma_assoc_map_update(oe, i as int, (p, key@));
                assert forall|a: int, b: int| 0 <= a < b < ne.len()
                    implies pos_lt(ne[a].0, ne[b].0) by {
                    assert(ne[a].0 == oe[a].0);
                    assert(ne[b].0 == oe[b].0);
                }
            }
            Ok(())
        } else {
            proof {
                // Everything at or after `i` is strictly above `p`.
                assert forall|j: int| i <= j < oe.len() implies pos_lt(p, oe[j].0) by {
                    if i < oe.len() {
                        assert(!pos_lt(oe[i as int].0, p));
                        assert(oe[i as int].0 != p);
                        lemma_pos_lt_trichotomy(oe[i as int].0, p);
                        if j > i {
                            lemma_pos_lt_trans(p, oe[i as int].0, oe[j].0);
                        }
                    }
                }
                assert(!has_key(oe, p)) by {
                    if has_key(oe, p) {
                        let j = choose|j: int| 0 <= j < oe.len() && oe[j].0 == p;
                        if j < i {
                            lemma_pos_lt_trichotomy(oe[j].0, p);
                        } else {
                            lemma_pos_lt_trichotomy(p, oe[j].0);
                        }
                    }
                }
            }
            self.tiles.insert(i, (p, key));
            proof {
                let ne = self.tile_entries();
                assert forall|j: int| 0 <= j < ne.len()
                    implies ne[j] == oe.insert(i as int, (p, key@))[j] by {
                    if j < i {
                        assert(self.tiles@[j] == old(self).tiles@[j]);
                    } else if j > i {
                        assert(self.tiles@[j] == old(self).tiles@[j - 1]);
                    }
                }
                assert(ne =~= oe.insert(i as int, (p, key@)));
                lemma_assoc_map_insert(oe, i as int, (p, key@));
                assert forall|a: int, b: int| 0 <= a < b < ne.len()
                    implies pos_lt(ne[a].0, ne[b].0) by {
                    if b < i {
                        assert(ne[a] == oe[a]);
                        assert(ne[b] == oe[b]);
                    } else if a < i && b == i {
                        assert(ne[a] == oe[a]);
                    } else if a < i && b > i {
                        assert(ne[a] == oe[a]);
                        assert(ne[b] == oe[b - 1]);
                        lemma_pos_lt_trans(ne[a].0, p, ne[b].0);
                    } else if a == i {
                        assert(ne[b] == oe[b - 1]);
                    } else {
                        assert(ne[a] == oe[a - 1]);
                        assert(ne[b] == oe[b - 1]);
                    }
                }
            }
            Ok(())
        }
    }

    /// Looks up the tile-definition key on a coordinate, if any.
    pub fn tile_at<'a>(&'a self, p: Pos) -> (r: Option<&'a Vec<u8>>)
        requires
            self.wf(),
        ensures
            match r {
                Some(key) => self.tile_map().contains_key(p) && key@ == self.tile_map()[p],
                None => !self.tile_map().contains_key(p),
            },
    {
        proof {
            lemma_sorted_unique(self.tile_entries());
        }
        let mut i: usize = 0;
        while i < self.tiles.len()
            invariant
                self.wf(),
                i <= self.tiles.len(),
                forall|j: int| 0 <= j < i ==> #[trigger] self.tile_entries()[j].0 != p,
            decreases self.tiles.len() - i,
        {
            if self.tiles[i].0 == p {
                proof {
                    lemma_sorted_unique(self.tile_entries());
                    lemma_assoc_map_index(self.tile_entries(), i as int);
                }
                return Some(&self.tiles[i].1);
            }
            i += 1;
        }
        proof {
            assert(!has_key(self.tile_entries(), p));
            lemma_assoc_map_dom(self.tile_entries());
        }
        None
    }

    /// How many coordinates hold a tile.
    pub fn tile_count(&self) -> (r: usize)
        ensures
            r == self.tile_entries().len(),
    {
        self.tiles.len()
    }

    /// The entry at the given rank, in ascending coordinate order.
    pub fn tile_entry_at<'a>(&'a self, i: usize) -> (r: (Pos, &'a Vec<u8>))
        requires
            i < self.tile_entries().len(),
        ensures
            r.0 == self.tile_entries()[i as int].0,
            r.1@ == self.tile_entries()[i as int].1,
    {
        (self.tiles[i].0, &self.tiles[i].1)
    }
}

impl Default for Level {
    /// An empty level at the origin with zero dimensions.
    fn default() -> (r: Level)
        ensures
            r.wf(),
            r.spec_pos() == (Pos { x: 0, y: 0 }),
            r.spec_dimens() == (Pos { x: 0, y: 0 }),
            r.tile_map() == Map::<Pos, Seq<u8>>::empty(),
            r.tile_entries().len() == 0,
    {
        Level::new(Pos::new(0, 0), Pos::new(0, 0))
    }
}

/// Whether `b` occurs in `v`.
pub fn contains_byte(v: &Vec<u8>, b: u8) -> (r: bool)
    ensures
        r == v@.contains(b),
{
    let mut i: usize = 0;
    while i < v.len()
        invariant
            i <= v@.len(),
            forall|j: int| 0 <= j < i ==> v@[j] != b,
        decreases v@.len() - i,
    {
        if v[i] == b {
            return true;
        }
        i += 1;
    }
    proof {
        if v@.contains(b) {
            let j = choose|j: int| 0 <= j < v@.len() && v@[j] == b;
        }
    }
    false
}

} // verus!
