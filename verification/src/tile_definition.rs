use vstd::prelude::*;
use crate::assets::{AssetType, SpriteType};
use crate::bytestr::bytes_eq;
use crate::assoc::{assoc_map, has_key, lemma_assoc_map_dom, lemma_assoc_map_index,
    lemma_assoc_map_push, lemma_assoc_map_update, unique_keys};
use crate::pos::Pos;

verus! {

/// Z-layering information: what is drawn behind and in front of a tile.
/// The order of the variants is the draw order, back to front.
#[derive(Clone, Copy, Debug, PartialEq, Eq, Hash, Structural)]
pub enum DepthLayer {
    Background,
    Blocks,
    FloatingBlocks,
    Enemies,
    Player,
    Particles,
    /// UI elements that exist in world space, such as debug frames; in the
    /// editor, the cursor and the selection.
    UiElements,
    Camera,
}

impl Default for DepthLayer {
    fn default() -> (r: DepthLayer)
        ensures
            r == DepthLayer::Blocks,
    {
        DepthLayer::Blocks
    }
}

/// The fixed z-order value of each layer, used purely for draw ordering.
pub open spec fn spec_depth_z(layer: DepthLayer) -> u32 {
    match layer {
        DepthLayer::Background => 0,
        DepthLayer::Blocks => 100,
        DepthLayer::FloatingBlocks => 110,
        DepthLayer::Enemies => 120,
        DepthLayer::Player => 130,
        DepthLayer::Particles => 140,
        DepthLayer::UiElements => 200,
        DepthLayer::Camera => 300,
    }
}

impl DepthLayer {
    /// The z-order value of this layer.
    pub fn z(&self) -> (r: u32)
        ensures
            r == spec_depth_z(*self),
    {
        match self {
            DepthLayer::Background => 0,
            DepthLayer::Blocks => 100,
            DepthLayer::FloatingBlocks => 110,
            DepthLayer::Enemies => 120,
            DepthLayer::Player => 130,
            DepthLayer::Particles => 140,
            DepthLayer::UiElements => 200,
            DepthLayer::Camera => 300,
        }
    }
}

/// What it takes to break a block.
#[derive(Clone, Copy, Debug, PartialEq, Eq, Structural)]
pub enum Sturdiness {
    Invulnerable,
    Breakable,
}

impl Default for Sturdiness {
    fn default() -> (r: Sturdiness)
        ensures
            r == Sturdiness::Invulnerable,
    {
        Sturdiness::Invulnerable
    }
}

/// A tool that the player can pick up and use to break blocks.
#[derive(Clone, Copy, Debug, PartialEq, Eq, Structural)]
pub enum ToolType {
    /// Breaks the blocks the player is facing, n layers deep.
    BreakBlocksHorizontally(u8),
    /// Breaks the blocks below the player, in the direction the player is
    /// facing, n layers deep.
    BreakBlocksBelow(u8),
}

impl Default for ToolType {
    fn default() -> (r: ToolType)
        ensures
            r == ToolType::BreakBlocksHorizontally(0),
    {
        ToolType::BreakBlocksHorizontally(0)
    }
}

/// If any special rules apply to a tile, the archetype signals this. For
/// example, a tile with the `Player` archetype is targeted by player input.
#[derive(Clone, Copy, Debug, PartialEq, Eq, Structural)]
pub enum Archetype {
    /// An ordinary block. Does nothing.
    Block(Sturdiness),
    /// Spawn a player here.
    Player,
    /// A level key. The objective is to collect them all.
    Key,
    /// After collecting all keys, finish the level by reaching this door.
    Door,
    /// Spawns mobs from this location.
    MobSpawner,
    /// A fallback archetype used when an archetype lookup failed.
    NotFound,
    Tool(ToolType),
}

impl Default for Archetype {
    fn default() -> (r: Archetype)
        ensures
            r == Archetype::NotFound,
    {
        Archetype::NotFound
    }
}

/// Collision data for a tile. Each flag enables collision on one side.
#[derive(Clone, Copy, Debug, PartialEq, Eq, Structural)]
pub struct CollisionDefinition {
    /// The player can stand on these tiles, e.g. regular blocks and ladders.
    pub collides_top: bool,
    /// The player cannot move through these tiles horizontally.
    pub collides_side: bool,
    /// When standing underneath a two-high ledge of these tiles, the player
    /// cannot jump.
    pub collides_bottom: bool,
}

/// Describes the properties of one kind of tile or entity that can appear in
/// a level. Level files only contain string references to tile definitions,
/// which protects them from becoming outdated when definitions are updated.
#[derive(Clone, Copy, Debug, PartialEq)]
pub struct TileDefinition {
    /// Z-layering information.
    pub depth: DepthLayer,
    /// How wide and high the tile is.
    pub dimens: Pos,
    /// Only one tile with this definition may appear in a level.
    pub unique: bool,
    /// A level cannot be played without at least one tile with this
    /// definition. Combined with `unique`, the tile appears exactly once.
    pub mandatory: bool,
    /// Whether the player can climb up and down on this tile.
    pub climbable: bool,
    /// Collision data. Optional, because not all tiles collide.
    pub collision: Option<CollisionDefinition>,
    /// The graphical asset. Optional, because not all tiles have one.
    pub asset: Option<AssetType>,
    /// Signals special components or behaviour attached to this tile.
    pub archetype: Archetype,
}

impl Default for TileDefinition {
    fn default() -> (r: TileDefinition)
        ensures
            r == (TileDefinition {
                depth: DepthLayer::Blocks,
                dimens: Pos { x: 0, y: 0 },
                unique: false,
                mandatory: false,
                climbable: false,
                collision: None,
                asset: None,
                archetype: Archetype::NotFound,
            }),
    {
        TileDefinition {
            depth: DepthLayer::Blocks,
            dimens: Pos::new(0, 0),
            unique: false,
            mandatory: false,
            climbable: false,
            collision: None,
            asset: None,
            archetype: Archetype::NotFound,
        }
    }
}

/// The definition substituted when a registry lookup fails: a harmless,
/// renderable tile.
pub open spec fn fallback_tile_definition() -> TileDefinition {
    TileDefinition {
        depth: DepthLayer::Blocks,
        dimens: Pos { x: 1, y: 1 },
        unique: false,
        mandatory: false,
        climbable: false,
        collision: None,
        asset: Some(AssetType::Still(SpriteType::NotFound, 0)),
        archetype: Archetype::NotFound,
    }
}

impl TileDefinition {
    /// The definition substituted when a lookup fails: a harmless, renderable
    /// tile. This avoids a panic when a level file is slightly corrupted or
    /// out of date.
    pub fn fallback() -> (r: Self)
        ensures
            r == fallback_tile_definition(),
    {
        TileDefinition {
            depth: DepthLayer::Blocks,
            dimens: Pos::new(1, 1),
            unique: false,
            mandatory: false,
            climbable: false,
            collision: None,
            asset: Some(AssetType::Still(SpriteType::NotFound, 0)),
            archetype: Archetype::NotFound,
        }
    }

    /// Whether an entity standing above this tile is supported by it.
    pub open spec fn spec_provides_platform(self) -> bool {
        match self.collision {
            Some(c) => c.collides_top,
            None => false,
        }
    }

    /// True if and only if the tile collides at the top; in other words, if
    /// an entity can stand on top of this tile. False for tiles without
    /// collision data.
    pub fn provides_platform(&self) -> (r: bool)
        ensures
            r == self.spec_provides_platform(),
    {
        if let Some(collision) = &self.collision {
            collision.collides_top
        } else {
            false
        }
    }

    /// Whether this tile blocks lateral movement.
    pub open spec fn spec_collides_horizontally(self) -> bool {
        match self.collision {
            Some(c) => c.collides_side,
            None => false,
        }
    }

    /// True if and only if the tile collides on the right and left sides.
    /// False for tiles without collision data.
    pub fn collides_horizontally(&self) -> (r: bool)
        ensures
            r == self.spec_collides_horizontally(),
    {
        if let Some(collision) = &self.collision {
            collision.collides_side
        } else {
            false
        }
    }

    /// Whether this tile blocks upward movement from below.
    pub open spec fn spec_collides_bottom(self) -> bool {
        match self.collision {
            Some(c) => c.collides_bottom,
            None => false,
        }
    }

    /// True if and only if the tile collides on the bottom. False for tiles
    /// without collision data.
    pub fn collides_bottom(&self) -> (r: bool)
        ensures
            r == self.spec_collides_bottom(),
    {
        if let Some(collision) = &self.collision {
            collision.collides_bottom
        } else {
            false
        }
    }

    /// True exactly for breakable blocks: every other archetype, including
    /// invulnerable blocks, is not breakable.
    pub fn is_breakable(&self) -> (r: bool)
        ensures
            r == (self.archetype == Archetype::Block(Sturdiness::Breakable)),
    {
        self.archetype == Archetype::Block(Sturdiness::Breakable)
    }
}

/// Stores tile definitions, keyed by name. Used in both the level editor and
/// the actual game. Definitions are loaded once from a definitions file;
/// levels refer to them only by key.
pub struct TileDefinitions {
    /// Returned whenever a requested key cannot be found, so that a lookup
    /// never fails.
    fallback: TileDefinition,
    map: Vec<(Vec<u8>, TileDefinition)>,
}

impl TileDefinitions {
    /// The stored entries, with keys as byte sequences.
    pub closed spec fn entries(self) -> Seq<(Seq<u8>, TileDefinition)> {
        self.map@.map_values(|e: (Vec<u8>, TileDefinition)| (e.0@, e.1))
    }

    /// The key-to-definition mapping this registry represents.
    pub open spec fn key_map(self) -> Map<Seq<u8>, TileDefinition> {
        assoc_map(self.entries())
    }

    /// The definition substituted on a failed lookup.
    pub closed spec fn spec_fallback(self) -> TileDefinition {
        self.fallback
    }

    /// Each key is stored at most once.
    pub open spec fn wf(self) -> bool {
        unique_keys(self.entries())
    }

    /// An empty registry with the given fallback definition.
    pub fn new(fallback: TileDefinition) -> (r: Self)
        ensures
            r.wf(),
            r.key_map() == Map::<Seq<u8>, TileDefinition>::empty(),
            r.spec_fallback() == fallback,
    {
        let r = TileDefinitions { fallback, map: Vec::new() };
        proof {
            assert(r.entries() =~= Seq::<(Seq<u8>, TileDefinition)>::empty());
        }
        r
    }

    /// Adds a definition under the given key, replacing any definition the
    /// key was already mapped to.
    pub fn insert(&mut self, key: Vec<u8>, def: TileDefinition)
        requires
            old(self).wf(),
        ensures
            final(self).wf(),
            final(self).key_map() == old(self).key_map().insert(key@, def),
            final(self).spec_fallback() == old(self).spec_fallback(),
    {
        let mut i: usize = 0;
        while i < self.map.len()
            invariant
                old(self).wf(),
                *self == *old(self),
                i <= self.map.len(),
                forall|j: int| 0 <= j < i ==> self.entries()[j].0 != key@,
            decreases self.map.len() - i,
        {
            if bytes_eq(&self.map[i].0, &key) {
                proof {
                    assert(old(self).entries()[i as int].0 == key@);
                }
                self.map[i] = (key, def);
                proof {
                    let oe = old(self).entries();
                    let ne = self.entries();
                    assert forall|j: int| 0 <= j < ne.len()
                        implies ne[j] == oe.update(i as int, (key@, def))[j] by {
                        if j != i {
                            assert(self.map@[j] == old(self).map@[j]);
                        }
                    }
                    assert(ne =~= oe.update(i as int, (key@, def)));
                    lemma_assoc_map_update(oe, i as int, (key@, def));
                }
                return;
            }
            i += 1;
        }
        proof {
            assert(!has_key(old(self).entries(), key@));
        }
        self.map.push((key, def));
        proof {
            let oe = old(self).entries();
            let ne = self.entries();
            assert forall|j: int| 0 <= j < ne.len() implies ne[j] == oe.push((key@, def))[j] by {
                if j < oe.len() {
                    assert(self.map@[j] == old(self).map@[j]);
                }
            }
            assert(ne =~= oe.push((key@, def)));
            lemma_assoc_map_push(oe, (key@, def));
        }
    }

    /// Looks up a definition by key. Never fails: if the key is absent, the
    /// registry's fallback definition is returned instead, so that a level
    /// that references a stale key stays playable.
    pub fn get<'a>(&'a self, key: &Vec<u8>) -> (r: &'a TileDefinition)
        requires
            self.wf(),
        ensures
            self.key_map().contains_key(key@) ==> *r == self.key_map()[key@],
            !self.key_map().contains_key(key@) ==> *r == self.spec_fallback(),
    {
        let mut i: usize = 0;
        while i < self.map.len()
            invariant
                self.wf(),
                i <= self.map.len(),
                forall|j: int| 0 <= j < i ==> self.entries()[j].0 != key@,
            decreases self.map.len() - i,
        {
            if bytes_eq(&self.map[i].0, key) {
                proof {
                    assert(self.entries()[i as int].0 == key@);
                    lemma_assoc_map_index(self.entries(), i as int);
                }
                return &self.map[i].1;
            }
            i += 1;
        }
        proof {
            assert(!has_key(self.entries(), key@));
            lemma_assoc_map_dom(self.entries());
        }
        &self.fallback
    }

    /// How many definitions are stored.
    pub fn len(&self) -> (r: usize)
        ensures
            r == self.entries().len(),
    {
        self.map.len()
    }
}

impl Default for TileDefinitions {
    /// An empty registry whose fallback is `TileDefinition::fallback()`.
    fn default() -> (r: Self)
        ensures
            r.wf(),
            r.key_map() == Map::<Seq<u8>, TileDefinition>::empty(),
            r.spec_fallback() == fallback_tile_definition(),
    {
        Self::new(TileDefinition::fallback())
    }
}

} // verus!
