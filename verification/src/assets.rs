use vstd::prelude::*;
use crate::pos::Pos;

verus! {

/// Identifies a kind of still (non-animated) sprite sheet.
#[derive(Clone, Copy, Debug, PartialEq, Eq, Hash, Structural)]
pub enum SpriteType {
    /// The fallback sprite to use if the desired sprite cannot be found.
    NotFound,
    Ladder,
    Background,
    Frame,
    Blocks,
    Tools,
    Door,
    Selection,
}

impl Default for SpriteType {
    fn default() -> (r: SpriteType)
        ensures
            r == SpriteType::NotFound,
    {
        SpriteType::NotFound
    }
}

/// Identifies a kind of animated asset.
#[derive(Clone, Copy, Debug, PartialEq, Eq, Hash, Structural)]
pub enum AnimType {
    /// The fallback animated asset to use if the desired asset could not be found.
    NotFound,
    Mob,
    Miner,
}

/// Identifies a kind of sound effect. Each kind may be represented by any
/// number of sound files that the game picks from.
#[derive(Clone, Copy, Debug, PartialEq, Eq, Hash, Structural)]
pub enum SoundType {
    /// Played when the player initiates a jump.
    Jump,
    /// The player's footstep.
    Step,
    /// Played when the player tries something that is not possible, such as
    /// jumping while underneath a two-high ledge.
    CannotPerformAction,
    /// Played when the player starts to use a tool that breaks blocks.
    Mining,
    /// Played when the player picks up any tool.
    ToolPickup,
    /// Played when the player picks up a key.
    KeyPickup,
    /// Played when the player completes a level.
    Win,
}

/// The graphical asset attached to a tile definition.
#[derive(Clone, Copy, Debug, PartialEq, Eq, Structural)]
pub enum AssetType {
    /// A static image: a sprite sheet and the number of the sprite on the sheet.
    Still(SpriteType, usize),
    /// An animated image.
    Animated(AnimType),
}

/// The dimensions in pixels associated with an asset.
pub open spec fn spec_asset_dimensions(asset: AssetType) -> Pos {
    match asset {
        AssetType::Still(sprite_type, _) => match sprite_type {
            SpriteType::Background => Pos { x: 2449, y: 1632 },
            SpriteType::Frame => Pos { x: 50, y: 50 },
            SpriteType::Ladder => Pos { x: 128, y: 64 },
            SpriteType::Door => Pos { x: 256, y: 256 },
            _ => Pos { x: 128, y: 128 },
        },
        AssetType::Animated(anim_type) => match anim_type {
            AnimType::Mob => Pos { x: 32, y: 32 },
            _ => Pos { x: 128, y: 128 },
        },
    }
}

/// Matches a still or animated asset to its dimensions in pixels. Required to
/// calculate the correct scale factor for an entity to make it fit within its
/// in-world bounds.
pub fn get_asset_dimensions(asset: &AssetType) -> (r: Pos)
    ensures
        r == spec_asset_dimensions(*asset),
{
    match asset {
        AssetType::Still(sprite_type, _) => match sprite_type {
            SpriteType::Background => Pos::new(2449, 1632),
            SpriteType::Frame => Pos::new(50, 50),
            SpriteType::Ladder => Pos::new(128, 64),
            SpriteType::Door => Pos::new(256, 256),
            _ => Pos::new(128, 128),
        },
        AssetType::Animated(anim_type) => match anim_type {
            AnimType::Mob => Pos::new(32, 32),
            _ => Pos::new(128, 128),
        },
    }
}

} // verus!
