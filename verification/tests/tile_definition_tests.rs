use dsf_core::assets::{AssetType, SpriteType};
use dsf_core::pos::Pos;
use dsf_core::tile_definition::{
    Archetype, CollisionDefinition, DepthLayer, Sturdiness, TileDefinition, TileDefinitions,
    ToolType,
};

fn def_with_collision(c: Option<CollisionDefinition>) -> TileDefinition {
    TileDefinition {
        collision: c,
        ..TileDefinition::default()
    }
}

fn def_with_archetype(a: Archetype) -> TileDefinition {
    TileDefinition {
        archetype: a,
        ..TileDefinition::default()
    }
}

#[test]
fn predicates_without_collision_are_false() {
    let d = def_with_collision(None);
    assert!(!d.provides_platform());
    assert!(!d.collides_horizontally());
    assert!(!d.collides_bottom());
}

#[test]
fn predicates_follow_collision_flags_exhaustively() {
    for top in [false, true] {
        for side in [false, true] {
            for bottom in [false, true] {
                let d = def_with_collision(Some(CollisionDefinition {
                    collides_top: top,
                    collides_side: side,
                    collides_bottom: bottom,
                }));
                assert_eq!(d.provides_platform(), top);
                assert_eq!(d.collides_horizontally(), side);
                assert_eq!(d.collides_bottom(), bottom);
            }
        }
    }
}

#[test]
fn only_breakable_blocks_are_breakable() {
    assert!(def_with_archetype(Archetype::Block(Sturdiness::Breakable)).is_breakable());
    let not_breakable = [
        Archetype::Block(Sturdiness::Invulnerable),
        Archetype::Player,
        Archetype::Key,
        Archetype::Door,
        Archetype::MobSpawner,
        Archetype::NotFound,
        Archetype::Tool(ToolType::BreakBlocksHorizontally(2)),
        Archetype::Tool(ToolType::BreakBlocksBelow(1)),
        Archetype::Tool(ToolType::BreakBlocksHorizontally(0)),
    ];
    for a in not_breakable {
        assert!(!def_with_archetype(a).is_breakable());
    }
}

#[test]
fn fallback_definition_is_renderable() {
    let f = TileDefinition::fallback();
    assert_eq!(f.depth, DepthLayer::Blocks);
    assert_eq!(f.dimens, Pos::new(1, 1));
    assert!(!f.unique);
    assert!(!f.mandatory);
    assert!(!f.climbable);
    assert_eq!(f.collision, None);
    assert_eq!(f.asset, Some(AssetType::Still(SpriteType::NotFound, 0)));
    assert_eq!(f.archetype, Archetype::NotFound);
}

#[test]
fn registry_returns_stored_definition() {
    let mut reg = TileDefinitions::default();
    let block = def_with_archetype(Archetype::Block(Sturdiness::Breakable));
    reg.insert(b"block".to_vec(), block);
    let got = reg.get(&b"block".to_vec());
    assert_eq!(got.archetype, Archetype::Block(Sturdiness::Breakable));
    assert_eq!(reg.len(), 1);
}

#[test]
fn registry_falls_back_on_missing_key() {
    let mut reg = TileDefinitions::default();
    reg.insert(b"block".to_vec(), def_with_archetype(Archetype::Player));
    let got = reg.get(&b"door".to_vec());
    assert_eq!(*got, TileDefinition::fallback());
}

#[test]
fn registry_falls_back_when_empty() {
    let fallback = def_with_archetype(Archetype::Key);
    let reg = TileDefinitions::new(fallback);
    assert_eq!(*reg.get(&b"anything".to_vec()), fallback);
    assert_eq!(*reg.get(&Vec::new()), fallback);
}

#[test]
fn registry_insert_replaces_existing_key() {
    let mut reg = TileDefinitions::default();
    reg.insert(b"k".to_vec(), def_with_archetype(Archetype::Player));
    reg.insert(b"k".to_vec(), def_with_archetype(Archetype::Door));
    assert_eq!(reg.get(&b"k".to_vec()).archetype, Archetype::Door);
    assert_eq!(reg.len(), 1);
}

#[test]
fn depth_layer_z_order_values() {
    assert_eq!(DepthLayer::Background.z(), 0);
    assert_eq!(DepthLayer::Blocks.z(), 100);
    assert_eq!(DepthLayer::FloatingBlocks.z(), 110);
    assert_eq!(DepthLayer::Enemies.z(), 120);
    assert_eq!(DepthLayer::Player.z(), 130);
    assert_eq!(DepthLayer::Particles.z(), 140);
    assert_eq!(DepthLayer::UiElements.z(), 200);
    assert_eq!(DepthLayer::Camera.z(), 300);
}

#[test]
fn taxonomy_defaults() {
    assert_eq!(DepthLayer::default(), DepthLayer::Blocks);
    assert_eq!(Archetype::default(), Archetype::NotFound);
    assert_eq!(Sturdiness::default(), Sturdiness::Invulnerable);
    assert_eq!(ToolType::default(), ToolType::BreakBlocksHorizontally(0));
    assert_eq!(SpriteType::default(), SpriteType::NotFound);
}
