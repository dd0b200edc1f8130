use dsf_core::assets::{get_asset_dimensions, AnimType, AssetType, SpriteType};
use dsf_core::pos::Pos;

#[test]
fn still_asset_dimensions() {
    assert_eq!(
        get_asset_dimensions(&AssetType::Still(SpriteType::Background, 0)),
        Pos::new(2449, 1632)
    );
    assert_eq!(
        get_asset_dimensions(&AssetType::Still(SpriteType::Frame, 1)),
        Pos::new(50, 50)
    );
    assert_eq!(
        get_asset_dimensions(&AssetType::Still(SpriteType::Ladder, 0)),
        Pos::new(128, 64)
    );
    assert_eq!(
        get_asset_dimensions(&AssetType::Still(SpriteType::Door, 0)),
        Pos::new(256, 256)
    );
    assert_eq!(
        get_asset_dimensions(&AssetType::Still(SpriteType::Blocks, 3)),
        Pos::new(128, 128)
    );
    assert_eq!(
        get_asset_dimensions(&AssetType::Still(SpriteType::NotFound, 0)),
        Pos::new(128, 128)
    );
}

#[test]
fn animated_asset_dimensions() {
    assert_eq!(
        get_asset_dimensions(&AssetType::Animated(AnimType::Mob)),
        Pos::new(32, 32)
    );
    assert_eq!(
        get_asset_dimensions(&AssetType::Animated(AnimType::Miner)),
        Pos::new(128, 128)
    );
    assert_eq!(
        get_asset_dimensions(&AssetType::Animated(AnimType::NotFound)),
        Pos::new(128, 128)
    );
}
