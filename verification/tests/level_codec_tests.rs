use dsf_core::codec::{parse_level, serialize_level};
use dsf_core::level::{Level, LevelError};
use dsf_core::pos::Pos;

fn demo_level() -> Level {
    let mut l = Level::new(Pos::new(0, 0), Pos::new(10, 10));
    l.insert(Pos::new(3, 4), b"block".to_vec()).unwrap();
    l.insert(Pos::new(-2, 7), b"ladder".to_vec()).unwrap();
    l.insert(Pos::new(3, -1), b"door".to_vec()).unwrap();
    l
}

#[test]
fn serializes_in_canonical_order() {
    let l = demo_level();
    let out = serialize_level(&l);
    let expected = b"pos 0 0\ndimens 10 10\ntile -2 7 ladder\ntile 3 -1 door\ntile 3 4 block\n";
    assert_eq!(out, expected.to_vec());
}

#[test]
fn serialization_ignores_insertion_order() {
    let mut a = Level::new(Pos::new(1, 2), Pos::new(8, 6));
    a.insert(Pos::new(0, 0), b"block".to_vec()).unwrap();
    a.insert(Pos::new(5, 5), b"door".to_vec()).unwrap();
    a.insert(Pos::new(-3, 9), b"key".to_vec()).unwrap();

    let mut b = Level::new(Pos::new(1, 2), Pos::new(8, 6));
    b.insert(Pos::new(-3, 9), b"key".to_vec()).unwrap();
    b.insert(Pos::new(5, 5), b"door".to_vec()).unwrap();
    b.insert(Pos::new(0, 0), b"block".to_vec()).unwrap();

    assert_eq!(serialize_level(&a), serialize_level(&b));
}

#[test]
fn insert_replaces_tile_on_same_coordinate() {
    let mut l = Level::new(Pos::new(0, 0), Pos::new(4, 4));
    l.insert(Pos::new(1, 1), b"block".to_vec()).unwrap();
    l.insert(Pos::new(1, 1), b"door".to_vec()).unwrap();
    assert_eq!(l.tile_count(), 1);
    assert_eq!(l.tile_at(Pos::new(1, 1)), Some(&b"door".to_vec()));
}

#[test]
fn insert_rejects_key_with_line_break() {
    let mut l = Level::new(Pos::new(0, 0), Pos::new(4, 4));
    let r = l.insert(Pos::new(1, 1), b"bad\nkey".to_vec());
    assert_eq!(r, Err(LevelError::InvalidTileKey));
    assert_eq!(l.tile_count(), 0);
}

#[test]
fn three_records_round_trip() {
    let l = demo_level();
    let bytes = serialize_level(&l);
    let back = parse_level(&bytes).unwrap();
    assert_eq!(back.pos(), l.pos());
    assert_eq!(back.dimens(), l.dimens());
    assert_eq!(back.tile_count(), l.tile_count());
    assert_eq!(back.tile_at(Pos::new(3, 4)), Some(&b"block".to_vec()));
    assert_eq!(back.tile_at(Pos::new(-2, 7)), Some(&b"ladder".to_vec()));
    assert_eq!(back.tile_at(Pos::new(3, -1)), Some(&b"door".to_vec()));
    assert_eq!(serialize_level(&back), bytes);
}

#[test]
fn deserialize_serialize_deserialize_is_stable() {
    let file = b"dimens 10 10\ntile 3 4 block\npos 0 0\ntile -2 7 ladder\n".to_vec();
    let first = parse_level(&file).unwrap();
    let canonical = serialize_level(&first);
    let second = parse_level(&canonical).unwrap();
    assert_eq!(second.pos(), first.pos());
    assert_eq!(second.dimens(), first.dimens());
    assert_eq!(second.tile_count(), first.tile_count());
    assert_eq!(second.tile_at(Pos::new(3, 4)), Some(&b"block".to_vec()));
    assert_eq!(second.tile_at(Pos::new(-2, 7)), Some(&b"ladder".to_vec()));
    assert_eq!(serialize_level(&second), canonical);
}

#[test]
fn empty_file_yields_default_level() {
    let l = parse_level(&Vec::new()).unwrap();
    assert_eq!(l.pos(), Pos::new(0, 0));
    assert_eq!(l.dimens(), Pos::new(0, 0));
    assert_eq!(l.tile_count(), 0);
}

#[test]
fn omitted_fields_take_defaults() {
    let l = parse_level(&b"tile 1 2 block\n".to_vec()).unwrap();
    assert_eq!(l.pos(), Pos::new(0, 0));
    assert_eq!(l.dimens(), Pos::new(0, 0));
    assert_eq!(l.tile_at(Pos::new(1, 2)), Some(&b"block".to_vec()));
}

#[test]
fn unknown_field_is_rejected() {
    let r = parse_level(&b"pos 0 0\nbogus 1 2\n".to_vec());
    assert_eq!(r.unwrap_err(), LevelError::UnknownField);
}

#[test]
fn unknown_field_close_to_a_known_one_is_rejected() {
    let r = parse_level(&b"posx 0 0\n".to_vec());
    assert_eq!(r.unwrap_err(), LevelError::UnknownField);
    let r = parse_level(&b"tiles 1 2 block\n".to_vec());
    assert_eq!(r.unwrap_err(), LevelError::UnknownField);
}

#[test]
fn duplicate_header_field_is_rejected() {
    let r = parse_level(&b"pos 0 0\npos 1 1\n".to_vec());
    assert_eq!(r.unwrap_err(), LevelError::DuplicateField);
    let r = parse_level(&b"dimens 4 4\ndimens 4 4\n".to_vec());
    assert_eq!(r.unwrap_err(), LevelError::DuplicateField);
}

#[test]
fn duplicate_tile_coordinate_is_rejected() {
    let r = parse_level(&b"tile 1 2 block\ntile 1 2 door\n".to_vec());
    assert_eq!(r.unwrap_err(), LevelError::DuplicateTile);
}

#[test]
fn malformed_lines_are_rejected() {
    for file in [
        &b"pos 0\n"[..],
        b"pos x y\n",
        b"pos 0 0",
        b"dimens 1 2 3\n",
        b"tile 1 2block\n",
        b"pos - 0\n",
        b"pos 99999999999 0\n",
        b"pos 2147483648 0\n",
        b"pos -2147483649 0\n",
    ] {
        let r = parse_level(&file.to_vec());
        assert_eq!(r.unwrap_err(), LevelError::Malformed, "file: {:?}", file);
    }
}

#[test]
fn extreme_coordinates_round_trip() {
    let mut l = Level::new(Pos::new(-2147483648, 2147483647), Pos::new(0, 0));
    l.insert(Pos::new(-2147483648, -2147483648), b"a".to_vec())
        .unwrap();
    l.insert(Pos::new(2147483647, 2147483647), b"b".to_vec())
        .unwrap();
    let bytes = serialize_level(&l);
    let back = parse_level(&bytes).unwrap();
    assert_eq!(back.pos(), Pos::new(-2147483648, 2147483647));
    assert_eq!(
        back.tile_at(Pos::new(-2147483648, -2147483648)),
        Some(&b"a".to_vec())
    );
    assert_eq!(
        back.tile_at(Pos::new(2147483647, 2147483647)),
        Some(&b"b".to_vec())
    );
}

#[test]
fn empty_tile_key_round_trips() {
    let mut l = Level::new(Pos::new(0, 0), Pos::new(2, 2));
    l.insert(Pos::new(0, 1), Vec::new()).unwrap();
    let bytes = serialize_level(&l);
    assert_eq!(bytes, b"pos 0 0\ndimens 2 2\ntile 0 1 \n".to_vec());
    let back = parse_level(&bytes).unwrap();
    assert_eq!(back.tile_at(Pos::new(0, 1)), Some(&Vec::new()));
}
