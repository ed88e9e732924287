use conquest_tiles::error::TileMapError;
use conquest_tiles::tilemap::{NavPoint, TileDefinition, TileMap};

fn floor_and_wall() -> TileMap {
    let mut tm = TileMap::new(24, 12);
    tm.sprites.push(TileDefinition { path: "floor.png".into(), cost: 1 });
    tm.sprites.push(TileDefinition { path: "wall.png".into(), cost: i8::MAX });
    tm.set(5, 5, 1);
    tm.set(9, 9, 1);
    tm
}

#[test]
fn new_map_is_empty() {
    let tm = TileMap::new(24, 12);
    assert_eq!(tm.width, 24);
    assert_eq!(tm.height, 12);
    assert!(tm.sprites.is_empty());
    assert!(tm.tiles.is_empty());
    assert_eq!(tm.default_tile, 0);
    assert!(tm.nav_points.is_empty());
}

#[test]
fn default_map_has_no_extent() {
    let tm = TileMap::default();
    assert_eq!(tm, TileMap::new(0, 0));
}

#[test]
fn default_nav_point_is_at_the_origin() {
    let point = NavPoint::default();
    assert_eq!(point, NavPoint { id: 0, x: 0, y: 0, edges: vec![] });
}

#[test]
fn unset_cell_falls_back_to_default() {
    let mut tm = floor_and_wall();
    assert_eq!(tm.get_sprite_index(0, 0), Ok(0));
    assert_eq!(tm.get_sprite_index(23, 11), Ok(0));
    tm.default_tile = 1;
    assert_eq!(tm.get_sprite_index(0, 0), Ok(1));
    assert_eq!(tm.get_sprite_index(65535, 65535), Ok(1));
}

#[test]
fn set_overrides_a_cell() {
    let mut tm = floor_and_wall();
    assert_eq!(tm.get_sprite_index(5, 5), Ok(1));
    tm.set(5, 5, 0);
    assert_eq!(tm.get_sprite_index(5, 5), Ok(0));
    tm.set(5, 5, 1);
    assert_eq!(tm.get_sprite_index(5, 5), Ok(1));
    assert_eq!(tm.get_sprite_index(9, 9), Ok(1));
    assert_eq!(tm.get_sprite_index(5, 9), Ok(0));
}

#[test]
fn set_does_not_check_the_index() {
    let mut tm = floor_and_wall();
    tm.set(3, 3, 7);
    assert_eq!(tm.tiles.get(&(3, 3)), Some(&7));
    assert_eq!(
        tm.get_sprite_index(3, 3),
        Err(TileMapError::IndexOutOfRange { index: 7, len: 2 })
    );
    assert_eq!(tm.get(3, 3), Err(TileMapError::IndexOutOfRange { index: 7, len: 2 }));
    assert_eq!(tm.get_sprite_index(4, 3), Ok(0));
}

#[test]
fn set_keeps_cells_outside_the_grid() {
    let mut tm = floor_and_wall();
    tm.set(500, 600, 1);
    assert_eq!(tm.get_sprite_index(500, 600), Ok(1));
    assert_eq!(tm.tiles.len(), 3);
}

#[test]
fn get_copies_the_catalog_entry() {
    let tm = floor_and_wall();
    assert_eq!(tm.get(5, 5), Ok(TileDefinition { path: "wall.png".into(), cost: 127 }));
    assert_eq!(tm.get(0, 0), Ok(TileDefinition { path: "floor.png".into(), cost: 1 }));
}

#[test]
fn empty_catalog_reports_index_out_of_range() {
    let tm = TileMap::new(24, 12);
    assert_eq!(
        tm.get_sprite_index(3, 4),
        Err(TileMapError::IndexOutOfRange { index: 0, len: 0 })
    );
    assert_eq!(tm.get(3, 4), Err(TileMapError::IndexOutOfRange { index: 0, len: 0 }));
}

#[test]
fn stale_default_reports_index_out_of_range() {
    let mut tm = floor_and_wall();
    tm.default_tile = 2;
    assert_eq!(
        tm.get_sprite_index(0, 0),
        Err(TileMapError::IndexOutOfRange { index: 2, len: 2 })
    );
    assert_eq!(tm.get_sprite_index(5, 5), Ok(1));
}

#[test]
fn clones_are_equal() {
    let definition = TileDefinition { path: "floor.png".into(), cost: -3 };
    assert_eq!(definition.clone(), definition);
    let point = NavPoint { id: 4, x: 1, y: 2, edges: vec![7, 7, 4] };
    assert_eq!(point.clone(), point);
}

#[test]
fn index_out_of_range_says_so() {
    let error = TileMapError::IndexOutOfRange { index: 0, len: 0 };
    assert_eq!(error.message(), "index out of range: sprite 0 of 0");
    let error = TileMapError::IndexOutOfRange { index: 12, len: 305 };
    assert_eq!(error.message(), "index out of range: sprite 12 of 305");
}

#[test]
fn unmapped_sprite_says_so() {
    let error = TileMapError::UnmappedSprite { x: 5, y: 65535, index: 1 };
    assert_eq!(error.message(), "unmapped sprite: sprite 1 at (5,65535)");
}

#[test]
fn a_cloned_map_is_equal_and_apart() {
    let mut tm = floor_and_wall();
    tm.nav_points.push(NavPoint { id: 1, x: 5, y: 5, edges: vec![0] });
    let mut copy = tm.clone();
    assert_eq!(copy, tm);
    copy.set(0, 0, 1);
    assert_eq!(tm.get_sprite_index(0, 0), Ok(0));
    assert_eq!(copy.get_sprite_index(0, 0), Ok(1));
}
