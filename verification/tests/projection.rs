use conquest_tiles::build_tilemap;
use conquest_tiles::error::TileMapError;
use conquest_tiles::projection::{DenseTilemap, Tile};
use conquest_tiles::tilemap::{TileDefinition, TileMap};
use std::collections::HashMap;

fn two_sprite_map() -> TileMap {
    let mut tm = TileMap::new(24, 12);
    tm.sprites.push(TileDefinition { path: "floor.png".into(), cost: 1 });
    tm.sprites.push(TileDefinition { path: "wall.png".into(), cost: i8::MAX });
    tm.set(5, 5, 1);
    tm.set(9, 9, 1);
    tm
}

fn mapping_of(pairs: &[(usize, usize)]) -> HashMap<usize, usize> {
    let mut mapping = HashMap::new();
    for (catalog, atlas) in pairs {
        mapping.insert(*catalog, *atlas);
    }
    mapping
}

#[test]
fn projection_binds_each_cell_to_its_atlas_slot() {
    let tm = two_sprite_map();
    let mapping = mapping_of(&[(0, 10), (1, 20)]);
    let dense = build_tilemap(&tm, &mapping).unwrap();
    assert_eq!(dense.width, 24);
    assert_eq!(dense.height, 12);
    assert_eq!(dense.tiles.len(), 24 * 12);
    assert_eq!(dense.tiles[5 * 24 + 5], Tile { point: (5, 5), sprite_index: 20 });
    assert_eq!(dense.tiles[9 * 24 + 9], Tile { point: (9, 9), sprite_index: 20 });
    assert_eq!(dense.tiles[0], Tile { point: (0, 0), sprite_index: 10 });
    assert_eq!(dense.tiles[24 * 12 - 1], Tile { point: (23, 11), sprite_index: 10 });
}

#[test]
fn projection_is_row_major_and_complete() {
    let tm = two_sprite_map();
    let mapping = mapping_of(&[(0, 10), (1, 20)]);
    let dense = build_tilemap(&tm, &mapping).unwrap();
    let mut place = 0;
    for y in 0..12u32 {
        for x in 0..24u32 {
            let slot = if (x, y) == (5, 5) || (x, y) == (9, 9) { 20 } else { 10 };
            assert_eq!(dense.tiles[place], Tile { point: (x, y), sprite_index: slot });
            place += 1;
        }
    }
    assert_eq!(place, dense.tiles.len());
}

#[test]
fn projection_of_a_small_grid() {
    let mut tm = TileMap::new(3, 2);
    tm.sprites.push(TileDefinition { path: "a".into(), cost: 0 });
    tm.sprites.push(TileDefinition { path: "b".into(), cost: 0 });
    tm.set(2, 0, 1);
    tm.set(0, 1, 1);
    let mapping = mapping_of(&[(0, 7), (1, 3), (2, 99)]);
    let dense = build_tilemap(&tm, &mapping);
    assert_eq!(
        dense,
        Ok(DenseTilemap {
            width: 3,
            height: 2,
            tiles: vec![
                Tile { point: (0, 0), sprite_index: 7 },
                Tile { point: (1, 0), sprite_index: 7 },
                Tile { point: (2, 0), sprite_index: 3 },
                Tile { point: (0, 1), sprite_index: 3 },
                Tile { point: (1, 1), sprite_index: 7 },
                Tile { point: (2, 1), sprite_index: 7 },
            ],
        })
    );
}

#[test]
fn projection_is_the_same_on_every_call() {
    let tm = two_sprite_map();
    let mapping = mapping_of(&[(0, 10), (1, 20)]);
    assert_eq!(build_tilemap(&tm, &mapping), build_tilemap(&tm, &mapping));
}

#[test]
fn missing_mapping_entry_is_an_error() {
    let tm = two_sprite_map();
    let mapping = mapping_of(&[(0, 10)]);
    assert_eq!(
        build_tilemap(&tm, &mapping),
        Err(TileMapError::UnmappedSprite { x: 5, y: 5, index: 1 })
    );
}

#[test]
fn first_failing_cell_is_reported() {
    let mut tm = two_sprite_map();
    tm.set(3, 7, 1);
    tm.set(23, 2, 5);
    tm.set(0, 3, 1);
    let mapping = mapping_of(&[(0, 10)]);
    assert_eq!(
        build_tilemap(&tm, &mapping),
        Err(TileMapError::IndexOutOfRange { index: 5, len: 2 })
    );
    tm.set(23, 2, 0);
    assert_eq!(
        build_tilemap(&tm, &mapping),
        Err(TileMapError::UnmappedSprite { x: 0, y: 3, index: 1 })
    );
}

#[test]
fn empty_catalog_fails_the_projection() {
    let tm = TileMap::new(2, 2);
    let mapping = mapping_of(&[(0, 10)]);
    assert_eq!(
        build_tilemap(&tm, &mapping),
        Err(TileMapError::IndexOutOfRange { index: 0, len: 0 })
    );
}

#[test]
fn overrides_outside_the_grid_are_not_visited() {
    let mut tm = two_sprite_map();
    tm.set(24, 0, 9);
    tm.set(0, 12, 9);
    tm.set(600, 600, 1);
    let mapping = mapping_of(&[(0, 10), (1, 20)]);
    let dense = build_tilemap(&tm, &mapping).unwrap();
    assert_eq!(dense.tiles.len(), 24 * 12);
}

#[test]
fn grid_without_area_projects_to_nothing() {
    let mapping = mapping_of(&[]);
    let wide = build_tilemap(&TileMap::new(7, 0), &mapping).unwrap();
    assert_eq!(wide, DenseTilemap { width: 7, height: 0, tiles: vec![] });
    let tall = build_tilemap(&TileMap::new(0, 7), &mapping).unwrap();
    assert_eq!(tall, DenseTilemap { width: 0, height: 7, tiles: vec![] });
}

#[test]
fn atlas_mapping_binds_catalog_order_to_slots() {
    let mapping = conquest_tiles::projection::atlas_mapping(&vec![10, 20, 4]);
    assert_eq!(mapping.len(), 3);
    assert_eq!(mapping.get(&0), Some(&10));
    assert_eq!(mapping.get(&1), Some(&20));
    assert_eq!(mapping.get(&2), Some(&4));
    assert_eq!(mapping.get(&3), None);
    assert!(conquest_tiles::projection::atlas_mapping(&vec![]).is_empty());
}

#[test]
fn whole_catalog_mapping_leaves_no_sprite_unmapped() {
    let tm = two_sprite_map();
    let mapping = conquest_tiles::projection::atlas_mapping(&vec![10, 20]);
    let dense = build_tilemap(&tm, &mapping).unwrap();
    assert_eq!(dense.tiles[5 * 24 + 5].sprite_index, 20);
    assert_eq!(dense.tiles[0].sprite_index, 10);
}
