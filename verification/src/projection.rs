//! The dense projection: every cell of the grid, in row-major order, bound
//! to its slot in a texture atlas.

use crate::error::TileMapError;
use crate::tilemap::{TileMap, TileMapView};
use std::collections::HashMap;
use vstd::arithmetic::div_mod::{lemma_fundamental_div_mod, lemma_mod_bound};
use vstd::prelude::*;

verus! {

/// One cell of the projection: where it lies and which atlas slot it shows.
#[derive(Clone, Copy, Debug, PartialEq, Eq)]
pub struct Tile {
    /// The cell's `(x, y)`.
    pub point: (u32, u32),
    /// The atlas slot of the cell's sprite.
    pub sprite_index: usize,
}

/// What a rendering host needs of a map: the extents and one tile for each
/// cell, rows from `y = 0` upwards and, within a row, from `x = 0` upwards.
#[derive(Debug, PartialEq, Eq)]
pub struct DenseTilemap {
    pub width: u32,
    pub height: u32,
    pub tiles: Vec<Tile>,
}

/// The tile of cell `(x, y)`: the cell's catalog index, looked up in the
/// catalog and then in the atlas mapping. A mapping without an entry for
/// that index is an error, never a default.
pub open spec fn project_cell(
    map: TileMapView,
    mapping: Map<usize, usize>,
    x: u16,
    y: u16,
) -> Result<Tile, TileMapError> {
    match map.lookup(x, y) {
        Err(error) => Err(error),
        Ok(index) => if mapping.contains_key(index) {
            Ok(Tile { point: (x as u32, y as u32), sprite_index: mapping[index] })
        } else {
            Err(TileMapError::UnmappedSprite { x, y, index })
        },
    }
}

/// The place of cell `(x, y)` in the row-major sequence of a grid that is
/// `width` cells wide.
pub open spec fn row_major(width: u16, x: u16, y: u16) -> int {
    y * width + x
}

/// `tiles` is the projection of `map` under `mapping`: one tile for each
/// cell of the grid, the tile of `(x, y)` at place `row_major(width, x, y)`.
pub open spec fn is_projection(map: TileMapView, mapping: Map<usize, usize>, tiles: Seq<Tile>) -> bool {
    &&& tiles.len() == map.width * map.height
    &&& forall|x: u16, y: u16|
        x < map.width && y < map.height ==> #[trigger] project_cell(map, mapping, x, y) == Ok::<
            Tile,
            TileMapError,
        >(tiles[row_major(map.width, x, y)])
}

/// `(x, y)` is the first cell of the grid, in row-major order, that has no
/// tile, and `error` says why.
pub open spec fn is_first_failure(
    map: TileMapView,
    mapping: Map<usize, usize>,
    x: u16,
    y: u16,
    error: TileMapError,
) -> bool {
    &&& x < map.width
    &&& y < map.height
    &&& project_cell(map, mapping, x, y) == Err::<Tile, TileMapError>(error)
    &&& forall|x2: u16, y2: u16|
        x2 < map.width && (y2 < y || (y2 == y && x2 < x)) ==> (#[trigger] project_cell(
            map,
            mapping,
            x2,
            y2,
        )) is Ok
}

/// Within a grid, an earlier cell has a smaller row-major place.
pub proof fn lemma_row_major_order(width: u16, x1: u16, y1: u16, x2: u16, y2: u16)
    requires
        x1 < width,
        x2 < width,
        y1 < y2 || (y1 == y2 && x1 < x2),
    ensures
        0 <= row_major(width, x1, y1) < row_major(width, x2, y2),
{
    assert(0 <= y1 * width) by (nonlinear_arith);
    if y1 < y2 {
        assert((y1 + 1) * width <= y2 * width) by (nonlinear_arith)
            requires
                y1 + 1 <= y2,
                0 <= width,
        ;
        assert((y1 + 1) * width == y1 * width + width) by (nonlinear_arith);
    }
}

/// Every place below the grid's area is the row-major place of one cell of
/// the grid: the cell in column `place % width` of row `place / width`.
pub proof fn lemma_cell_of_place(width: u16, height: u16, place: int)
    requires
        0 <= place < width * height,
    ensures
        0 <= place % (width as int) < width,
        0 <= place / (width as int) < height,
        row_major(width, (place % (width as int)) as u16, (place / (width as int)) as u16)
            == place,
{
    let w = width as int;
    assert(w > 0) by (nonlinear_arith)
        requires
            0 <= place < w * height,
            w >= 0,
    ;
    lemma_fundamental_div_mod(place, w);
    lemma_mod_bound(place, w);
    let row = place / w;
    assert(0 <= row < height) by (nonlinear_arith)
        requires
            place == w * row + place % w,
            0 <= place % w < w,
            0 <= place < w * height,
            w > 0,
    ;
    assert(row * w == w * row) by (nonlinear_arith);
}

/// A projection is complete and correct: it holds one tile for each cell
/// of the grid and no other, in row-major order, and each tile shows the
/// atlas slot that the mapping gives for the catalog index of its cell.
pub proof fn lemma_projection_covers_grid(
    map: TileMapView,
    mapping: Map<usize, usize>,
    tiles: Seq<Tile>,
)
    requires
        is_projection(map, mapping, tiles),
    ensures
        tiles.len() == map.width * map.height,
        forall|place: int|
            0 <= place < tiles.len() ==> (#[trigger] tiles[place]).point == (
                (place % (map.width as int)) as u32,
                (place / (map.width as int)) as u32,
            ),
        forall|x: u16, y: u16|
            x < map.width && y < map.height ==> {
                let tile = #[trigger] tiles[row_major(map.width, x, y)];
                &&& tile.point == (x as u32, y as u32)
                &&& map.lookup(x, y) == Ok::<usize, TileMapError>(map.sprite_index_at(x, y))
                &&& mapping.contains_key(map.sprite_index_at(x, y))
                &&& tile.sprite_index == mapping[map.sprite_index_at(x, y)]
            },
{
    assert forall|place: int| 0 <= place < tiles.len() implies (#[trigger] tiles[place]).point == (
        (place % (map.width as int)) as u32,
        (place / (map.width as int)) as u32,
    ) by {
        lemma_cell_of_place(map.width, map.height, place);
        let x = (place % (map.width as int)) as u16;
        let y = (place / (map.width as int)) as u16;
        assert(project_cell(map, mapping, x, y) == Ok::<Tile, TileMapError>(
            tiles[row_major(map.width, x, y)],
        ));
    }
    assert forall|x: u16, y: u16| x < map.width && y < map.height implies {
        let tile = #[trigger] tiles[row_major(map.width, x, y)];
        &&& tile.point == (x as u32, y as u32)
        &&& map.lookup(x, y) == Ok::<usize, TileMapError>(map.sprite_index_at(x, y))
        &&& mapping.contains_key(map.sprite_index_at(x, y))
        &&& tile.sprite_index == mapping[map.sprite_index_at(x, y)]
    } by {
        assert(project_cell(map, mapping, x, y) == Ok::<Tile, TileMapError>(
            tiles[row_major(map.width, x, y)],
        ));
    }
}

/// Projects `tile_data` onto the atlas: one tile for each cell of
/// `[0, width) x [0, height)`, in row-major order, each carrying the atlas
/// slot that `tile_mapping` gives for the cell's catalog index.
///
/// Fails at the first cell, in that order, whose catalog index the catalog
/// does not hold or the mapping does not cover. Overrides outside the grid
/// are never visited and cannot fail the projection.
pub fn build_tilemap(tile_data: &TileMap, tile_mapping: &HashMap<usize, usize>) -> (dense: Result<
    DenseTilemap,
    TileMapError,
>)
    ensures
        match dense {
            Ok(host) => {
                &&& host.width == tile_data.width
                &&& host.height == tile_data.height
                &&& is_projection(tile_data@, tile_mapping@, host.tiles@)
            },
            Err(error) => exists|x: u16, y: u16|
                is_first_failure(tile_data@, tile_mapping@, x, y, error),
        },
{
    let width = tile_data.width;
    let height = tile_data.height;
    let mut tiles: Vec<Tile> = Vec::new();
    let mut y: u16 = 0;
    while y < height
        invariant
            width == tile_data.width,
            height == tile_data.height,
            y <= height,
            tiles@.len() == y * width,
            forall|x2: u16, y2: u16|
                x2 < width && y2 < y ==> #[trigger] project_cell(
                    tile_data@,
                    tile_mapping@,
                    x2,
                    y2,
                ) == Ok::<Tile, TileMapError>(tiles@[row_major(width, x2, y2)]),
        decreases height - y,
    {
        let mut x: u16 = 0;
        while x < width
            invariant
                width == tile_data.width,
                height == tile_data.height,
                y < height,
                x <= width,
                tiles@.len() == y * width + x,
                forall|x2: u16, y2: u16|
                    x2 < width && (y2 < y || (y2 == y && x2 < x)) ==> #[trigger] project_cell(
                        tile_data@,
                        tile_mapping@,
                        x2,
                        y2,
                    ) == Ok::<Tile, TileMapError>(tiles@[row_major(width, x2, y2)]),
            decreases width - x,
        {
            let index = match tile_data.get_sprite_index(x, y) {
                Ok(index) => index,
                Err(error) => {
                    assert(is_first_failure(tile_data@, tile_mapping@, x, y, error));
                    return Err(error);
                },
            };
            let sprite_index = match tile_mapping.get(&index) {
                Some(slot) => *slot,
                None => {
                    let error = TileMapError::UnmappedSprite { x, y, index };
                    assert(is_first_failure(tile_data@, tile_mapping@, x, y, error));
                    return Err(error);
                },
            };
            let tile = Tile { point: (x as u32, y as u32), sprite_index };
            proof {
                assert forall|x2: u16, y2: u16|
                    x2 < width && (y2 < y || (y2 == y && x2 < x + 1)) implies #[trigger] project_cell(
                    tile_data@,
                    tile_mapping@,
                    x2,
                    y2,
                ) == Ok::<Tile, TileMapError>(tiles@.push(tile)[row_major(width, x2, y2)]) by {
                    if y2 == y && x2 == x {
                    } else {
                        lemma_row_major_order(width, x2, y2, x, y);
                    }
                }
            }
            tiles.push(tile);
            x += 1;
        }
        proof {
            assert((y + 1) * width == y * width + width) by (nonlinear_arith);
        }
        y += 1;
    }
    proof {
        assert(y * width == width * height) by (nonlinear_arith)
            requires
                y == height,
        ;
    }
    Ok(DenseTilemap { width: width as u32, height: height as u32, tiles })
}

/// The projection is determined by the map and the mapping: two
/// projections of one map under one mapping are the same sequence, and two
/// first failures are the same cell with the same error.
pub proof fn lemma_projection_is_determined(
    map: TileMapView,
    mapping: Map<usize, usize>,
    first: Seq<Tile>,
    second: Seq<Tile>,
)
    requires
        is_projection(map, mapping, first),
        is_projection(map, mapping, second),
    ensures
        first == second,
{
    assert forall|place: int| 0 <= place < first.len() implies first[place] == second[place] by {
        lemma_cell_of_place(map.width, map.height, place);
        let x = (place % (map.width as int)) as u16;
        let y = (place / (map.width as int)) as u16;
        assert(project_cell(map, mapping, x, y) == Ok::<Tile, TileMapError>(
            first[row_major(map.width, x, y)],
        ));
        assert(project_cell(map, mapping, x, y) == Ok::<Tile, TileMapError>(
            second[row_major(map.width, x, y)],
        ));
    }
    assert(first =~= second);
}

/// A map has at most one first failure under a mapping, and none if it has
/// a projection.
pub proof fn lemma_first_failure_is_determined(
    map: TileMapView,
    mapping: Map<usize, usize>,
    x1: u16,
    y1: u16,
    error1: TileMapError,
    x2: u16,
    y2: u16,
    error2: TileMapError,
)
    requires
        is_first_failure(map, mapping, x1, y1, error1),
        is_first_failure(map, mapping, x2, y2, error2),
    ensures
        (x1, y1) == (x2, y2),
        error1 == error2,
        forall|tiles: Seq<Tile>| !is_projection(map, mapping, tiles),
{
    if y1 < y2 || (y1 == y2 && x1 < x2) {
        assert(project_cell(map, mapping, x1, y1) is Ok);
    }
    if y2 < y1 || (y2 == y1 && x2 < x1) {
        assert(project_cell(map, mapping, x2, y2) is Ok);
    }
    assert forall|tiles: Seq<Tile>| !is_projection(map, mapping, tiles) by {
        if is_projection(map, mapping, tiles) {
            assert(project_cell(map, mapping, x1, y1) is Ok);
        }
    }
}

/// `mapping` binds each of the first `slots.len()` catalog indices, and no
/// other, to its slot.
pub open spec fn is_atlas_mapping(slots: Seq<usize>, mapping: Map<usize, usize>) -> bool {
    &&& forall|index: usize| #[trigger] mapping.contains_key(index) <==> index < slots.len()
    &&& forall|index: usize| index < slots.len() ==> #[trigger] mapping[index] == slots[index as int]
}

/// The atlas mapping of a catalog whose entries were packed into the atlas
/// slots `slots`, in catalog order: catalog index `i` is bound to
/// `slots[i]`.
pub fn atlas_mapping(slots: &Vec<usize>) -> (mapping: HashMap<usize, usize>)
    ensures
        is_atlas_mapping(slots@, mapping@),
{
    let mut mapping: HashMap<usize, usize> = HashMap::new();
    let mut index: usize = 0;
    while index < slots.len()
        invariant
            index <= slots@.len(),
            forall|other: usize| #[trigger] mapping@.contains_key(other) <==> other < index,
            forall|other: usize| other < index ==> #[trigger] mapping@[other] == slots@[other as int],
        decreases slots@.len() - index,
    {
        mapping.insert(index, slots[index]);
        index += 1;
    }
    mapping
}

/// Under a mapping that binds every index of the catalog, a cell fails to
/// project only if the catalog does not hold its index: no sprite is
/// unmapped.
pub proof fn lemma_whole_catalog_is_mapped(
    map: TileMapView,
    mapping: Map<usize, usize>,
    slots: Seq<usize>,
    x: u16,
    y: u16,
)
    requires
        is_atlas_mapping(slots, mapping),
        slots.len() == map.sprites.len(),
    ensures
        match map.lookup(x, y) {
            Ok(index) => project_cell(map, mapping, x, y) == Ok::<Tile, TileMapError>(
                Tile { point: (x as u32, y as u32), sprite_index: slots[index as int] },
            ),
            Err(error) => project_cell(map, mapping, x, y) == Err::<Tile, TileMapError>(error),
        },
{
    if let Ok(index) = map.lookup(x, y) {
        assert(mapping.contains_key(index));
        assert(mapping[index] == slots[index as int]);
    }
}

} // verus!
