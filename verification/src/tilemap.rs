//! The tile-map model: a sprite catalog, a sparse grid of catalog indices
//! with a default, and a navigation-graph overlay.

use crate::decode::{characters, read_map};
use crate::encode::write_map;
use crate::error::{DecodeError, TileMapError};
use crate::grammar::{decoded, decoded_bytes, written_map};
use crate::roundtrip::lemma_round_trip;
use crate::strings::utf8_text;
use std::collections::BTreeMap;
use vstd::prelude::*;

verus! {

/// One entry of the sprite catalog.
#[derive(Debug, PartialEq, Eq)]
pub struct TileDefinition {
    /// Names the image asset; resolved by whoever loads the images.
    pub path: String,
    /// Traversal cost, stored and transported for pathfinding consumers.
    pub cost: i8,
}

/// The mathematical value of a [`TileDefinition`].
pub struct TileDefinitionView {
    pub path: Seq<char>,
    pub cost: i8,
}

impl View for TileDefinition {
    type V = TileDefinitionView;

    open spec fn view(&self) -> TileDefinitionView {
        TileDefinitionView { path: self.path@, cost: self.cost }
    }
}

impl Clone for TileDefinition {
    fn clone(&self) -> (copy: TileDefinition)
        ensures
            copy@ == self@,
    {
        TileDefinition { path: self.path.clone(), cost: self.cost }
    }
}

/// A node of the navigation graph laid over the map.
///
/// Nothing is checked about a node: ids may repeat, coordinates may lie
/// outside the grid, and edges may name ids that no node carries.
#[derive(Debug, PartialEq, Eq)]
pub struct NavPoint {
    pub id: u16,
    pub x: u16,
    pub y: u16,
    /// Ids of the nodes reachable from this one, in the author's order.
    pub edges: Vec<u16>,
}

/// The mathematical value of a [`NavPoint`].
pub struct NavPointView {
    pub id: u16,
    pub x: u16,
    pub y: u16,
    pub edges: Seq<u16>,
}

impl View for NavPoint {
    type V = NavPointView;

    open spec fn view(&self) -> NavPointView {
        NavPointView { id: self.id, x: self.x, y: self.y, edges: self.edges@ }
    }
}

impl Clone for NavPoint {
    fn clone(&self) -> (copy: NavPoint)
        ensures
            copy@ == self@,
    {
        NavPoint { id: self.id, x: self.x, y: self.y, edges: self.edges.clone() }
    }
}

impl Default for NavPoint {
    fn default() -> (point: NavPoint)
        ensures
            point@ == (NavPointView { id: 0, x: 0, y: 0, edges: Seq::empty() }),
    {
        NavPoint { id: 0, x: 0, y: 0, edges: Vec::new() }
    }
}

/// A tile map: grid extents, the sprite catalog, the cells that differ from
/// the default, the default itself, and the navigation graph.
///
/// Every combination of field values is a legal map. A cell may name a
/// catalog index that the catalog does not hold; the queries report that as
/// [`TileMapError::IndexOutOfRange`]. Overrides may lie outside the grid;
/// they are kept and never visited by the projection.
#[derive(Debug, PartialEq, Eq)]
pub struct TileMap {
    pub width: u16,
    pub height: u16,
    /// The catalog. A tile is addressed by its position in this sequence.
    pub sprites: Vec<TileDefinition>,
    /// Cells that differ from the default, keyed by `(x, y)`.
    pub tiles: BTreeMap<(u16, u16), usize>,
    /// The catalog index of every cell that `tiles` does not mention.
    pub default_tile: usize,
    pub nav_points: Vec<NavPoint>,
}

/// The values of the entries of a catalog.
pub open spec fn definitions_view(sprites: Seq<TileDefinition>) -> Seq<TileDefinitionView> {
    Seq::new(sprites.len(), |i: int| sprites[i]@)
}

/// The values of the nodes of a navigation graph.
pub open spec fn nav_points_view(points: Seq<NavPoint>) -> Seq<NavPointView> {
    Seq::new(points.len(), |i: int| points[i]@)
}

/// The mathematical value of a [`TileMap`].
pub struct TileMapView {
    pub width: u16,
    pub height: u16,
    pub sprites: Seq<TileDefinitionView>,
    pub tiles: Map<(u16, u16), usize>,
    pub default_tile: usize,
    pub nav_points: Seq<NavPointView>,
}

impl TileMapView {
    /// The map that `TileMap::new` builds.
    pub open spec fn empty(width: u16, height: u16) -> TileMapView {
        TileMapView {
            width,
            height,
            sprites: Seq::empty(),
            tiles: Map::empty(),
            default_tile: 0,
            nav_points: Seq::empty(),
        }
    }

    /// The catalog index that cell `(x, y)` names: its override if it has
    /// one, the default otherwise. The index need not lie in the catalog.
    pub open spec fn sprite_index_at(self, x: u16, y: u16) -> usize {
        if self.tiles.contains_key((x, y)) {
            self.tiles[(x, y)]
        } else {
            self.default_tile
        }
    }

    /// The checked lookup: the index that the cell names if the catalog
    /// holds it, the error otherwise.
    pub open spec fn lookup(self, x: u16, y: u16) -> Result<usize, TileMapError> {
        let index = self.sprite_index_at(x, y);
        if index < self.sprites.len() {
            Ok(index)
        } else {
            Err(TileMapError::IndexOutOfRange { index, len: self.sprites.len() as usize })
        }
    }

    /// This map with cell `(x, y)` overridden by `sprite_index`.
    pub open spec fn set(self, x: u16, y: u16, sprite_index: usize) -> TileMapView {
        TileMapView { tiles: self.tiles.insert((x, y), sprite_index), ..self }
    }
}

impl View for TileMap {
    type V = TileMapView;

    open spec fn view(&self) -> TileMapView {
        TileMapView {
            width: self.width,
            height: self.height,
            sprites: definitions_view(self.sprites@),
            tiles: self.tiles@,
            default_tile: self.default_tile,
            nav_points: nav_points_view(self.nav_points@),
        }
    }
}

impl Clone for TileMap {
    fn clone(&self) -> (copy: TileMap)
        ensures
            copy@ == self@,
    {
        let mut sprites: Vec<TileDefinition> = Vec::new();
        let mut next: usize = 0;
        while next < self.sprites.len()
            invariant
                next <= self.sprites@.len(),
                sprites@.len() == next,
                forall|i: int| 0 <= i < next ==> (#[trigger] sprites@[i])@ == self.sprites@[i]@,
            decreases self.sprites@.len() - next,
        {
            sprites.push(self.sprites[next].clone());
            next += 1;
        }
        let mut nav_points: Vec<NavPoint> = Vec::new();
        let mut next: usize = 0;
        while next < self.nav_points.len()
            invariant
                next <= self.nav_points@.len(),
                nav_points@.len() == next,
                forall|i: int|
                    0 <= i < next ==> (#[trigger] nav_points@[i])@ == self.nav_points@[i]@,
            decreases self.nav_points@.len() - next,
        {
            nav_points.push(self.nav_points[next].clone());
            next += 1;
        }
        let copy = TileMap {
            width: self.width,
            height: self.height,
            sprites,
            tiles: self.tiles.clone(),
            default_tile: self.default_tile,
            nav_points,
        };
        assert(copy@.sprites =~= self@.sprites);
        assert(copy@.nav_points =~= self@.nav_points);
        copy
    }
}

impl Default for TileMap {
    fn default() -> (map: TileMap)
        ensures
            map@ == TileMapView::empty(0, 0),
    {
        TileMap::new(0, 0)
    }
}

impl TileMap {
    /// An empty map of the given extents: no catalog, no overrides, no
    /// navigation graph, default tile 0.
    ///
    /// The catalog is empty, so no cell resolves until an entry is pushed.
    pub fn new(width: u16, height: u16) -> (map: TileMap)
        ensures
            map@ == TileMapView::empty(width, height),
    {
        let map = TileMap {
            width,
            height,
            tiles: BTreeMap::new(),
            nav_points: Vec::new(),
            default_tile: 0,
            sprites: Vec::new(),
        };
        assert(map@.sprites =~= Seq::empty());
        assert(map@.nav_points =~= Seq::empty());
        map
    }

    /// A copy of the catalog entry of cell `(x, y)`.
    pub fn get(&self, x: u16, y: u16) -> (entry: Result<TileDefinition, TileMapError>)
        ensures
            match entry {
                Ok(definition) => self@.lookup(x, y) is Ok && definition@
                    == self@.sprites[self@.sprite_index_at(x, y) as int],
                Err(error) => self@.lookup(x, y) == Err::<usize, TileMapError>(error),
            },
    {
        match self.get_sprite_index(x, y) {
            Ok(index) => Ok(self.sprites[index].clone()),
            Err(error) => Err(error),
        }
    }

    /// The catalog index of cell `(x, y)`: its override if it has one, the
    /// default otherwise; an error if the catalog does not hold that index.
    pub fn get_sprite_index(&self, x: u16, y: u16) -> (index: Result<usize, TileMapError>)
        ensures
            index == self@.lookup(x, y),
            index is Ok <==> self@.sprite_index_at(x, y) < self.sprites@.len(),
            !self.tiles@.contains_key((x, y)) && index is Ok ==> index == Ok::<
                usize,
                TileMapError,
            >(self.default_tile),
    {
        let named = match self.tiles.get(&(x, y)) {
            Some(tile) => *tile,
            None => self.default_tile,
        };
        if named < self.sprites.len() {
            Ok(named)
        } else {
            Err(TileMapError::IndexOutOfRange { index: named, len: self.sprites.len() })
        }
    }

    /// Reads a map from its text form.
    ///
    /// Blanks between tokens and a comma behind the last member or item are
    /// accepted; anything else that the writer would not have written is
    /// an error, which carries the position of the first such character.
    pub fn from_str(data: &str) -> (map: Result<TileMap, DecodeError>)
        ensures
            match map {
                Ok(read) => decoded(data@) == Ok::<TileMapView, DecodeError>(read@),
                Err(error) => decoded(data@) == Err::<TileMapView, DecodeError>(error),
            },
    {
        let text = characters(data);
        match read_map(&text) {
            Ok(read) => Ok(read),
            Err(offset) => Err(DecodeError::Malformed { offset }),
        }
    }

    /// Reads a map from the bytes of its text form, as they lie in a file.
    pub fn from_bytes(bytes: &[u8]) -> (map: Result<TileMap, DecodeError>)
        ensures
            match map {
                Ok(read) => decoded_bytes(bytes@) == Ok::<TileMapView, DecodeError>(read@),
                Err(error) => decoded_bytes(bytes@) == Err::<TileMapView, DecodeError>(error),
            },
    {
        match utf8_text(bytes) {
            Some(data) => {
                proof {
                    vstd::utf8::encode_utf8_decode_utf8(data@);
                }
                TileMap::from_str(data)
            },
            None => Err(DecodeError::InvalidUtf8),
        }
    }

    /// Writes the map in its text form: every member, the catalog and the
    /// navigation graph in their order, the tile table by rising `x` and,
    /// within one `x`, rising `y`. Equal maps give equal texts, and reading
    /// the text gives back a map equal to this one.
    pub fn to_string(&self) -> (text: String)
        ensures
            text@ == written_map(self@),
            decoded(text@) == Ok::<TileMapView, DecodeError>(self@),
    {
        proof {
            lemma_round_trip(self@);
        }
        write_map(self)
    }

    /// Overrides cell `(x, y)` with `sprite_index`, whatever it held before.
    ///
    /// The index is not held against the catalog: one that the catalog does
    /// not hold shows as an error when the cell is next queried.
    pub fn set(&mut self, x: u16, y: u16, sprite_index: usize)
        ensures
            final(self)@ == old(self)@.set(x, y, sprite_index),
            final(self)@.sprite_index_at(x, y) == sprite_index,
    {
        self.tiles.insert((x, y), sprite_index);
    }
}

/// A cell without an override names the default tile: its lookup gives the
/// default where the catalog holds it, and reports the default as out of
/// range where it does not.
pub proof fn lemma_default_fallback(map: TileMapView, x: u16, y: u16)
    requires
        !map.tiles.contains_key((x, y)),
    ensures
        map.sprite_index_at(x, y) == map.default_tile,
        map.default_tile < map.sprites.len() ==> map.lookup(x, y) == Ok::<usize, TileMapError>(
            map.default_tile,
        ),
        map.default_tile >= map.sprites.len() ==> map.lookup(x, y) == Err::<usize, TileMapError>(
            TileMapError::IndexOutOfRange {
                index: map.default_tile,
                len: map.sprites.len() as usize,
            },
        ),
{
}

/// After `set(x, y, i)` the cell `(x, y)` names `i`, whatever it named
/// before: its lookup gives `i` where the catalog holds `i`, and reports
/// `i` as out of range where it does not. Every other cell, the catalog and
/// the rest of the map are as they were.
pub proof fn lemma_set_overrides(map: TileMapView, x: u16, y: u16, sprite_index: usize)
    ensures
        map.set(x, y, sprite_index).sprite_index_at(x, y) == sprite_index,
        sprite_index < map.sprites.len() ==> map.set(x, y, sprite_index).lookup(x, y) == Ok::<
            usize,
            TileMapError,
        >(sprite_index),
        sprite_index >= map.sprites.len() ==> map.set(x, y, sprite_index).lookup(x, y) == Err::<
            usize,
            TileMapError,
        >(TileMapError::IndexOutOfRange { index: sprite_index, len: map.sprites.len() as usize }),
        forall|x2: u16, y2: u16|
            (x2, y2) != (x, y) ==> #[trigger] map.set(x, y, sprite_index).lookup(x2, y2)
                == map.lookup(x2, y2),
{
}

} // verus!
