//! Tile maps for 2D grid worlds: the map model, its text form, and the dense
//! projection of a map onto a texture atlas.
//!
//! - [`tilemap`] holds the model: the sprite catalog, the sparse grid with
//!   its default tile, the navigation graph, and the queries on them.
//! - [`grammar`] defines the text form of a map, [`decode`] and [`encode`]
//!   read and write it, and [`roundtrip`] proves that reading what was
//!   written gives back what was written.
//! - [`projection`] turns a map and an atlas mapping into one tile for each
//!   cell of the grid, in row-major order.
//! - [`loaders`] reads a map from the bytes of an asset file.
//!
//! No function of the library panics: a cell that names a sprite outside
//! the catalog, a sprite without an atlas slot and a malformed text are
//! reported as values of the types in [`error`].

pub mod decode;
pub mod encode;
pub mod error;
pub mod grammar;
pub mod loaders;
pub mod projection;
pub mod roundtrip;
mod strings;
pub mod tilemap;

pub use crate::projection::build_tilemap;
