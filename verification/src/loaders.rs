//! The loader of tile-map assets: which files it claims, and what it makes
//! of their bytes.

use crate::error::DecodeError;
use crate::grammar::decoded_bytes;
use crate::tilemap::{TileMap, TileMapView};
use vstd::prelude::*;

verus! {

/// Loads tile maps from files with the extension `tilemap`.
#[derive(Default)]
pub struct TileMapLoader;

impl TileMapLoader {
    /// The map that the bytes of an asset file hold.
    pub fn load(&self, bytes: &[u8]) -> (asset: Result<TileMap, DecodeError>)
        ensures
            match asset {
                Ok(map) => decoded_bytes(bytes@) == Ok::<TileMapView, DecodeError>(map@),
                Err(error) => decoded_bytes(bytes@) == Err::<TileMapView, DecodeError>(error),
            },
    {
        TileMap::from_bytes(bytes)
    }

    /// The file extensions that this loader claims: `tilemap` and no other.
    pub fn extensions(&self) -> (claimed: &'static [&'static str])
        ensures
            claimed@.len() == 1,
            claimed@[0]@ == "tilemap"@,
    {
        &["tilemap"]
    }
}

} // verus!
