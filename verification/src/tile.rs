//! Tile addresses on a tile matrix grid.

use vstd::prelude::*;

verus! {

/// TileMatrixSet X,Y,Z tile indices.
///
/// `x` is the 0-based column, `y` the 0-based row, and `z` the zoom level
/// (the numeric identifier of a tile matrix).
#[derive(Debug, Clone, Copy, PartialEq, Eq, Structural)]
pub struct Tile {
    /// horizontal index.
    pub x: u64,
    /// vertical index.
    pub y: u64,
    /// zoom level.
    pub z: u8,
}

impl Tile {
    /// Create a new Tile.
    pub fn new(x: u64, y: u64, z: u8) -> (t: Tile)
        ensures
            t == (Tile { x, y, z }),
    {
        Tile { x, y, z }
    }
}

} // verus!
