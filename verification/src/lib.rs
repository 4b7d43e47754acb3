//! Edge-constrained tile grids rendered as a two-color raster image.
//!
//! A tile is a 4-bit code, one bit per edge (North, East, South, West),
//! telling which edges carry a connector.  The library computes which codes
//! are compatible with a neighbour along a shared edge, grows a full grid of
//! mutually compatible tiles, rasterizes each tile into a pixel block, and
//! serializes the pixel buffer to a binary image container.

use vstd::prelude::*;

pub mod grid;
pub mod ppm;
pub mod raster;
pub mod tile;

verus! {

/// Failures the library can report to a caller.
#[derive(Clone, Copy, Debug, PartialEq, Eq, Structural)]
pub enum TileError {
    /// An edge index or tile code outside its valid range.
    InvalidArgument,
    /// No candidate tile satisfies the neighbour constraints.
    ConstraintExhausted,
}

} // verus!
