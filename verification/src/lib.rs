//! A fixed-size, multi-layer 2D tile grid.
//!
//! A [`TileMap`] stores unsigned 32-bit tile identifiers in row-major order
//! across a fixed number of layers, offers bounds-checked access by
//! coordinate and layer index, and encodes its full state to a deterministic
//! byte stream from which it can be reconstructed exactly.

pub mod codec;
pub mod grid;
pub mod model;

pub use grid::TileMap;
pub use grid::TileMapError;
