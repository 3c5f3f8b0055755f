//! The index arithmetic of padding and tiling.
pub mod pad;
pub mod tile;
