//! Image-analysis primitives for fluorescence microscopy, on exact integer
//! arithmetic: weighted rank statistics, adaptive-neighbourhood
//! colocalization, and the index arithmetic of padding and tiling.
pub mod colocalization;
pub mod error;
pub mod histogram;
pub mod image;
pub mod overlay;
pub mod spatial;
pub mod statistics;
pub mod threshold;
pub mod transform;
