//! Colocalization analysis of two images of the same shape.
pub mod neighborhood;
pub mod saca;
pub mod significance;
