//! Spatial data structures.
pub mod kd_tree;
pub mod roi;
