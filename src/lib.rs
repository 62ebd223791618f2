//! Drainage-network extraction from D8 flow-direction rasters.
//!
//! `tree` labels a raster with main-stem channel paths, traced upstream from
//! the highest-accumulation cells; `compare` scores how well a coarser
//! direction raster reproduces each of those paths.

pub mod codec;
pub mod compare;
pub mod grid;
pub mod tree;
