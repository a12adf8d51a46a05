//! The Japanese standard grid square (JIS mesh) system over the fixed national
//! reference area: per-level cell sizes, mesh codes, exact cell corners,
//! bounding-box clipping and a row-major walk over the clipped grid.
//!
//! Every coordinate is kept exact: a cell of level `L` spans `1 / n(L)` degrees of
//! longitude and `2 / (3 n(L))` degrees of latitude, where `n(L)` is the number of
//! cells per degree of longitude.

pub mod code;
pub mod decimal;
pub mod extent;
pub mod geometry;
pub mod grid;
pub mod level;
