//! The grid containers: sparse coordinate-keyed grids over the signed,
//! hexagonal, and n-dimensional points, and the fixed-size dense grid
//! over unsigned coordinates.

pub mod dynamic_2d;
pub mod hex;
pub mod n_dimensional;
pub mod static_2d;
pub mod model;
