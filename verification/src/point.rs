//! The coordinate types: signed 2D, unsigned (wrapping) 2D, axial
//! hexagonal, and n-dimensional points.

pub mod hex;
pub mod n_dimensional;
pub mod signed;
pub mod unsigned;
