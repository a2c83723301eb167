//! Coordinate-indexed spatial grids and the coordinate algebra that drives
//! them: signed and unsigned 2D points, axial hexagonal points, n-dimensional
//! points, and the sparse and dense grid containers built on top of them.

pub mod grid;
pub mod helper;
pub mod line;
pub mod math;
pub mod num;
pub mod point;
pub mod text;
pub mod tree;

pub use grid::dynamic_2d::Dynamic2DGrid;
pub use grid::hex::HexGrid;
pub use grid::n_dimensional::NDGrid;
pub use grid::static_2d::Static2DGrid;
pub use helper::{find_blank, nl_count, nth_nl, split_blank, string_views, StrExt};
pub use line::{normalize_spec, Line};
pub use math::matrix::Matrix;
pub use math::{
    factorial, gcd, is_prime, is_prime_spec, lcm, n_choose_k, pow, spec_binom, spec_factorial,
    spec_gcd, spec_pow,
};
pub use num::{div_trunc, iabs, idiv, irem, rem_trunc};
pub use point::hex::HexPoint;
pub use point::n_dimensional::NDPoint;
pub use point::signed::Point;
pub use point::unsigned::UPoint;
pub use text::{join_lines, join_text, line_views, max_line_len, split_lines, split_text};
pub use tree::binary::{inorder_of, BinaryTree};
pub use tree::node::TreeNode;
