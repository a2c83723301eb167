//! A binary search tree held in an arena: nodes live in a vector and
//! child links are optional indices, so no shared mutable aliasing is
//! needed and every link points strictly forward.

pub mod binary;
pub mod node;
