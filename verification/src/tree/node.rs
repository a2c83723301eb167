//! A binary tree node: a value and two optional child indices into the
//! owning arena.

use vstd::prelude::*;

verus! {

/// One node of the arena: its value and the indices of its children,
/// if any.
#[derive(Clone, Copy, PartialEq, Eq, Structural, Debug)]
pub struct TreeNode {
    pub val: isize,
    pub left: Option<usize>,
    pub right: Option<usize>,
}

impl TreeNode {
    /// A leaf node holding `val`.
    pub fn new(val: isize) -> (n: Self)
        ensures
            n == (TreeNode { val, left: None, right: None }),
    {
        TreeNode { val, left: None, right: None }
    }
}

} // verus!
