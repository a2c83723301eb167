//! A binary search tree over an arena of nodes: smaller values descend
//! left, others right; insertion appends a node and links it from its
//! parent.

use vstd::prelude::*;

verus! {

use crate::tree::node::TreeNode;

/// A binary search tree: an arena of nodes and the index of the root,
/// if any.
pub struct BinaryTree {
    nodes: Vec<TreeNode>,
    root: Option<usize>,
}

/// The in-order value sequence of the subtree rooted at `node`:
/// left subtree, own value, right subtree. Links that do not point
/// strictly forward into the arena are ignored, so the walk always
/// terminates; a well-formed tree has no such links.
pub open spec fn inorder_of(ns: Seq<TreeNode>, node: Option<usize>) -> Seq<isize>
    decreases (match node {
        Some(i) => ns.len() as int - i,
        None => 0int,
    }),
{
    match node {
        None => Seq::empty(),
        Some(i) => {
            if i >= ns.len() {
                Seq::empty()
            } else {
                let n = ns[i as int];
                (match n.left {
                    Some(l) => if i < l < ns.len() {
                        inorder_of(ns, Some(l))
                    } else {
                        Seq::empty()
                    },
                    None => Seq::empty(),
                }) + seq![n.val] + (match n.right {
                    Some(r) => if i < r < ns.len() {
                        inorder_of(ns, Some(r))
                    } else {
                        Seq::empty()
                    },
                    None => Seq::empty(),
                })
            }
        },
    }
}

impl BinaryTree {
    /// The arena of nodes, in insertion order.
    pub closed spec fn node_seq(&self) -> Seq<TreeNode> {
        self.nodes@
    }

    /// The root index, if the tree is nonempty.
    pub closed spec fn root_spec(&self) -> Option<usize> {
        self.root
    }

    /// Well-formedness: the root is in range and every child link
    /// points strictly forward into the arena.
    pub closed spec fn wf(&self) -> bool {
        &&& (self.root matches Some(i) ==> i < self.nodes@.len())
        &&& (forall|i: int|
            0 <= i < self.nodes@.len() ==> ((#[trigger] self.nodes@[i]).left matches Some(l)
                ==> i < l < self.nodes@.len()))
        &&& (forall|i: int|
            0 <= i < self.nodes@.len() ==> ((#[trigger] self.nodes@[i]).right matches Some(r)
                ==> i < r < self.nodes@.len()))
    }

    /// An empty tree.
    pub fn new() -> (t: Self)
        ensures
            t.wf(),
            t.node_seq().len() == 0,
            t.root_spec() is None,
    {
        BinaryTree { nodes: Vec::new(), root: None }
    }

    /// Inserts `val`: the new node is appended to the arena and linked
    /// from the node where the search for `val` fell off the tree.
    /// Every existing node keeps its value; an empty tree makes the new
    /// node the root.
    pub fn insert(&mut self, val: isize)
        requires
            old(self).wf(),
        ensures
            final(self).wf(),
            final(self).node_seq().len() == old(self).node_seq().len() + 1,
            final(self).node_seq().last().val == val,
            forall|i: int|
                0 <= i < old(self).node_seq().len() ==> (#[trigger] final(self).node_seq()[i]).val
                    == old(self).node_seq()[i].val,
            old(self).root_spec() is None ==> final(self).root_spec() == Some(
                old(self).node_seq().len() as usize,
            ),
            old(self).root_spec() is Some ==> final(self).root_spec() == old(self).root_spec(),
    {
        let new_idx = self.nodes.len();
        let root_idx = match self.root {
            None => {
                self.nodes.push(TreeNode { val, left: None, right: None });
                self.root = Some(new_idx);
                return;
            },
            Some(i) => i,
        };
        let n = self.nodes.len();
        let mut cur = root_idx;
        while cur < n
            invariant
                *self == *old(self),
                old(self).root_spec() == Some(root_idx),
                self.wf(),
                n == self.nodes@.len(),
                new_idx == n,
                cur < n,
            decreases n - cur,
        {
            if val < self.nodes[cur].val {
                match self.nodes[cur].left {
                    Some(l) => {
                        cur = l;
                    },
                    None => {
                        let slot = &mut self.nodes[cur];
                        slot.left = Some(new_idx);
                        proof {
                            assert forall|i: int|
                                0 <= i < self.nodes@.len() implies ((
                            #[trigger] self.nodes@[i]).left matches Some(l2) ==> i < l2 <= n) by {
                                if i != cur {
                                    assert(self.nodes@[i] == old(self).nodes@[i]);
                                }
                            }
                        }
                        self.nodes.push(TreeNode { val, left: None, right: None });
                        return;
                    },
                }
            } else {
                match self.nodes[cur].right {
                    Some(r) => {
                        cur = r;
                    },
                    None => {
                        let slot = &mut self.nodes[cur];
                        slot.right = Some(new_idx);
                        proof {
                            assert forall|i: int|
                                0 <= i < self.nodes@.len() implies ((
                            #[trigger] self.nodes@[i]).right matches Some(r2) ==> i < r2 <= n) by {
                                if i != cur {
                                    assert(self.nodes@[i] == old(self).nodes@[i]);
                                }
                            }
                        }
                        self.nodes.push(TreeNode { val, left: None, right: None });
                        return;
                    },
                }
            }
        }
        proof {
            assert(false);
        }
    }

    /// The in-order value sequence of the subtree rooted at `node`.
    pub fn inorder_from(&self, node: Option<usize>) -> (out: Vec<isize>)
        requires
            self.wf(),
            node matches Some(i) ==> i < self.node_seq().len(),
        ensures
            out@ == inorder_of(self.node_seq(), node),
        decreases (match node {
            Some(i) => self.node_seq().len() as int - i,
            None => 0int,
        }),
    {
        match node {
            None => Vec::new(),
            Some(i) => {
                let n = &self.nodes[i];
                let left = n.left;
                let right = n.right;
                let v = n.val;
                let mut out = self.inorder_from(left);
                out.push(v);
                let mut rv = self.inorder_from(right);
                out.append(&mut rv);
                out
            },
        }
    }

    /// The in-order value sequence of the whole tree.
    pub fn inorder(&self) -> (out: Vec<isize>)
        requires
            self.wf(),
        ensures
            out@ == inorder_of(self.node_seq(), self.root_spec()),
    {
        let root = self.root;
        self.inorder_from(root)
    }
}

} // verus!
