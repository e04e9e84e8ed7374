//! The tree that is shown: every node owns its children.

use crate::model::{Descriptor, Key};
use vstd::prelude::*;
use vstd::string::*;

verus! {

/// The mathematical value of a node with all that is below it.
pub struct Tree {
    pub descriptor: Key,
    pub version: Seq<char>,
    pub children: Seq<Tree>,
}

/// A node of the tree that is shown: a descriptor, the version it resolves
/// to, and the nodes below it, in order.
#[derive(Debug, PartialEq, Eq)]
pub struct Node {
    pub descriptor: Descriptor,
    pub version: String,
    pub children: Vec<Node>,
}

/// The value of a node.
pub open spec fn tree_of(n: Node) -> Tree
    decreases n, 0int,
{
    Tree {
        descriptor: n.descriptor@,
        version: n.version@,
        children: trees_upto(n.children, n.children@.len() as int),
    }
}

/// The values of the first `k` nodes of `v`.
pub open spec fn trees_upto(v: Vec<Node>, k: int) -> Seq<Tree>
    decreases v, k,
{
    if k <= 0 || k > v@.len() {
        Seq::empty()
    } else {
        trees_upto(v, k - 1).push(tree_of(v@[k - 1]))
    }
}

impl View for Node {
    type V = Tree;

    open spec fn view(&self) -> Tree {
        tree_of(*self)
    }
}

/// The values of a list of nodes.
pub open spec fn trees_of(ns: Seq<Node>) -> Seq<Tree> {
    Seq::new(ns.len(), |i: int| ns[i]@)
}

/// The values of the first `k` nodes are the first `k` of the values.
pub proof fn lemma_trees_upto(v: Vec<Node>, k: int)
    requires
        0 <= k <= v@.len(),
    ensures
        trees_upto(v, k) == trees_of(v@).subrange(0, k),
    decreases k,
{
    if k > 0 {
        lemma_trees_upto(v, k - 1);
    }
}

/// The value of a node holds the values of its children.
pub proof fn lemma_node_view(n: Node)
    ensures
        n@.descriptor == n.descriptor@,
        n@.version == n.version@,
        n@.children == trees_of(n.children@),
{
    lemma_trees_upto(n.children, n.children@.len() as int);
}

} // verus!
