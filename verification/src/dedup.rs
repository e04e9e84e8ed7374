//! The second pass over the forest: a descriptor is opened once.
//!
//! The walk goes depth first, the children of a node in their order, and
//! copies each node it meets. Below a descriptor that it has opened before it
//! copies nothing, unless the node has a single child and that child has no
//! children: such a child is copied wherever it is met, so that the queried
//! package stays in sight below every branch that reaches it.

use crate::forest::{Forest, ForestView};
use crate::model::{Descriptor, Key};
use crate::tree::{lemma_node_view, trees_of, Node, Tree};
use vstd::prelude::*;
use vstd::string::*;

verus! {

/// What a part of the walk gives: the copies, and the descriptors it opened.
pub struct Pruned {
    pub trees: Seq<Tree>,
    pub opened: Set<Key>,
}

/// Whether the node at `id` has a single child, which has no children.
pub open spec fn guards_leaf(f: ForestView, id: int) -> bool {
    &&& f.nodes[id].children.len() == 1
    &&& f.nodes[id].children[0] < f.nodes.len()
    &&& f.nodes[f.nodes[id].children[0] as int].children.len() == 0
}

/// How many of the first `n` nodes have a descriptor that is not in `seen`.
pub open spec fn fresh(f: ForestView, seen: Set<Key>, n: int) -> nat
    decreases n,
{
    if n <= 0 {
        0
    } else {
        fresh(f, seen, n - 1) + (if seen.contains(f.nodes[n - 1].descriptor) {
            0nat
        } else {
            1nat
        })
    }
}

/// 2 where one of `ids` has children, 1 where none has, 0 where there is none.
pub open spec fn rank(f: ForestView, ids: Seq<usize>) -> nat {
    if exists|k: int|
        0 <= k < ids.len() && ids[k] < f.nodes.len() && f.nodes[ids[k] as int].children.len() > 0 {
        2
    } else if ids.len() > 0 {
        1
    } else {
        0
    }
}

/// The more has been opened, the fewer nodes are fresh.
pub proof fn lemma_fresh_grows(f: ForestView, seen: Set<Key>, more: Set<Key>, n: int)
    requires
        seen.subset_of(more),
    ensures
        fresh(f, more, n) <= fresh(f, seen, n),
    decreases n,
{
    if n > 0 {
        lemma_fresh_grows(f, seen, more, n - 1);
    }
}

/// Opening the descriptor of a fresh node leaves fewer fresh nodes.
pub proof fn lemma_fresh_opened(f: ForestView, seen: Set<Key>, id: int, n: int)
    requires
        0 <= id < n <= f.nodes.len(),
        !seen.contains(f.nodes[id].descriptor),
    ensures
        fresh(f, seen.insert(f.nodes[id].descriptor), n) < fresh(f, seen, n),
    decreases n,
{
    let more = seen.insert(f.nodes[id].descriptor);
    if id == n - 1 {
        lemma_fresh_grows(f, seen, more, n - 1);
    } else {
        lemma_fresh_opened(f, seen, id, n - 1);
    }
}

/// The copies of the nodes at `ids` with what the walk copies below them, and
/// the descriptors that it opens on the way, when it has opened `seen` before.
pub open spec fn prune(f: ForestView, ids: Seq<usize>, seen: Set<Key>) -> Pruned
    decreases fresh(f, seen, f.nodes.len() as int), rank(f, ids), ids.len(),
    via prune_ends
{
    if ids.len() == 0 {
        Pruned { trees: Seq::empty(), opened: Set::empty() }
    } else if ids[0] >= f.nodes.len() {
        prune(f, ids.drop_first(), seen)
    } else {
        let node = f.nodes[ids[0] as int];
        let below = if guards_leaf(f, ids[0] as int) || !seen.contains(node.descriptor) {
            let inner = prune(f, node.children, seen.insert(node.descriptor));
            Pruned { trees: inner.trees, opened: inner.opened.insert(node.descriptor) }
        } else {
            Pruned { trees: Seq::empty(), opened: Set::empty() }
        };
        let rest = prune(f, ids.drop_first(), seen.union(below.opened));
        Pruned {
            trees: seq![
                Tree { descriptor: node.descriptor, version: node.version, children: below.trees },
            ] + rest.trees,
            opened: below.opened.union(rest.opened),
        }
    }
}

#[via_fn]
proof fn prune_ends(f: ForestView, ids: Seq<usize>, seen: Set<Key>) {
    let n = f.nodes.len() as int;
    if ids.len() != 0 {
        if ids[0] < f.nodes.len() {
            let id = ids[0] as int;
            let node = f.nodes[id];
            if guards_leaf(f, id) || !seen.contains(node.descriptor) {
                if seen.contains(node.descriptor) {
                    assert(seen.insert(node.descriptor) =~= seen);
                } else {
                    lemma_fresh_opened(f, seen, id, n);
                }
            }
        }
        assert forall|more: Set<Key>| fresh(f, #[trigger] seen.union(more), n) <= fresh(
            f,
            seen,
            n,
        ) by {
            lemma_fresh_grows(f, seen, seen.union(more), n);
        }
    }
}

/// The descriptors of the nodes that are flagged.
pub open spec fn flagged(f: ForestView, flags: Seq<bool>) -> Set<Key> {
    Set::new(
        |d: Key| exists|i: int| 0 <= i < f.nodes.len() && i < flags.len() && flags[i] && f.nodes[i].descriptor == d,
    )
}

/// The nodes at `ids` from `from` on.
pub open spec fn ids_from(ids: Seq<usize>, from: int) -> Seq<usize> {
    ids.subrange(from, ids.len() as int)
}

/// Whether the node at `id` has a single child, which has no children.
fn is_leaf_guard(f: &Forest, id: usize) -> (r: bool)
    requires
        f.wf(),
        id < f@.nodes.len(),
    ensures
        r == guards_leaf(f@, id as int),
{
    proof {
        f.lemma_wf();
    }
    let kids = f.children_at(id);
    if kids.len() != 1 {
        return false;
    }
    f.children_at(kids[0]).len() == 0
}

/// Copies the nodes at `ids` with what the walk copies below them. `seen`
/// flags the nodes whose descriptor has been opened.
fn prune_list(f: &Forest, ids: &Vec<usize>, seen: &mut Vec<bool>) -> (out: Vec<Node>)
    requires
        f.wf(),
        old(seen).len() == f@.nodes.len(),
        forall|k: int| 0 <= k < ids.len() ==> (#[trigger] ids[k]) < f@.nodes.len(),
    ensures
        final(seen).len() == f@.nodes.len(),
        trees_of(out@) == prune(f@, ids@, flagged(f@, old(seen)@)).trees,
        flagged(f@, final(seen)@) == flagged(f@, old(seen)@).union(
            prune(f@, ids@, flagged(f@, old(seen)@)).opened,
        ),
    decreases fresh(f@, flagged(f@, old(seen)@), f@.nodes.len() as int), rank(f@, ids@), ids.len(),
{
    let ghost fv = f@;
    let ghost n = fv.nodes.len() as int;
    let ghost seen0 = flagged(fv, seen@);
    let ghost goal = prune(fv, ids@, seen0);
    let ghost mut opened: Set<Key> = Set::empty();
    proof {
        f.lemma_wf();
        assert(ids_from(ids@, 0) =~= ids@);
    }
    let mut out: Vec<Node> = Vec::new();
    let mut at: usize = 0;
    while at < ids.len()
        invariant
            at <= ids.len(),
            f.wf(),
            fv == f@,
            fv.wf(),
            n == fv.nodes.len(),
            seen.len() == n,
            forall|k: int| 0 <= k < ids.len() ==> (#[trigger] ids[k]) < fv.nodes.len(),
            seen0 == flagged(fv, old(seen)@),
            seen0.subset_of(flagged(fv, seen@)),
            flagged(fv, seen@) == seen0.union(opened),
            goal == prune(fv, ids@, seen0),
            trees_of(out@) + prune(fv, ids_from(ids@, at as int), flagged(fv, seen@)).trees
                == goal.trees,
            opened.union(prune(fv, ids_from(ids@, at as int), flagged(fv, seen@)).opened)
                == goal.opened,
            fresh(fv, flagged(fv, seen@), n) <= fresh(fv, seen0, n),
        decreases ids.len() - at,
    {
        let id: usize = ids[at];
        let ghost now = flagged(fv, seen@);
        let ghost left = ids_from(ids@, at as int);
        let ghost node = fv.nodes[id as int];
        proof {
            assert(left.drop_first() =~= ids_from(ids@, at + 1));
            assert(now.contains(node.descriptor) == seen[id as int]) by {
                if now.contains(node.descriptor) {
                    let i = choose|i: int|
                        0 <= i < fv.nodes.len() && i < seen@.len() && seen@[i] && fv.nodes[i].descriptor
                            == node.descriptor;
                    assert(fv.descriptors()[i] == fv.descriptors()[id as int]);
                }
            }
        }
        let guard = is_leaf_guard(f, id);
        let mut kids: Vec<Node> = Vec::new();
        let ghost mut below = Pruned { trees: Seq::empty(), opened: Set::empty() };
        if guard || !seen[id] {
            let ghost was = seen@;
            seen.set(id, true);
            proof {
                assert(flagged(fv, seen@) =~= now.insert(node.descriptor)) by {
                    assert forall|d: Key| now.insert(node.descriptor).contains(
                        d,
                    ) implies flagged(fv, seen@).contains(d) by {
                        if d == node.descriptor {
                            assert(seen@[id as int]);
                        } else {
                            let i = choose|i: int|
                                0 <= i < fv.nodes.len() && i < was.len() && was[i]
                                    && fv.nodes[i].descriptor == d;
                            assert(seen@[i]);
                        }
                    }
                }
                if now.contains(node.descriptor) {
                    assert(now.insert(node.descriptor) =~= now);
                } else {
                    lemma_fresh_opened(fv, now, id as int, n);
                }
            }
            let row = f.children_at(id);
            kids = prune_list(f, row, seen);
            proof {
                let inner = prune(fv, node.children, now.insert(node.descriptor));
                below = Pruned { trees: inner.trees, opened: inner.opened.insert(node.descriptor) };
                assert(flagged(fv, seen@) =~= now.union(below.opened));
            }
        } else {
            proof {
                assert(flagged(fv, seen@) =~= now.union(below.opened));
            }
        }
        let fresh_node = Node {
            descriptor: f.descriptor_at(id).clone(),
            version: f.version_at(id).clone(),
            children: kids,
        };
        proof {
            lemma_node_view(fresh_node);
            lemma_fresh_grows(fv, seen0, flagged(fv, seen@), n);
            opened = opened.union(below.opened);
        }
        out.push(fresh_node);
        at = at + 1;
    }
    out
}

/// The descriptor and the version of the node above the roots: all empty.
pub open spec fn above_roots(children: Seq<Tree>) -> Tree {
    Tree { descriptor: (Seq::empty(), Seq::empty()), version: Seq::empty(), children }
}

/// The forest with every descriptor opened once: a node without a name,
/// whose children are the copies of the roots with what the walk copies
/// below them.
pub fn build_tree_with_no_duplicates(forest: &Forest) -> (root: Node)
    requires
        forest.wf(),
    ensures
        root@ == above_roots(prune(forest@, forest@.roots, Set::empty()).trees),
{
    proof {
        forest.lemma_wf();
    }
    let n: usize = forest.len();
    let mut seen: Vec<bool> = Vec::new();
    let mut i: usize = 0;
    while i < n
        invariant
            i <= n,
            seen.len() == i,
            forall|k: int| 0 <= k < i ==> !seen[k],
        decreases n - i,
    {
        seen.push(false);
        i = i + 1;
    }
    proof {
        assert(flagged(forest@, seen@) =~= Set::<Key>::empty());
    }
    let kids = prune_list(forest, forest.roots(), &mut seen);
    let root = Node { descriptor: Descriptor::new("", ""), version: String::new(), children: kids };
    proof {
        lemma_node_view(root);
        reveal_strlit("");
        assert(""@ =~= Seq::<char>::empty());
    }
    root
}

} // verus!
