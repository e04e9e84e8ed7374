//! The second pass on trees: what it gives when it is run on trees that own
//! their children, and that what it has given, it gives again.

use crate::dedup::{
    fresh, guards_leaf, lemma_fresh_grows, lemma_fresh_opened, prune, rank, Pruned,
};
use crate::forest::ForestView;
use crate::index::Interner;
use crate::model::Key;
use crate::tree::{lemma_node_view, trees_of, Node, Tree};
use vstd::prelude::*;
use vstd::string::*;

verus! {

/// Whether the tree has a single child, which has no children.
pub open spec fn leaf_guard(t: Tree) -> bool {
    t.children.len() == 1 && t.children[0].children.len() == 0
}

/// The copies of the first `n` of `ts` with what the walk copies below them,
/// and the descriptors that it opens on the way, when it has opened `seen`
/// before.
pub open spec fn pruned_trees(ts: Seq<Tree>, n: int, seen: Set<Key>) -> Pruned
    decreases ts, n,
{
    if n <= 0 || n > ts.len() {
        Pruned { trees: Seq::empty(), opened: Set::empty() }
    } else {
        let before = pruned_trees(ts, n - 1, seen);
        let below = pruned_below(ts[n - 1], seen.union(before.opened));
        Pruned {
            trees: before.trees.push(
                Tree {
                    descriptor: ts[n - 1].descriptor,
                    version: ts[n - 1].version,
                    children: below.trees,
                },
            ),
            opened: before.opened.union(below.opened),
        }
    }
}

/// What the walk copies below `t`, and what it opens there and with `t`.
pub open spec fn pruned_below(t: Tree, seen: Set<Key>) -> Pruned
    decreases t, 0int,
{
    if leaf_guard(t) || !seen.contains(t.descriptor) {
        let inner = pruned_trees(t.children, t.children.len() as int, seen.insert(t.descriptor));
        Pruned { trees: inner.trees, opened: inner.opened.insert(t.descriptor) }
    } else {
        Pruned { trees: Seq::empty(), opened: Set::empty() }
    }
}

/// The copy of `t` with what the walk copies below it.
pub open spec fn pruned_copy(t: Tree, seen: Set<Key>) -> Tree {
    Tree { descriptor: t.descriptor, version: t.version, children: pruned_below(t, seen).trees }
}

/// The walk gives one copy for each tree.
pub proof fn lemma_pruned_len(ts: Seq<Tree>, n: int, seen: Set<Key>)
    requires
        0 <= n <= ts.len(),
    ensures
        pruned_trees(ts, n, seen).trees.len() == n,
    decreases n,
{
    if n > 0 {
        lemma_pruned_len(ts, n - 1, seen);
    }
}

/// The walk looks at the first `n` trees only.
pub proof fn lemma_pruned_prefix(a: Seq<Tree>, b: Seq<Tree>, n: int, seen: Set<Key>)
    requires
        0 <= n <= a.len(),
    ensures
        pruned_trees(a + b, n, seen) == pruned_trees(a, n, seen),
    decreases n,
{
    if n > 0 {
        lemma_pruned_prefix(a, b, n - 1, seen);
    }
}

/// The walk over two lists, one after the other, is the walk over the first
/// and then, with what that opened, over the second.
pub proof fn lemma_pruned_concat(a: Seq<Tree>, b: Seq<Tree>, n: int, seen: Set<Key>)
    requires
        0 <= n <= b.len(),
    ensures
        pruned_trees(a + b, a.len() + n, seen).trees == pruned_trees(
            a,
            a.len() as int,
            seen,
        ).trees + pruned_trees(b, n, seen.union(pruned_trees(a, a.len() as int, seen).opened)).trees,
        pruned_trees(a + b, a.len() + n, seen).opened == pruned_trees(
            a,
            a.len() as int,
            seen,
        ).opened.union(
            pruned_trees(b, n, seen.union(pruned_trees(a, a.len() as int, seen).opened)).opened,
        ),
    decreases n,
{
    let ra = pruned_trees(a, a.len() as int, seen);
    let mid = seen.union(ra.opened);
    if n == 0 {
        lemma_pruned_prefix(a, b, a.len() as int, seen);
    } else {
        lemma_pruned_concat(a, b, n - 1, seen);
        let whole = pruned_trees(a + b, a.len() + n - 1, seen);
        let part = pruned_trees(b, n - 1, mid);
        assert(seen.union(whole.opened) =~= mid.union(part.opened));
    }
}

/// The walk over a single tree.
pub proof fn lemma_pruned_single(t: Tree, seen: Set<Key>)
    ensures
        pruned_trees(seq![t], 1, seen).trees == seq![pruned_copy(t, seen)],
        pruned_trees(seq![t], 1, seen).opened == pruned_below(t, seen).opened,
{
    let ts = seq![t];
    let before = pruned_trees(ts, 0, seen);
    assert(seen.union(before.opened) =~= seen);
}

/// What the walk has given, it gives again: run on its own copies, with the
/// same descriptors opened before, it copies them all and opens the same.
pub proof fn lemma_pruned_twice(ts: Seq<Tree>, n: int, seen: Set<Key>)
    requires
        0 <= n <= ts.len(),
    ensures
        pruned_trees(pruned_trees(ts, n, seen).trees, n, seen) == pruned_trees(ts, n, seen),
    decreases ts, n,
{
    let r = pruned_trees(ts, n, seen);
    if n == 0 {
    } else {
        let before = pruned_trees(ts, n - 1, seen);
        let now = seen.union(before.opened);
        let t = ts[n - 1];
        let copy = pruned_copy(t, now);
        lemma_pruned_twice(ts, n - 1, seen);
        lemma_pruned_len(ts, n - 1, seen);
        lemma_copy_again(t, now);
        lemma_pruned_single(copy, now);
        lemma_pruned_concat(before.trees, seq![copy], 1, seen);
        assert(before.trees + seq![copy] =~= r.trees);
    }
}

/// The copy of a tree is copied as it stands, and opens what the tree opened.
pub proof fn lemma_copy_again(t: Tree, seen: Set<Key>)
    ensures
        pruned_copy(pruned_copy(t, seen), seen) == pruned_copy(t, seen),
        pruned_below(pruned_copy(t, seen), seen).opened == pruned_below(t, seen).opened,
    decreases t, 0int,
{
    let d = t.descriptor;
    if leaf_guard(t) || !seen.contains(d) {
        lemma_pruned_len(t.children, t.children.len() as int, seen.insert(d));
        lemma_pruned_twice(t.children, t.children.len() as int, seen.insert(d));
        if seen.contains(d) {
            let c = t.children[0];
            lemma_pruned_single(c, seen.insert(d));
            assert(t.children =~= seq![c]);
        }
    }
}

/// The copies that the walk over a forest gives are copied as they stand
/// when the walk is run on them: the second pass changes nothing that it
/// has made.
pub proof fn lemma_prune_fixed(f: ForestView, ids: Seq<usize>, seen: Set<Key>)
    ensures
        pruned_trees(
            prune(f, ids, seen).trees,
            prune(f, ids, seen).trees.len() as int,
            seen,
        ) == prune(f, ids, seen),
    decreases fresh(f, seen, f.nodes.len() as int), rank(f, ids),
        ids.len(),
{
    let n = f.nodes.len() as int;
    if ids.len() == 0 {
    } else {
        let tail = ids.drop_first();
        if ids[0] >= f.nodes.len() {
            lemma_prune_fixed(f, tail, seen);
        } else {
            let id = ids[0] as int;
            let node = f.nodes[id];
            let d = node.descriptor;
            let below = if guards_leaf(f, id) || !seen.contains(d) {
                let inner = prune(f, node.children, seen.insert(d));
                Pruned { trees: inner.trees, opened: inner.opened.insert(d) }
            } else {
                Pruned { trees: Seq::empty(), opened: Set::empty() }
            };
            let copy = Tree { descriptor: d, version: node.version, children: below.trees };
            let rest = prune(f, tail, seen.union(below.opened));
            lemma_fresh_grows(f, seen, seen.union(below.opened), n);
            lemma_prune_fixed(f, tail, seen.union(below.opened));
            // the copy is copied as it stands
            if guards_leaf(f, id) || !seen.contains(d) {
                if seen.contains(d) {
                    assert(seen.insert(d) =~= seen);
                    lemma_guarded_leaf(f, id, seen.insert(d));
                } else {
                    lemma_fresh_opened(f, seen, id, n);
                }
                lemma_prune_fixed(f, node.children, seen.insert(d));
            }
            lemma_pruned_single(copy, seen);
            lemma_pruned_concat(seq![copy], rest.trees, rest.trees.len() as int, seen);
        }
    }
}

/// Below a node that guards a leaf the walk copies that leaf, without children.
pub proof fn lemma_guarded_leaf(f: ForestView, id: int, seen: Set<Key>)
    requires
        0 <= id < f.nodes.len(),
        guards_leaf(f, id),
    ensures
        prune(f, f.nodes[id].children, seen).trees.len() == 1,
        prune(f, f.nodes[id].children, seen).trees[0].children.len() == 0,
{
    let kids = f.nodes[id].children;
    let c = kids[0] as int;
    let leaf = f.nodes[c];
    let below = if guards_leaf(f, c) || !seen.contains(leaf.descriptor) {
        let inner = prune(f, leaf.children, seen.insert(leaf.descriptor));
        Pruned { trees: inner.trees, opened: inner.opened.insert(leaf.descriptor) }
    } else {
        Pruned { trees: Seq::empty(), opened: Set::empty() }
    };
    assert(prune(f, kids.drop_first(), seen.union(below.opened)).trees.len() == 0);
}

/// The descriptors that the arena holds.
pub open spec fn held(seen: Seq<Key>) -> Set<Key> {
    Set::new(|d: Key| seen.contains(d))
}

/// Copies the nodes with what the walk copies below them. `seen` holds the
/// descriptors that have been opened.
fn prune_nodes(nodes: &Vec<Node>, seen: &mut Interner) -> (out: Vec<Node>)
    requires
        old(seen).wf(),
    ensures
        final(seen).wf(),
        trees_of(out@) == pruned_trees(trees_of(nodes@), nodes.len() as int, held(old(seen)@)).trees,
        held(final(seen)@) == held(old(seen)@).union(
            pruned_trees(trees_of(nodes@), nodes.len() as int, held(old(seen)@)).opened,
        ),
    decreases nodes,
{
    let ghost ts = trees_of(nodes@);
    let ghost seen0 = held(seen@);
    let mut out: Vec<Node> = Vec::new();
    let mut i: usize = 0;
    while i < nodes.len()
        invariant
            i <= nodes.len(),
            ts == trees_of(nodes@),
            seen.wf(),
            trees_of(out@) == pruned_trees(ts, i as int, seen0).trees,
            held(seen@) == seen0.union(pruned_trees(ts, i as int, seen0).opened),
        decreases nodes.len() - i,
    {
        let node = &nodes[i];
        let ghost t = node@;
        let ghost now = held(seen@);
        proof {
            lemma_node_view(*node);
        }
        let guard = node.children.len() == 1 && node.children[0].children.len() == 0;
        let known = seen.lookup(&node.descriptor).is_some();
        let mut kids: Vec<Node> = Vec::new();
        if guard || !known {
            if !known {
                let ghost was = seen@;
                seen.push(node.descriptor.clone());
                proof {
                    assert(held(seen@) =~= now.insert(t.descriptor)) by {
                        assert forall|d: Key| now.insert(t.descriptor).contains(
                            d,
                        ) implies held(seen@).contains(d) by {
                            if d == t.descriptor {
                                assert(seen@[was.len() as int] == d);
                            } else {
                                let k = choose|k: int| 0 <= k < was.len() && was[k] == d;
                                assert(seen@[k] == d);
                            }
                        }
                    }
                }
            } else {
                proof {
                    assert(now.insert(t.descriptor) =~= now);
                }
            }
            kids = prune_nodes(&node.children, seen);
        }
        let copy = Node {
            descriptor: node.descriptor.clone(),
            version: node.version.clone(),
            children: kids,
        };
        proof {
            lemma_node_view(copy);
            assert(copy@ == pruned_copy(t, now));
        }
        out.push(copy);
        i = i + 1;
    }
    out
}

/// The second pass on trees that own their children: every descriptor is
/// opened once, in the order of the walk, and a single child without children
/// is kept wherever it stands.
pub fn dedup_trees(trees: &Vec<Node>) -> (out: Vec<Node>)
    ensures
        trees_of(out@) == pruned_trees(trees_of(trees@), trees.len() as int, Set::empty()).trees,
{
    let mut seen = Interner::new();
    proof {
        assert(held(seen@) =~= Set::<Key>::empty());
    }
    prune_nodes(trees, &mut seen)
}

} // verus!
