//! The forest as it stands, without the second pass: every node with all
//! that is below it, as often as a path reaches it.

use crate::forest::{Forest, ForestView};
use crate::tree::{lemma_node_view, trees_of, Node, Tree};
use vstd::prelude::*;
use vstd::string::*;

verus! {

/// How many of the first `n` positions are not in `above`.
pub open spec fn apart(above: Set<int>, n: int) -> nat
    decreases n,
{
    if n <= 0 {
        0
    } else {
        apart(above, n - 1) + (if above.contains(n - 1) {
            0nat
        } else {
            1nat
        })
    }
}

/// The more positions stand above, the fewer are apart.
pub proof fn lemma_apart_grows(above: Set<int>, more: Set<int>, n: int)
    requires
        above.subset_of(more),
    ensures
        apart(more, n) <= apart(above, n),
    decreases n,
{
    if n > 0 {
        lemma_apart_grows(above, more, n - 1);
    }
}

/// One more position above leaves fewer apart.
pub proof fn lemma_apart_entered(above: Set<int>, id: int, n: int)
    requires
        0 <= id < n,
        !above.contains(id),
    ensures
        apart(above.insert(id), n) < apart(above, n),
    decreases n,
{
    if id == n - 1 {
        lemma_apart_grows(above, above.insert(id), n - 1);
    } else {
        lemma_apart_entered(above, id, n - 1);
    }
}

/// The nodes at `ids`, each with all that is below it, when the nodes at
/// `above` stand above them. There is no such tree where a node stands below
/// itself, or where a position is none of the forest.
pub open spec fn unfolded(f: ForestView, ids: Seq<usize>, above: Set<int>) -> Option<Seq<Tree>>
    decreases apart(above, f.nodes.len() as int), ids.len(),
    via unfolded_ends
{
    if ids.len() == 0 {
        Some(Seq::empty())
    } else if ids[0] >= f.nodes.len() || above.contains(ids[0] as int) {
        None
    } else {
        let node = f.nodes[ids[0] as int];
        let below = unfolded(f, node.children, above.insert(ids[0] as int));
        let rest = unfolded(f, ids.drop_first(), above);
        if below is Some && rest is Some {
            Some(
                seq![
                    Tree {
                        descriptor: node.descriptor,
                        version: node.version,
                        children: below->0,
                    },
                ] + rest->0,
            )
        } else {
            None
        }
    }
}

#[via_fn]
proof fn unfolded_ends(f: ForestView, ids: Seq<usize>, above: Set<int>) {
    if ids.len() != 0 && ids[0] < f.nodes.len() && !above.contains(ids[0] as int) {
        lemma_apart_entered(above, ids[0] as int, f.nodes.len() as int);
    }
}

/// The positions that are flagged.
pub open spec fn entered(flags: Seq<bool>) -> Set<int> {
    Set::new(|i: int| 0 <= i < flags.len() && flags[i])
}

/// The nodes at `ids` with all that is below them. `above` flags the nodes
/// that stand above them; it is the same after the call as before.
fn unfold_list(f: &Forest, ids: &Vec<usize>, above: &mut Vec<bool>) -> (out: Option<Vec<Node>>)
    requires
        f.wf(),
        old(above).len() == f@.nodes.len(),
        forall|k: int| 0 <= k < ids.len() ==> (#[trigger] ids[k]) < f@.nodes.len(),
    ensures
        final(above)@ == old(above)@,
        out is Some == unfolded(f@, ids@, entered(old(above)@)) is Some,
        out is Some ==> trees_of(out->0@) == unfolded(f@, ids@, entered(old(above)@))->0,
    decreases apart(entered(old(above)@), f@.nodes.len() as int), ids.len(),
{
    let ghost fv = f@;
    let ghost n = fv.nodes.len() as int;
    let ghost up = entered(above@);
    let ghost flags0 = above@;
    proof {
        f.lemma_wf();
        assert(ids@.subrange(0, ids.len() as int) =~= ids@);
    }
    let mut out: Vec<Node> = Vec::new();
    let mut at: usize = ids.len();
    while at > 0
        invariant
            at <= ids.len(),
            f.wf(),
            fv == f@,
            fv.wf(),
            n == fv.nodes.len(),
            above@ == flags0,
            flags0 == old(above)@,
            flags0.len() == n,
            up == entered(flags0),
            forall|k: int| 0 <= k < ids.len() ==> (#[trigger] ids[k]) < fv.nodes.len(),
            unfolded(fv, ids@.subrange(at as int, ids.len() as int), up) is Some,
            out.len() == ids.len() - at,
            forall|k: int|
                0 <= k < out.len() ==> (#[trigger] out[k])@ == (unfolded(
                    fv,
                    ids@.subrange(at as int, ids.len() as int),
                    up,
                )->0)[out.len() - 1 - k],
            unfolded(fv, ids@.subrange(at as int, ids.len() as int), up)->0.len() == out.len(),
        decreases at,
    {
        let id: usize = ids[at - 1];
        let ghost tail = ids@.subrange(at as int, ids.len() as int);
        let ghost here = ids@.subrange(at - 1, ids.len() as int);
        let ghost node = fv.nodes[id as int];
        proof {
            assert(here.drop_first() =~= tail);
        }
        if above[id] {
            proof {
                lemma_none_spreads(fv, ids@, up, at - 1);
            }
            return None;
        }
        above.set(id, true);
        proof {
            assert(entered(above@) =~= up.insert(id as int));
            lemma_apart_entered(up, id as int, n);
        }
        let kids = unfold_list(f, f.children_at(id), above);
        above.set(id, false);
        match kids {
            None => {
                proof {
                    lemma_none_spreads(fv, ids@, up, at - 1);
                }
                return None;
            },
            Some(kids) => {
                let fresh_node = Node {
                    descriptor: f.descriptor_at(id).clone(),
                    version: f.version_at(id).clone(),
                    children: kids,
                };
                proof {
                    lemma_node_view(fresh_node);
                }
                out.push(fresh_node);
                at = at - 1;
            },
        }
    }
    let ghost target = unfolded(fv, ids@, up)->0;
    let mut result: Vec<Node> = Vec::new();
    while out.len() > 0
        invariant
            out.len() + result.len() == target.len(),
            forall|k: int|
                0 <= k < out.len() ==> (#[trigger] out[k])@ == target[target.len() - 1 - k],
            forall|k: int| 0 <= k < result.len() ==> (#[trigger] result[k])@ == target[k],
        decreases out.len(),
    {
        let node = out.pop().unwrap();
        result.push(node);
    }
    Some(result)
}

/// Where the nodes from `at` on cannot be unfolded, neither can all of them.
proof fn lemma_none_spreads(f: ForestView, ids: Seq<usize>, above: Set<int>, at: int)
    requires
        0 <= at <= ids.len(),
        unfolded(f, ids.subrange(at, ids.len() as int), above) is None,
    ensures
        unfolded(f, ids, above) is None,
    decreases at,
{
    if at > 0 {
        let here = ids.subrange(at - 1, ids.len() as int);
        assert(here.drop_first() =~= ids.subrange(at, ids.len() as int));
        lemma_none_spreads(f, ids, above, at - 1);
    } else {
        assert(ids.subrange(0, ids.len() as int) =~= ids);
    }
}

/// The roots of the forest, each with all that is below it. `None` where a
/// node stands below itself: such a forest has no end.
pub fn expand(forest: &Forest) -> (trees: Option<Vec<Node>>)
    requires
        forest.wf(),
    ensures
        trees is Some == unfolded(forest@, forest@.roots, Set::empty()) is Some,
        trees is Some ==> trees_of(trees->0@) == unfolded(forest@, forest@.roots, Set::empty())->0,
{
    proof {
        forest.lemma_wf();
    }
    let n: usize = forest.len();
    let mut above: Vec<bool> = Vec::new();
    let mut i: usize = 0;
    while i < n
        invariant
            i <= n,
            above.len() == i,
            forall|k: int| 0 <= k < i ==> !above[k],
        decreases n - i,
    {
        above.push(false);
        i = i + 1;
    }
    proof {
        assert(entered(above@) =~= Set::<int>::empty());
    }
    unfold_list(forest, forest.roots(), &mut above)
}

} // verus!
