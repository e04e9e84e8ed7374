//! What holds of the answers, whatever the lockfile and the query.

use crate::dedup::prune;
use crate::explain::{explained_text, is_answer, Failure, OptionsView};
use crate::forest::ForestView;
use crate::graph::GraphView;
use crate::model::{EntryView, Key};
use crate::prune::{lemma_prune_fixed, lemma_pruned_len, lemma_pruned_twice, pruned_trees};
use crate::query::QueryView;
use crate::tree::Tree;
use crate::walk::{
    budget, complete, explore, frames, lemma_budget_step, lemma_first_index_bounds, paths_from,
    unvisited, visited, Frame,
};
use crate::why::{found_paths, leads_to, lemma_paths_from, paths_to, resolves, why_paths};
use vstd::prelude::*;

verus! {

/// Whether `path` explains `d`: it runs from a descriptor without parents
/// down to `d`, each descriptor a parent of the next, and holds `d` at its
/// end and nowhere else.
pub open spec fn explains(g: GraphView, d: Key, path: Seq<Key>) -> bool {
    &&& path.len() > 0
    &&& path.last() == d
    &&& forall|k: int| 0 <= k < path.len() - 1 ==> (#[trigger] path[k]) != d
    &&& g.parents_of(path[0]).len() == 0
    &&& forall|k: int, m: int|
        0 <= k && m == k + 1 && m < path.len() ==> g.parents_of(#[trigger] path[m]).contains(
            #[trigger] path[k],
        )
}

/// The descriptors at the positions `ids`, where these lead to the position of `d`.
proof fn lemma_named_explains(g: GraphView, query: usize, ids: Seq<usize>)
    requires
        g.wf(),
        query < g.descriptors.len(),
        leads_to(g.parents, query, ids),
    ensures
        explains(g, g.descriptors[query as int], g.names(ids)),
{
    let path = g.names(ids);
    assert forall|k: int, m: int| 0 <= k && m == k + 1 && m < path.len() implies g.parents_of(
        #[trigger] path[m],
    ).contains(#[trigger] path[k]) by {
        let child = ids[m] as int;
        let row = g.parents[child];
        let at = choose|at: int| 0 <= at < row.len() && row[at] == ids[k];
        assert(g.names(row)[at] == path[k]);
    }
}

/// Every path that the walk from `d` records explains `d`: it starts at a
/// root, follows the edges of the graph, and ends where `d` stands first, so
/// that `d` is on it once, however the graph turns in circles.
pub proof fn law_paths_explain(g: GraphView, d: Key, cap: usize)
    requires
        g.wf(),
    ensures
        forall|i: int|
            0 <= i < paths_to(g, d, cap).len() ==> explains(g, d, #[trigger] paths_to(g, d, cap)[i]),
{
    if g.is_key(d) {
        let query = g.id_of(d) as usize;
        lemma_paths_from(g, query, cap);
        let ids = paths_from(g, query, cap);
        assert forall|i: int| 0 <= i < paths_to(g, d, cap).len() implies explains(
            g,
            d,
            #[trigger] paths_to(g, d, cap)[i],
        ) by {
            lemma_named_explains(g, query, ids[i]);
        }
    }
}

/// Whether `region` holds the position `query` and, with every position, the
/// positions of its parents: it holds all that the walk from `query` can reach.
pub open spec fn closed_upward(g: GraphView, region: Set<int>, query: int) -> bool {
    &&& region.contains(query)
    &&& forall|i: int, k: int|
        0 <= i < g.parents.len() && region.contains(i) && 0 <= k < g.parents[i].len()
            ==> region.contains((#[trigger] g.parents[i][k]) as int)
}

/// Whether, within `region`, every parent has a lower rank than its child,
/// where neither is the descriptor at `query`. There are such ranks if and
/// only if every cycle within `region` passes through that descriptor; what
/// lies outside `region`, where the walk does not come, may turn in circles.
pub open spec fn descends_beside(g: GraphView, rank: Seq<nat>, region: Set<int>, query: int) -> bool {
    &&& rank.len() == g.parents.len()
    &&& forall|i: int, k: int|
        0 <= i < g.parents.len() && region.contains(i) && 0 <= k < g.parents[i].len() && i
            != query && g.parents[i][k] != query ==> rank[(#[trigger] g.parents[i][k]) as int]
            < rank[i]
}

/// A path that leads to the queried descriptor stays within a region that
/// holds it and is closed under parents.
proof fn lemma_within_region(g: GraphView, region: Set<int>, query: usize, ids: Seq<usize>, k: int)
    requires
        g.wf(),
        closed_upward(g, region, query as int),
        leads_to(g.parents, query, ids),
        0 <= k < ids.len(),
    ensures
        region.contains(ids[k] as int),
    decreases ids.len() - k,
{
    if k < ids.len() - 1 {
        let next = k + 1;
        lemma_within_region(g, region, query, ids, next);
        let child = ids[next] as int;
        assert(g.parents[child].contains(ids[k]));
        let at = choose|at: int| 0 <= at < g.parents[child].len() && g.parents[child][at] == ids[k];
        assert(region.contains(g.parents[child][at] as int));
    }
}

/// Along a path that follows the edges the ranks rise, up to the queried
/// descriptor at its end.
proof fn lemma_ranks_rise(
    g: GraphView,
    rank: Seq<nat>,
    region: Set<int>,
    query: usize,
    ids: Seq<usize>,
    a: int,
    b: int,
)
    requires
        g.wf(),
        closed_upward(g, region, query as int),
        descends_beside(g, rank, region, query as int),
        leads_to(g.parents, query, ids),
        0 <= a < b < ids.len() - 1,
    ensures
        rank[ids[a] as int] < rank[ids[b] as int],
    decreases b - a,
{
    let child = ids[b] as int;
    let before = b - 1;
    lemma_within_region(g, region, query, ids, b);
    assert(g.parents[child].contains(ids[before]));
    let k = choose|k: int| 0 <= k < g.parents[child].len() && g.parents[child][k] == ids[before];
    assert(rank[g.parents[child][k] as int] < rank[child]);
    if a < before {
        lemma_ranks_rise(g, rank, region, query, ids, a, before);
    }
}

/// No path that the walk records holds a descriptor twice, where every cycle
/// that the walk can reach passes through the queried descriptor: where, in
/// a set of positions that holds the queried descriptor and is closed under
/// parents, the ranks fall from child to parent beside that descriptor. So
/// it is on every graph without cycles, with all positions as the set.
pub proof fn law_no_descriptor_twice(
    g: GraphView,
    rank: Seq<nat>,
    region: Set<int>,
    d: Key,
    cap: usize,
)
    requires
        g.wf(),
        closed_upward(g, region, g.id_of(d)),
        descends_beside(g, rank, region, g.id_of(d)),
    ensures
        forall|i: int, a: int, b: int|
            0 <= i < paths_to(g, d, cap).len() && 0 <= a < b < paths_to(g, d, cap)[i].len()
                ==> paths_to(g, d, cap)[i][a] != paths_to(g, d, cap)[i][b],
{
    if g.is_key(d) {
        let query = g.id_of(d) as usize;
        lemma_paths_from(g, query, cap);
        let found = paths_from(g, query, cap);
        assert forall|i: int, a: int, b: int|
            0 <= i < paths_to(g, d, cap).len() && 0 <= a < b < paths_to(
                g,
                d,
                cap,
            )[i].len() implies paths_to(g, d, cap)[i][a] != paths_to(g, d, cap)[i][b] by {
            let ids = found[i];
            assert(leads_to(g.parents, query, ids));
            let x = ids[a] as int;
            let y = ids[b] as int;
            if b < ids.len() - 1 {
                lemma_ranks_rise(g, rank, region, query, ids, a, b);
            } else {
                assert(ids[a] != query);
            }
            assert(x != y);
            if x < y {
                assert(g.descriptors[x] != g.descriptors[y]);
            } else {
                assert(g.descriptors[y] != g.descriptors[x]);
            }
        }
    }
}

/// Whether no position stands twice in the stack.
pub open spec fn simple(stack: Seq<usize>) -> bool {
    forall|a: int, b: int| 0 <= a < b < stack.len() ==> stack[a] != stack[b]
}

/// Whether every frame was reached through a stack that holds nothing twice
/// and only what has been visited.
pub open spec fn trodden(agenda: Seq<Frame>, visits: Seq<usize>) -> bool {
    forall|k: int|
        0 <= k < agenda.len() ==> simple((#[trigger] agenda[k]).below) && forall|a: int|
            0 <= a < agenda[k].below.len() ==> agenda[k].below[a] < visits.len() && visits[(
            #[trigger] agenda[k].below[a]) as int] >= 1
}

/// The path of a stack that holds nothing twice holds nothing twice.
proof fn lemma_complete_simple(stack: Seq<usize>)
    requires
        stack.len() > 0,
        simple(stack),
    ensures
        simple(complete(stack)),
{
    let rev = stack.reverse();
    lemma_first_index_bounds(rev, stack[0]);
    let n = stack.len() as int;
    assert(rev[n - 1] == stack[0]);
}

/// Where a descriptor is entered once at most, no path that the walk records
/// holds a position twice.
proof fn lemma_explore_simple(g: Seq<Seq<usize>>, cap: usize, agenda: Seq<Frame>, visits: Seq<usize>)
    requires
        cap <= 1,
        trodden(agenda, visits),
    ensures
        forall|i: int|
            0 <= i < explore(g, cap, agenda, visits).len() ==> simple(
                #[trigger] explore(g, cap, agenda, visits)[i],
            ),
    decreases budget(visits, cap), agenda.len(),
{
    if agenda.len() != 0 {
        let f = agenda[0];
        let rest = agenda.drop_first();
        if f.node < visits.len() && f.node < g.len() && visits[f.node as int] < cap {
            let seen = visited(visits, f.node as int);
            let stack = f.below.push(f.node);
            lemma_budget_step(visits, cap, f.node as int);
            if g[f.node as int].len() == 0 {
                lemma_complete_simple(stack);
                lemma_explore_simple(g, cap, rest, seen);
                assert(explore(g, cap, agenda, visits) == seq![complete(stack)] + explore(
                    g,
                    cap,
                    rest,
                    seen,
                ));
            } else {
                let next = frames(g[f.node as int], stack) + rest;
                lemma_explore_simple(g, cap, next, seen);
                assert(explore(g, cap, agenda, visits) == explore(g, cap, next, seen));
            }
        } else {
            lemma_explore_simple(g, cap, rest, visits);
            assert(explore(g, cap, agenda, visits) == explore(g, cap, rest, visits));
        }
    }
}

/// Where the walk enters a descriptor once at most, no path that it records
/// holds a descriptor twice, whatever cycles the graph has.
pub proof fn law_no_descriptor_twice_entered_once(g: GraphView, d: Key, cap: usize)
    requires
        g.wf(),
        cap <= 1,
    ensures
        forall|i: int, a: int, b: int|
            0 <= i < paths_to(g, d, cap).len() && 0 <= a < b < paths_to(g, d, cap)[i].len()
                ==> paths_to(g, d, cap)[i][a] != paths_to(g, d, cap)[i][b],
{
    if g.is_key(d) {
        let query = g.id_of(d) as usize;
        lemma_paths_from(g, query, cap);
        let stack = seq![query];
        let seen = visited(unvisited(g.descriptors.len()), query as int);
        if g.parents[query as int].len() == 0 {
        } else {
            let agenda = frames(g.parents[query as int], stack);
            lemma_explore_simple(g.parents, cap, agenda, seen);
        }
    }
}

/// Only a key of the reverse adjacency has parents: for a descriptor on
/// which no entry depends, the graph gives none.
pub proof fn law_no_key_no_parents(g: GraphView, d: Key)
    requires
        g.wf(),
        !g.is_key(d),
    ensures
        g.parents_of(d).len() == 0,
{
}

/// A descriptor that resolves to an entry and has no parents is a root: the
/// query for it gives one path, which holds it alone.
pub proof fn law_root_alone(g: GraphView, es: Seq<EntryView>, d: Key, cap: usize)
    requires
        g.wf(),
        g.parents_of(d).len() == 0,
        resolves(es, d),
    ensures
        why_paths(g, es, seq![d], cap) == seq![seq![d]],
{
    let queries = seq![d];
    assert(found_paths(g, queries, cap, 0) =~= Seq::<Seq<Key>>::empty());
    if g.is_key(d) {
        let query = g.id_of(d) as usize;
        let stack = seq![query];
        assert(complete(stack) =~= stack);
        assert(g.names(stack) =~= seq![d]);
    }
}

/// Every path that the walk from one of the queries records is among the
/// paths found for all of them: a package that is requested under two ranges
/// is explained for both.
pub proof fn law_every_query_counts(g: GraphView, queries: Seq<Key>, cap: usize, i: int, k: int)
    requires
        0 <= i < queries.len(),
        0 <= k < paths_to(g, queries[i], cap).len(),
    ensures
        found_paths(g, queries, cap, queries.len() as int).contains(
            paths_to(g, queries[i], cap)[k],
        ),
{
    lemma_found_holds(g, queries, cap, queries.len() as int, i, k);
}

proof fn lemma_found_holds(g: GraphView, queries: Seq<Key>, cap: usize, n: int, i: int, k: int)
    requires
        0 <= i < n <= queries.len(),
        0 <= k < paths_to(g, queries[i], cap).len(),
    ensures
        found_paths(g, queries, cap, n).contains(paths_to(g, queries[i], cap)[k]),
    decreases n,
{
    let before = found_paths(g, queries, cap, n - 1);
    let all = found_paths(g, queries, cap, n);
    let wanted = paths_to(g, queries[i], cap)[k];
    if i == n - 1 {
        assert(all[before.len() + k] == wanted);
    } else {
        lemma_found_holds(g, queries, cap, n - 1, i, k);
        let at = choose|at: int| 0 <= at < before.len() && before[at] == wanted;
        assert(all[at] == wanted);
    }
}

/// The second pass is idempotent on trees: run on what it gave, it gives the
/// same trees.
pub proof fn law_dedup_twice(ts: Seq<Tree>)
    ensures
        pruned_trees(
            pruned_trees(ts, ts.len() as int, Set::empty()).trees,
            pruned_trees(ts, ts.len() as int, Set::empty()).trees.len() as int,
            Set::empty(),
        ) == pruned_trees(ts, ts.len() as int, Set::empty()),
{
    lemma_pruned_twice(ts, ts.len() as int, Set::empty());
    lemma_pruned_len(ts, ts.len() as int, Set::empty());
}

/// The second pass is idempotent from the forest on: run on the trees that
/// it made of a forest, it gives these trees again.
pub proof fn law_dedup_fixed(f: ForestView)
    ensures
        pruned_trees(
            prune(f, f.roots, Set::empty()).trees,
            prune(f, f.roots, Set::empty()).trees.len() as int,
            Set::empty(),
        ).trees == prune(f, f.roots, Set::empty()).trees,
{
    lemma_prune_fixed(f, f.roots, Set::empty());
}

/// The answer is a function of the lockfile, the query and the options: two
/// runs on the same three give the same text, or fail alike.
pub proof fn law_same_answer(
    text: Seq<char>,
    q: QueryView,
    o: OptionsView,
    first: Result<String, Failure>,
    second: Result<String, Failure>,
)
    requires
        is_answer(first, explained_text(text, q, o)),
        is_answer(second, explained_text(text, q, o)),
    ensures
        first is Ok == second is Ok,
        first is Ok ==> first->Ok_0@ == second->Ok_0@,
        first is Err ==> first->Err_0 == second->Err_0,
{
}

} // verus!
