//! The paths that explain a package: from the roots of the graph down to each
//! queried descriptor.

use crate::forest::paths_of;
use crate::graph::{Graph, GraphView};
use crate::model::{entries_of, keys_of, Descriptor, Entry, EntryView, Key};
use crate::walk::{
    budget, complete, explore, frames, lemma_budget_step, lemma_first_index_bounds,
    paths_from, rows, unvisited, visited, walk_to_roots, Frame,
};
use vstd::prelude::*;
use vstd::string::*;

verus! {

/// Whether every descriptor of the stack is in the graph and each one after
/// the first is a parent of the one before it.
pub open spec fn climbs(g: Seq<Seq<usize>>, stack: Seq<usize>) -> bool {
    &&& stack.len() > 0
    &&& forall|k: int| 0 <= k < stack.len() ==> (#[trigger] stack[k]) < g.len()
    &&& forall|k: int, m: int|
        0 <= k && m == k + 1 && m < stack.len() ==> g[(#[trigger] stack[k]) as int].contains(
            #[trigger] stack[m],
        )
}

/// Whether every frame of the agenda was reached by a climb from `query`.
pub open spec fn ready(g: Seq<Seq<usize>>, query: usize, agenda: Seq<Frame>) -> bool {
    forall|k: int|
        0 <= k < agenda.len() ==> climbs(g, (#[trigger] agenda[k]).below) && agenda[k].below[0]
            == query && g[agenda[k].below.last() as int].contains(agenda[k].node)
}

/// Whether `path` runs from a root of the graph down to `query`, each
/// descriptor a parent of the next, and holds `query` at its end only.
pub open spec fn leads_to(g: Seq<Seq<usize>>, query: usize, path: Seq<usize>) -> bool {
    &&& path.len() > 0
    &&& path.last() == query
    &&& forall|k: int| 0 <= k < path.len() - 1 ==> (#[trigger] path[k]) != query
    &&& forall|k: int| 0 <= k < path.len() ==> (#[trigger] path[k]) < g.len()
    &&& g[path[0] as int].len() == 0
    &&& forall|k: int, m: int|
        0 <= k && m == k + 1 && m < path.len() ==> g[(#[trigger] path[m]) as int].contains(
            #[trigger] path[k],
        )
}

/// Whether every parent is a position of the graph.
pub open spec fn closed_under_parents(g: Seq<Seq<usize>>) -> bool {
    forall|i: int, k: int|
        0 <= i < g.len() && 0 <= k < g[i].len() ==> (#[trigger] g[i][k]) < g.len()
}

/// The path of a stack that has climbed from `query` to a root leads to `query`.
pub proof fn lemma_complete(g: Seq<Seq<usize>>, query: usize, stack: Seq<usize>)
    requires
        climbs(g, stack),
        stack[0] == query,
        g[stack.last() as int].len() == 0,
    ensures
        leads_to(g, query, complete(stack)),
{
    let rev = stack.reverse();
    let n = stack.len() as int;
    lemma_first_index_bounds(rev, query);
    assert(rev[n - 1] == query);
}

/// Every path that the walk records leads to the queried descriptor.
pub proof fn lemma_explore(
    g: Seq<Seq<usize>>,
    cap: usize,
    query: usize,
    agenda: Seq<Frame>,
    visits: Seq<usize>,
)
    requires
        closed_under_parents(g),
        ready(g, query, agenda),
    ensures
        forall|i: int|
            0 <= i < explore(g, cap, agenda, visits).len() ==> leads_to(
                g,
                query,
                #[trigger] explore(g, cap, agenda, visits)[i],
            ),
    decreases budget(visits, cap), agenda.len(),
{
    if agenda.len() != 0 {
        let f = agenda[0];
        let rest = agenda.drop_first();
        if f.node < visits.len() && f.node < g.len() && visits[f.node as int] < cap {
            let seen = visited(visits, f.node as int);
            let stack = f.below.push(f.node);
            lemma_budget_step(visits, cap, f.node as int);
            if g[f.node as int].len() == 0 {
                lemma_complete(g, query, stack);
                lemma_explore(g, cap, query, rest, seen);
                assert(explore(g, cap, agenda, visits) == seq![complete(stack)] + explore(
                    g,
                    cap,
                    rest,
                    seen,
                ));
            } else {
                let next = frames(g[f.node as int], stack) + rest;
                lemma_explore(g, cap, query, next, seen);
                assert(explore(g, cap, agenda, visits) == explore(g, cap, next, seen));
            }
        } else {
            lemma_explore(g, cap, query, rest, visits);
            assert(explore(g, cap, agenda, visits) == explore(g, cap, rest, visits));
        }
    }
}

/// Every path of the walk from the descriptor at `query` leads to it.
pub proof fn lemma_paths_from(g: GraphView, query: usize, cap: usize)
    requires
        g.wf(),
        query < g.descriptors.len(),
    ensures
        forall|i: int|
            0 <= i < paths_from(g, query, cap).len() ==> leads_to(
                g.parents,
                query,
                #[trigger] paths_from(g, query, cap)[i],
            ),
{
    let stack = seq![query];
    let seen = visited(unvisited(g.descriptors.len()), query as int);
    if g.parents[query as int].len() == 0 {
    } else {
        let agenda = frames(g.parents[query as int], stack);
        lemma_explore(g.parents, cap, query, agenda, seen);
    }
}

/// The paths by their descriptors.
pub open spec fn named_paths(g: GraphView, ps: Seq<Seq<usize>>) -> Seq<Seq<Key>> {
    Seq::new(ps.len(), |i: int| g.names(ps[i]))
}

/// The paths that the walk from `d` records. A descriptor on which no entry
/// depends has none.
pub open spec fn paths_to(g: GraphView, d: Key, cap: usize) -> Seq<Seq<Key>> {
    if g.is_key(d) {
        named_paths(g, paths_from(g, g.id_of(d) as usize, cap))
    } else {
        Seq::empty()
    }
}

/// Walks from `pkg` up to the roots and adds the paths found to `paths`, each
/// from its root down to `pkg`. The walk begins by entering `pkg`, whatever
/// `cap` is. After that it enters a descriptor, `pkg` too, only while that
/// descriptor has been entered fewer than `cap` times.
pub fn build_path_to_dependency(
    pkg: &Descriptor,
    graph: &Graph,
    cap: usize,
    paths: &mut Vec<Vec<Descriptor>>,
)
    requires
        graph.wf(),
    ensures
        paths_of(final(paths)@) == paths_of(old(paths)@) + paths_to(graph@, pkg@, cap),
{
    let ghost base = paths_of(paths@);
    let ghost g = graph@;
    proof {
        graph.lemma_wf();
    }
    match graph.lookup(pkg) {
        None => {},
        Some(query) => {
            if !graph.keyed_at(query) {
                return ;
            }
            let mut found: Vec<Vec<usize>> = Vec::new();
            walk_to_roots(graph, query, cap, &mut found);
            let ghost target = paths_from(g, query, cap);
            proof {
                lemma_paths_from(g, query, cap);
            }
            let mut i: usize = 0;
            while i < found.len()
                invariant
                    i <= found.len(),
                    graph.wf(),
                    g == graph@,
                    g.wf(),
                    rows(found@) == target,
                    forall|j: int|
                        0 <= j < target.len() ==> leads_to(
                            g.parents,
                            query,
                            #[trigger] target[j],
                        ),
                    paths_of(paths@) == base + named_paths(g, target).subrange(0, i as int),
                decreases found.len() - i,
            {
                let row = &found[i];
                let ghost ids = target[i as int];
                let mut path: Vec<Descriptor> = Vec::new();
                let mut k: usize = 0;
                while k < row.len()
                    invariant
                        k <= row.len(),
                        graph.wf(),
                        g == graph@,
                        ids == row@,
                        forall|j: int| 0 <= j < ids.len() ==> (#[trigger] ids[j]) < g.parents.len(),
                        g.parents.len() == g.descriptors.len(),
                        path.len() == k,
                        forall|j: int| 0 <= j < k ==> path[j]@ == g.descriptors[ids[j] as int],
                    decreases row.len() - k,
                {
                    path.push(graph.descriptor_at(row[k]).clone());
                    k = k + 1;
                }
                let ghost before = paths@;
                proof {
                    assert(keys_of(path@) =~= g.names(ids));
                }
                paths.push(path);
                proof {
                    assert(paths_of(paths@) =~= paths_of(before).push(g.names(ids)));
                }
                i = i + 1;
            }
        },
    }
}

/// The paths that the walks from the first `n` of `queries` record, one query
/// after the other.
pub open spec fn found_paths(g: GraphView, queries: Seq<Key>, cap: usize, n: int) -> Seq<Seq<Key>>
    decreases n,
{
    if n <= 0 {
        Seq::empty()
    } else {
        found_paths(g, queries, cap, n - 1) + paths_to(g, queries[n - 1], cap)
    }
}

/// Whether the entry carries the name of `d` and `d` resolves to it.
pub open spec fn entry_resolves(e: EntryView, d: Key) -> bool {
    e.name == d.0 && e.descriptors.contains(d)
}

/// Whether `d` resolves to an entry of its name.
pub open spec fn resolves(es: Seq<EntryView>, d: Key) -> bool {
    exists|i: int| 0 <= i < es.len() && entry_resolves(#[trigger] es[i], d)
}

/// The paths that explain `queries`: those that the walks record; where they
/// record none, the first query alone, as a root, if it resolves to an entry;
/// else none.
pub open spec fn why_paths(g: GraphView, es: Seq<EntryView>, queries: Seq<Key>, cap: usize) -> Seq<
    Seq<Key>,
> {
    let found = found_paths(g, queries, cap, queries.len() as int);
    if queries.len() == 0 {
        Seq::empty()
    } else if found.len() > 0 {
        found
    } else if resolves(es, queries[0]) {
        seq![seq![queries[0]]]
    } else {
        Seq::empty()
    }
}

/// Whether `d` is among `ds`.
pub fn has_descriptor(ds: &Vec<Descriptor>, d: &Descriptor) -> (r: bool)
    ensures
        r == keys_of(ds@).contains(d@),
{
    let mut k: usize = 0;
    while k < ds.len()
        invariant
            k <= ds.len(),
            forall|j: int| 0 <= j < k ==> keys_of(ds@)[j] != d@,
        decreases ds.len() - k,
    {
        if ds[k].same(d) {
            assert(keys_of(ds@)[k as int] == d@);
            return true;
        }
        k = k + 1;
    }
    false
}

/// The paths from the roots of the graph down to each of `queries`, in the
/// order in which the walks find them.
pub fn why(queries: &Vec<Descriptor>, graph: &Graph, entries: &Vec<Entry>, cap: usize) -> (paths:
    Vec<Vec<Descriptor>>)
    requires
        graph.wf(),
    ensures
        paths_of(paths@) == why_paths(graph@, entries_of(entries@), keys_of(queries@), cap),
{
    let ghost g = graph@;
    let ghost es = entries_of(entries@);
    let ghost qs = keys_of(queries@);
    let mut paths: Vec<Vec<Descriptor>> = Vec::new();
    if queries.len() == 0 {
        return paths;
    }
    let mut i: usize = 0;
    while i < queries.len()
        invariant
            i <= queries.len(),
            graph.wf(),
            g == graph@,
            qs == keys_of(queries@),
            paths_of(paths@) == found_paths(g, qs, cap, i as int),
        decreases queries.len() - i,
    {
        build_path_to_dependency(&queries[i], graph, cap, &mut paths);
        i = i + 1;
    }
    if paths.len() == 0 {
        let q = &queries[0];
        let mut k: usize = 0;
        while k < entries.len()
            invariant
                k <= entries.len(),
                es == entries_of(entries@),
                paths.len() == 0,
                qs.len() > 0,
                qs[0] == q@,
                qs == keys_of(queries@),
                g == graph@,
                found_paths(g, qs, cap, qs.len() as int).len() == 0,
                forall|j: int| 0 <= j < k ==> !entry_resolves(#[trigger] es[j], q@),
            decreases entries.len() - k,
        {
            let e = &entries[k];
            assert(es[k as int] == e@);
            if e.name == q.name && has_descriptor(&e.descriptors, q) {
                let mut path: Vec<Descriptor> = Vec::new();
                path.push(q.clone());
                let ghost single = path@;
                paths.push(path);
                proof {
                    assert(keys_of(single) =~= seq![q@]);
                }
                return paths;
            }
            k = k + 1;
        }
    }
    paths
}

} // verus!
