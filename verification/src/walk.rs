//! The walk from a queried descriptor up to the roots of the graph.
//!
//! The walk is depth first along the parent edges. It counts the visits of
//! each descriptor and does not enter one that has been visited `cap` times,
//! so that it ends on a graph with cycles too. Each time it reaches a
//! descriptor without parents it records the path from there down to the
//! queried descriptor.

use crate::graph::{Graph, GraphView};
use vstd::prelude::*;

verus! {

/// A descriptor that the walk has still to try, with the descriptors from the
/// queried one down to the child through which it was reached.
pub struct Frame {
    pub node: usize,
    pub below: Seq<usize>,
}

/// The visits that are left: for each descriptor, how far its count is below `cap`.
pub open spec fn budget(visits: Seq<usize>, cap: usize) -> nat
    decreases visits.len(),
{
    if visits.len() == 0 {
        0
    } else {
        budget(visits.drop_last(), cap) + (if visits.last() < cap {
            (cap - visits.last()) as nat
        } else {
            0
        })
    }
}

/// The counts after one more visit of `p`.
pub open spec fn visited(visits: Seq<usize>, p: int) -> Seq<usize> {
    visits.update(p, (visits[p] + 1) as usize)
}

/// One visit of a descriptor that is under the cap takes one from the budget.
pub proof fn lemma_budget_step(visits: Seq<usize>, cap: usize, p: int)
    requires
        0 <= p < visits.len(),
        visits[p] < cap,
    ensures
        budget(visited(visits, p), cap) + 1 == budget(visits, cap),
    decreases visits.len(),
{
    let after = visited(visits, p);
    if p == visits.len() - 1 {
        assert(after.drop_last() =~= visits.drop_last());
    } else {
        assert(after.drop_last() =~= visited(visits.drop_last(), p));
        lemma_budget_step(visits.drop_last(), cap, p);
    }
}

/// The position of the first `x` in `s`; the length of `s` where there is none.
pub open spec fn first_index(s: Seq<usize>, x: usize) -> int
    decreases s.len(),
{
    if s.len() == 0 {
        0
    } else if s[0] == x {
        0
    } else {
        1 + first_index(s.drop_first(), x)
    }
}

/// The first position of `x` is the one before which `x` does not stand.
pub proof fn lemma_first_index(s: Seq<usize>, x: usize, k: int)
    requires
        0 <= k < s.len(),
        s[k] == x,
        forall|j: int| 0 <= j < k ==> s[j] != x,
    ensures
        first_index(s, x) == k,
    decreases k,
{
    if k > 0 {
        let t = s.drop_first();
        lemma_first_index(t, x, k - 1);
    }
}

/// The first position of `x` holds `x`, and no earlier one does.
pub proof fn lemma_first_index_bounds(s: Seq<usize>, x: usize)
    ensures
        0 <= first_index(s, x) <= s.len(),
        first_index(s, x) < s.len() ==> s[first_index(s, x)] == x,
        forall|j: int| 0 <= j < first_index(s, x) ==> s[j] != x,
    decreases s.len(),
{
    if s.len() > 0 && s[0] != x {
        let t = s.drop_first();
        lemma_first_index_bounds(t, x);
        assert forall|j: int| 0 <= j < first_index(s, x) implies s[j] != x by {
            if j > 0 {
                assert(s[j] == t[j - 1]);
            }
        }
    }
}

/// The path that a stack stands for. The stack runs from the queried
/// descriptor up to a root; the path runs from the root down, and ends at the
/// first place where the queried descriptor stands, so that what a cycle
/// added beyond it is left out.
pub open spec fn complete(stack: Seq<usize>) -> Seq<usize> {
    let path = stack.reverse();
    path.subrange(0, first_index(path, stack[0]) + 1)
}

/// One frame for each of `ps`, all reached through `stack`.
pub open spec fn frames(ps: Seq<usize>, stack: Seq<usize>) -> Seq<Frame> {
    Seq::new(ps.len(), |k: int| Frame { node: ps[k], below: stack })
}

/// The paths that the walk records from the frames of `agenda` on, the first
/// frame first, when the counts so far are `visits`. `g` holds the parents of
/// each descriptor.
///
/// A frame whose descriptor has been visited `cap` times is dropped. Another
/// one is visited: without parents it ends a path; with parents, these are
/// tried next, in their order, before the frames that were waiting.
pub open spec fn explore(
    g: Seq<Seq<usize>>,
    cap: usize,
    agenda: Seq<Frame>,
    visits: Seq<usize>,
) -> Seq<Seq<usize>>
    decreases budget(visits, cap), agenda.len(),
    via explore_ends
{
    if agenda.len() == 0 {
        Seq::empty()
    } else {
        let f = agenda[0];
        let rest = agenda.drop_first();
        if f.node < visits.len() && f.node < g.len() && visits[f.node as int] < cap {
            let seen = visited(visits, f.node as int);
            let stack = f.below.push(f.node);
            if g[f.node as int].len() == 0 {
                seq![complete(stack)] + explore(g, cap, rest, seen)
            } else {
                explore(g, cap, frames(g[f.node as int], stack) + rest, seen)
            }
        } else {
            explore(g, cap, rest, visits)
        }
    }
}

#[via_fn]
proof fn explore_ends(g: Seq<Seq<usize>>, cap: usize, agenda: Seq<Frame>, visits: Seq<usize>) {
    if agenda.len() != 0 {
        let f = agenda[0];
        if f.node < visits.len() && f.node < g.len() && visits[f.node as int] < cap {
            lemma_budget_step(visits, cap, f.node as int);
        }
    }
}

/// No visit of any descriptor yet.
pub open spec fn unvisited(n: nat) -> Seq<usize> {
    Seq::new(n, |i: int| 0usize)
}

/// The paths, by positions, that the walk from the descriptor at `query`
/// records. The queried descriptor is visited whatever `cap` is.
pub open spec fn paths_from(g: GraphView, query: usize, cap: usize) -> Seq<Seq<usize>> {
    let seen = visited(unvisited(g.descriptors.len()), query as int);
    let stack = seq![query];
    if g.parents[query as int].len() == 0 {
        seq![complete(stack)]
    } else {
        explore(g.parents, cap, frames(g.parents[query as int], stack), seen)
    }
}

/// The frames that a stack of pairs stands for. The pair on top is the first
/// frame; a pair holds a descriptor and the length of the stack below it.
pub open spec fn agenda_of(pairs: Seq<(usize, usize)>, cur: Seq<usize>) -> Seq<Frame> {
    Seq::new(
        pairs.len(),
        |k: int|
            Frame {
                node: pairs[pairs.len() - 1 - k].0,
                below: cur.subrange(0, pairs[pairs.len() - 1 - k].1 as int),
            },
    )
}

/// The pairs for the parents `ps`, the first parent on top.
pub open spec fn pairs_for(ps: Seq<usize>, depth: usize) -> Seq<(usize, usize)> {
    Seq::new(ps.len(), |k: int| (ps[ps.len() - 1 - k], depth))
}

/// The values of a list of rows.
pub open spec fn rows(v: Seq<Vec<usize>>) -> Seq<Seq<usize>> {
    Seq::new(v.len(), |i: int| v[i]@)
}

/// Puts the parents `ps` on the stack of pairs, the first parent on top.
fn push_frames(agenda: &mut Vec<(usize, usize)>, ps: &Vec<usize>, depth: usize)
    ensures
        final(agenda)@ == old(agenda)@ + pairs_for(ps@, depth),
{
    let ghost start = agenda@;
    let n: usize = ps.len();
    let mut k: usize = 0;
    while k < n
        invariant
            k <= n,
            n == ps.len(),
            agenda@ == start + pairs_for(ps@, depth).subrange(0, k as int),
        decreases n - k,
    {
        agenda.push((ps[n - 1 - k], depth));
        k = k + 1;
    }
}

/// The path that the stack `cur` stands for.
fn finish(cur: &Vec<usize>) -> (path: Vec<usize>)
    requires
        cur.len() > 0,
    ensures
        path@ == complete(cur@),
{
    let query: usize = cur[0];
    let n: usize = cur.len();
    let ghost rev = cur@.reverse();
    let mut path: Vec<usize> = Vec::new();
    let mut k: usize = 0;
    loop
        invariant
            k < n,
            n == cur.len(),
            query == cur[0],
            rev == cur@.reverse(),
            path@ == rev.subrange(0, k as int),
            forall|j: int| 0 <= j < k ==> rev[j] != query,
        decreases n - k,
    {
        let x: usize = cur[n - 1 - k];
        path.push(x);
        if x == query {
            proof {
                lemma_first_index(rev, query, k as int);
            }
            return path;
        }
        k = k + 1;
    }
}

/// The walk from the descriptor at `query`: adds to `found` the paths that it
/// records, each as positions in the arena of `graph`.
pub fn walk_to_roots(graph: &Graph, query: usize, cap: usize, found: &mut Vec<Vec<usize>>)
    requires
        graph.wf(),
        query < graph@.descriptors.len(),
    ensures
        rows(final(found)@) == rows(old(found)@) + paths_from(graph@, query, cap),
{
    let ghost base = rows(found@);
    let ghost g = graph@.parents;
    proof {
        graph.lemma_wf();
    }
    let n: usize = graph.len();
    let mut visits: Vec<usize> = Vec::new();
    let mut i: usize = 0;
    while i < n
        invariant
            i <= n,
            visits@ == unvisited(i as nat),
        decreases n - i,
    {
        visits.push(0);
        i = i + 1;
    }
    visits.set(query, 1);
    let mut cur: Vec<usize> = Vec::new();
    cur.push(query);
    let first = graph.parents_at(query);
    if first.len() == 0 {
        let path = finish(&cur);
        found.push(path);
        return ;
    }
    let mut agenda: Vec<(usize, usize)> = Vec::new();
    push_frames(&mut agenda, first, 1);
    let ghost total = paths_from(graph@, query, cap);
    let ghost mut emitted: Seq<Seq<usize>> = Seq::empty();
    proof {
        assert(cur@.subrange(0, 1) =~= cur@);
        assert(agenda_of(agenda@, cur@) =~= frames(first@, cur@));
    }
    while agenda.len() > 0
        invariant
            graph.wf(),
            graph@.wf(),
            g == graph@.parents,
            n == graph@.descriptors.len(),
            visits.len() == n,
            cur.len() >= 1,
            forall|k: int|
                0 <= k < agenda.len() ==> (#[trigger] agenda[k]).0 < n && 1 <= agenda[k].1
                    <= cur.len(),
            forall|k1: int, k2: int|
                0 <= k1 <= k2 < agenda.len() ==> (#[trigger] agenda[k1]).1 <= (
                #[trigger] agenda[k2]).1,
            rows(found@) == base + emitted,
            emitted + explore(g, cap, agenda_of(agenda@, cur@), visits@) == total,
        decreases budget(visits@, cap), agenda.len(),
    {
        let ghost pairs0 = agenda@;
        let ghost cur0 = cur@;
        let ghost visits0 = visits@;
        let ghost frames0 = agenda_of(pairs0, cur0);
        let top = agenda.pop().unwrap();
        let p: usize = top.0;
        let d: usize = top.1;
        proof {
            assert(agenda_of(agenda@, cur0) =~= frames0.drop_first());
        }
        if visits[p] < cap {
            let seen: usize = visits[p] + 1;
            visits.set(p, seen);
            cur.truncate(d);
            cur.push(p);
            proof {
                lemma_budget_step(visits0, cap, p as int);
                assert(agenda_of(agenda@, cur@) =~= agenda_of(agenda@, cur0)) by {
                    assert forall|k: int| 0 <= k < agenda.len() implies cur@.subrange(
                        0,
                        (#[trigger] agenda[k]).1 as int,
                    ) == cur0.subrange(0, agenda[k].1 as int) by {
                    }
                }
            }
            let ps = graph.parents_at(p);
            if ps.len() == 0 {
                let path = finish(&cur);
                let ghost found0 = found@;
                found.push(path);
                proof {
                    assert(rows(found@) =~= rows(found0).push(complete(cur@)));
                    emitted = emitted.push(complete(cur@));
                }
            } else {
                let ghost waiting = agenda@;
                let depth: usize = cur.len();
                push_frames(&mut agenda, ps, depth);
                proof {
                    assert(agenda_of(agenda@, cur@) =~= frames(ps@, cur@) + agenda_of(
                        waiting,
                        cur@,
                    )) by {
                        assert(cur@.subrange(0, depth as int) =~= cur@);
                    }
                }
            }
        }
    }
}

} // verus!
