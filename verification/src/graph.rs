//! The descriptor graph: an arena of descriptors with, for each, the list of
//! its parents (reverse adjacency) and the version it resolves to.

use crate::index::{distinct, lemma_position_push, position, Interner};
use crate::model::{entries_of, keys_of, Descriptor, Entry, EntryView, Key};
use vstd::prelude::*;
use vstd::string::*;

verus! {

/// The mathematical value of a graph. Position `i` of each sequence speaks of
/// the descriptor `descriptors[i]`.
pub struct GraphView {
    /// The descriptors, each once, in the order in which they were first seen.
    pub descriptors: Seq<Key>,
    /// For each descriptor the positions of its parents, in the order recorded.
    pub parents: Seq<Seq<usize>>,
    /// Whether the descriptor is a key of the reverse adjacency, that is,
    /// whether some entry depends on it.
    pub keyed: Seq<bool>,
    /// The version that the descriptor resolves to; empty where no entry resolves it.
    pub versions: Seq<Seq<char>>,
}

impl GraphView {
    /// Whether the four sequences speak of the same descriptors, no
    /// descriptor stands twice, every parent is one of them, and only a key
    /// of the reverse adjacency has parents.
    pub open spec fn wf(self) -> bool {
        &&& self.descriptors.len() <= usize::MAX
        &&& self.parents.len() == self.descriptors.len()
        &&& self.keyed.len() == self.descriptors.len()
        &&& self.versions.len() == self.descriptors.len()
        &&& distinct(self.descriptors)
        &&& forall|i: int, k: int|
            0 <= i < self.parents.len() && 0 <= k < self.parents[i].len() ==> (
            #[trigger] self.parents[i][k]) < self.descriptors.len()
        &&& forall|i: int|
            0 <= i < self.parents.len() && !self.keyed[i] ==> (#[trigger] self.parents[i]).len()
                == 0
    }

    /// Whether the descriptor has a position in the arena.
    pub open spec fn has(self, d: Key) -> bool {
        self.descriptors.contains(d)
    }

    /// The position of a descriptor that the arena has.
    pub open spec fn id_of(self, d: Key) -> int {
        position(self.descriptors, d)
    }

    /// The descriptors at the given positions.
    pub open spec fn names(self, ids: Seq<usize>) -> Seq<Key> {
        Seq::new(ids.len(), |k: int| self.descriptors[ids[k] as int])
    }

    /// Whether some entry depends on `d`.
    pub open spec fn is_key(self, d: Key) -> bool {
        self.has(d) && self.keyed[self.id_of(d)]
    }

    /// The parents recorded for `d`; none where `d` is unknown. In a
    /// well-formed graph a descriptor that is no key has none either.
    pub open spec fn parents_of(self, d: Key) -> Seq<Key> {
        if self.has(d) {
            self.names(self.parents[self.id_of(d)])
        } else {
            Seq::empty()
        }
    }

    /// The version that `d` resolves to; empty where nothing resolves it.
    pub open spec fn version_of(self, d: Key) -> Seq<char> {
        if self.has(d) {
            self.versions[self.id_of(d)]
        } else {
            Seq::empty()
        }
    }

    /// With a new descriptor at the end: no parents, no key, no version.
    pub open spec fn extended(self, d: Key) -> GraphView {
        GraphView {
            descriptors: self.descriptors.push(d),
            parents: self.parents.push(Seq::empty()),
            keyed: self.keyed.push(false),
            versions: self.versions.push(Seq::empty()),
        }
    }

    /// With the descriptor at `c` marked as a key.
    pub open spec fn with_key(self, c: int) -> GraphView {
        GraphView { keyed: self.keyed.update(c, true), ..self }
    }

    /// With the descriptor at `p` recorded as one more parent of the one at `c`.
    pub open spec fn with_parent(self, c: int, p: usize) -> GraphView {
        GraphView { parents: self.parents.update(c, self.parents[c].push(p)), ..self }
    }

    /// With `v` as the version of the descriptor at `c`.
    pub open spec fn with_version(self, c: int, v: Seq<char>) -> GraphView {
        GraphView { versions: self.versions.update(c, v), ..self }
    }

    /// Whether both graphs answer alike for `d`.
    pub open spec fn agrees_on(self, other: GraphView, d: Key) -> bool {
        &&& self.parents_of(d) == other.parents_of(d)
        &&& self.is_key(d) == other.is_key(d)
        &&& self.version_of(d) == other.version_of(d)
    }

    /// The graph without descriptors.
    pub open spec fn empty() -> GraphView {
        GraphView {
            descriptors: Seq::empty(),
            parents: Seq::empty(),
            keyed: Seq::empty(),
            versions: Seq::empty(),
        }
    }

    /// With a position for `d`, new only where it had none.
    pub open spec fn interned(self, d: Key) -> GraphView {
        if self.has(d) {
            self
        } else {
            self.extended(d)
        }
    }

    /// With `child` as a key and the first `k` of `parents` as parents of it,
    /// each at the position it has or gets.
    pub open spec fn with_parents(self, child: Key, parents: Seq<Key>, k: int) -> GraphView
        decreases k,
    {
        if k <= 0 {
            let g = self.interned(child);
            g.with_key(g.id_of(child))
        } else {
            let g = self.with_parents(child, parents, k - 1).interned(parents[k - 1]);
            g.with_parent(g.id_of(child), g.id_of(parents[k - 1]) as usize)
        }
    }

    /// With `version` as what `d` resolves to.
    pub open spec fn with_resolution(self, d: Key, version: Seq<char>) -> GraphView {
        let g = self.interned(d);
        g.with_version(g.id_of(d), version)
    }

    /// With the edges onto the first `k` dependencies of `e`.
    pub open spec fn with_edges(self, e: EntryView, k: int) -> GraphView
        decreases k,
    {
        if k <= 0 {
            self
        } else {
            self.with_edges(e, k - 1).with_parents(
                e.dependencies[k - 1],
                e.descriptors,
                e.descriptors.len() as int,
            )
        }
    }

    /// With the version of `e` for the first `k` of its descriptors.
    pub open spec fn with_versions(self, e: EntryView, k: int) -> GraphView
        decreases k,
    {
        if k <= 0 {
            self
        } else {
            self.with_versions(e, k - 1).with_resolution(e.descriptors[k - 1], e.version)
        }
    }
}

/// In a well-formed graph a descriptor is found at its own position.
pub proof fn lemma_id_of(g: GraphView, i: int)
    requires
        g.wf(),
        0 <= i < g.descriptors.len(),
    ensures
        g.has(g.descriptors[i]),
        g.id_of(g.descriptors[i]) == i,
{
}

/// The arena that the first `n` entries give, entry by entry: the edges of an
/// entry, then its version for each of its descriptors.
pub open spec fn graph_of(es: Seq<EntryView>, n: int) -> GraphView
    decreases n,
{
    if n <= 0 {
        GraphView::empty()
    } else {
        let e = es[n - 1];
        graph_of(es, n - 1).with_edges(e, e.dependencies.len() as int).with_versions(
            e,
            e.descriptors.len() as int,
        )
    }
}

/// A descriptor added at the end changes no answer.
pub proof fn lemma_extended(g: GraphView, d: Key, q: Key)
    requires
        g.wf(),
        g.descriptors.len() < usize::MAX,
        !g.has(d),
    ensures
        g.extended(d).wf(),
        g.extended(d).agrees_on(g, q),
        g.extended(d).has(q) == (g.has(q) || q == d),
{
    let h = g.extended(d);
    let n = g.descriptors.len() as int;
    lemma_position_push(g.descriptors, d, q);
    if g.has(q) {
        let i = g.id_of(q);
        assert(h.names(h.parents[i]) =~= g.names(g.parents[i]));
    } else if q == d {
        assert(h.names(h.parents[n]) =~= Seq::<Key>::empty());
    }
}

/// One more parent for a key, the descriptor at `c`, changes that and
/// nothing else.
pub proof fn lemma_with_parent(g: GraphView, c: int, p: usize, q: Key)
    requires
        g.wf(),
        0 <= c < g.descriptors.len(),
        g.keyed[c],
        p < g.descriptors.len(),
    ensures
        g.with_parent(c, p).wf(),
        g.with_parent(c, p).is_key(q) == g.is_key(q),
        g.with_parent(c, p).version_of(q) == g.version_of(q),
        g.with_parent(c, p).parents_of(q) == if q == g.descriptors[c] {
            g.parents_of(q).push(g.descriptors[p as int])
        } else {
            g.parents_of(q)
        },
{
}

/// What one entry records as parents of `d` through its first `n`
/// dependencies: its own descriptors, once for each of those that is `d`.
pub open spec fn entry_parents(e: EntryView, d: Key, n: int) -> Seq<Key>
    decreases n,
{
    if n <= 0 {
        Seq::empty()
    } else {
        entry_parents(e, d, n - 1) + (if e.dependencies[n - 1] == d {
            e.descriptors
        } else {
            Seq::empty()
        })
    }
}

/// The parents of `d` in the reverse adjacency of `es`: for every dependency
/// edge onto `d`, entry by entry and edge by edge, the descriptors of the
/// entry that has the edge.
pub open spec fn reverse_parents(es: Seq<EntryView>, d: Key) -> Seq<Key>
    decreases es.len(),
{
    if es.len() == 0 {
        Seq::empty()
    } else {
        reverse_parents(es.drop_last(), d) + entry_parents(
            es.last(),
            d,
            es.last().dependencies.len() as int,
        )
    }
}

/// Whether some entry of `es` depends on `d`.
pub open spec fn depended_on(es: Seq<EntryView>, d: Key) -> bool {
    exists|i: int| 0 <= i < es.len() && (#[trigger] es[i]).dependencies.contains(d)
}

/// The version of the last entry of `es` that `d` resolves to; empty where
/// there is none.
pub open spec fn resolved_version(es: Seq<EntryView>, d: Key) -> Seq<char>
    decreases es.len(),
{
    if es.len() == 0 {
        Seq::empty()
    } else if es.last().descriptors.contains(d) {
        es.last().version
    } else {
        resolved_version(es.drop_last(), d)
    }
}

/// The graph of the descriptors of a lockfile, held in an arena.
pub struct Graph {
    arena: Interner,
    parents: Vec<Vec<usize>>,
    keyed: Vec<bool>,
    versions: Vec<String>,
}

impl View for Graph {
    type V = GraphView;

    closed spec fn view(&self) -> GraphView {
        GraphView {
            descriptors: self.arena@,
            parents: Seq::new(self.parents.len() as nat, |i: int| self.parents[i]@),
            keyed: self.keyed@,
            versions: Seq::new(self.versions.len() as nat, |i: int| self.versions[i]@),
        }
    }
}

impl Graph {
    /// The arena is well formed, and so is what is recorded over it.
    pub closed spec fn wf(&self) -> bool {
        &&& self.arena.wf()
        &&& self@.wf()
    }

    /// The value of a well-formed graph is well formed.
    pub proof fn lemma_wf(&self)
        requires
            self.wf(),
        ensures
            self@.wf(),
    {
    }

    /// A graph without descriptors.
    pub fn new() -> (g: Graph)
        ensures
            g.wf(),
            g@ == GraphView::empty(),
    {
        let g = Graph {
            arena: Interner::new(),
            parents: Vec::new(),
            keyed: Vec::new(),
            versions: Vec::new(),
        };
        proof {
            assert(g@.descriptors =~= Seq::<Key>::empty());
            assert(g@.parents =~= Seq::<Seq<usize>>::empty());
            assert(g@.versions =~= Seq::<Seq<char>>::empty());
        }
        g
    }

    /// The number of descriptors in the arena.
    pub fn len(&self) -> (n: usize)
        ensures
            n == self@.descriptors.len(),
    {
        self.arena.len()
    }

    /// The position of `d`, which is added at the end where the arena does not have it.
    pub fn intern(&mut self, d: &Descriptor) -> (id: usize)
        requires
            old(self).wf(),
        ensures
            final(self).wf(),
            id < final(self)@.descriptors.len(),
            final(self)@.descriptors[id as int] == d@,
            final(self)@ == old(self)@.interned(d@),
            id == final(self)@.id_of(d@),
    {
        match self.arena.lookup(d) {
            Some(i) => {
                i
            },
            None => {
                let ghost g0 = self@;
                let id: usize = self.arena.push(d.clone());
                self.parents.push(Vec::new());
                self.keyed.push(false);
                self.versions.push(String::new());
                proof {
                    self.arena.lemma_bounded();
                    lemma_extended(g0, d@, d@);
                    assert(self@.parents =~= g0.parents.push(Seq::empty()));
                    assert(self@.versions =~= g0.versions.push(Seq::empty()));
                }
                id
            },
        }
    }

    /// Records every descriptor of `parents`, in order, as one more parent of
    /// `child`, and `child` as a key of the reverse adjacency.
    pub fn add_parents(&mut self, child: &Descriptor, parents: &Vec<Descriptor>)
        requires
            old(self).wf(),
        ensures
            final(self).wf(),
            final(self)@ == old(self)@.with_parents(
                child@,
                keys_of(parents@),
                parents.len() as int,
            ),
            final(self)@.is_key(child@),
            final(self)@.parents_of(child@) == old(self)@.parents_of(child@) + keys_of(parents@),
            forall|d: Key|
                d != child@ ==> #[trigger] final(self)@.parents_of(d) == old(self)@.parents_of(d),
            forall|d: Key| d != child@ ==> #[trigger] final(self)@.is_key(d) == old(self)@.is_key(d),
            forall|d: Key| #[trigger] final(self)@.version_of(d) == old(self)@.version_of(d),
    {
        let ghost g0 = self@;
        let c: usize = self.intern(child);
        proof {
            if !g0.has(child@) {
                assert forall|d: Key| self@.agrees_on(g0, d) by {
                    lemma_extended(g0, child@, d);
                }
            }
        }
        let ghost g1 = self@;
        self.keyed.set(c, true);
        proof {
            assert forall|d: Key|
                self@.parents_of(d) == g0.parents_of(d) && self@.version_of(d) == g0.version_of(d)
                    && self@.is_key(d) == (g0.is_key(d) || d == child@) by {
                assert(g1.agrees_on(g0, d));
            }
        }
        let mut k: usize = 0;
        while k < parents.len()
            invariant
                k <= parents.len(),
                self.wf(),
                c < self@.descriptors.len(),
                self@.descriptors[c as int] == child@,
                self@.keyed[c as int],
                self@ == g0.with_parents(child@, keys_of(parents@), k as int),
                self@.parents_of(child@) == g0.parents_of(child@) + keys_of(parents@).take(
                    k as int,
                ),
                forall|d: Key| d != child@ ==> #[trigger] self@.parents_of(d) == g0.parents_of(d),
                forall|d: Key| #[trigger] self@.is_key(d) == (g0.is_key(d) || d == child@),
                forall|d: Key| #[trigger] self@.version_of(d) == g0.version_of(d),
            decreases parents.len() - k,
        {
            let ghost h0 = self@;
            let p: usize = self.intern(&parents[k]);
            let ghost h1 = self@;
            proof {
                assert forall|d: Key| h1.agrees_on(h0, d) by {
                    if !h0.has(parents[k as int]@) {
                        lemma_extended(h0, parents[k as int]@, d);
                    }
                }
                lemma_id_of(h1, c as int);
            }
            let mut row: Vec<usize> = Vec::new();
            std::mem::swap(&mut row, &mut self.parents[c]);
            row.push(p);
            std::mem::swap(&mut row, &mut self.parents[c]);
            proof {
                assert(self@.parents =~= h1.parents.update(c as int, h1.parents[c as int].push(p)));
                assert forall|d: Key|
                    self@.is_key(d) == h1.is_key(d) && self@.version_of(d) == h1.version_of(d)
                        && self@.parents_of(d) == (if d == child@ {
                        h1.parents_of(d).push(parents[k as int]@)
                    } else {
                        h1.parents_of(d)
                    }) by {
                }
                lemma_with_parent(h1, c as int, p, child@);
                assert forall|d: Key| #[trigger] self@.is_key(d) == (g0.is_key(d) || d == child@) by {
                    assert(h1.agrees_on(h0, d));
                }
                assert forall|d: Key| #[trigger] self@.version_of(d) == g0.version_of(d) by {
                    assert(h1.agrees_on(h0, d));
                }
                assert forall|d: Key| d != child@ implies #[trigger] self@.parents_of(d)
                    == g0.parents_of(d) by {
                    assert(h1.agrees_on(h0, d));
                }
                assert(h1.agrees_on(h0, child@));
            }
            k = k + 1;
        }
    }

    /// Records `version` as the version that `d` resolves to.
    pub fn set_version(&mut self, d: &Descriptor, version: &String)
        requires
            old(self).wf(),
        ensures
            final(self).wf(),
            final(self)@ == old(self)@.with_resolution(d@, version@),
            final(self)@.version_of(d@) == version@,
            final(self)@.has(d@),
            forall|q: Key| q != d@ ==> #[trigger] final(self)@.version_of(q) == old(self)@.version_of(q),
            forall|q: Key| #[trigger] final(self)@.parents_of(q) == old(self)@.parents_of(q),
            forall|q: Key| #[trigger] final(self)@.is_key(q) == old(self)@.is_key(q),
    {
        let ghost g0 = self@;
        let c: usize = self.intern(d);
        let ghost g1 = self@;
        proof {
            assert forall|q: Key| g1.agrees_on(g0, q) by {
                if !g0.has(d@) {
                    lemma_extended(g0, d@, q);
                }
            }
        }
        self.versions.set(c, version.clone());
        proof {
            assert(self@.versions =~= g1.versions.update(c as int, version@));
            assert forall|q: Key| q != d@ implies #[trigger] self@.version_of(q) == g0.version_of(
                q,
            ) by {
                assert(g1.agrees_on(g0, q));
            }
            assert forall|q: Key| #[trigger] self@.parents_of(q) == g0.parents_of(q) by {
                assert(g1.agrees_on(g0, q));
            }
            assert forall|q: Key| #[trigger] self@.is_key(q) == g0.is_key(q) by {
                assert(g1.agrees_on(g0, q));
            }
        }
    }

    /// The descriptor at position `id`.
    pub fn descriptor_at(&self, id: usize) -> (d: &Descriptor)
        requires
            id < self@.descriptors.len(),
        ensures
            d@ == self@.descriptors[id as int],
    {
        self.arena.get(id)
    }

    /// The positions of the parents of the descriptor at position `id`.
    pub fn parents_at(&self, id: usize) -> (ps: &Vec<usize>)
        requires
            id < self@.parents.len(),
        ensures
            ps@ == self@.parents[id as int],
    {
        &self.parents[id]
    }

    /// Whether some entry depends on the descriptor at position `id`.
    pub fn keyed_at(&self, id: usize) -> (b: bool)
        requires
            id < self@.keyed.len(),
        ensures
            b == self@.keyed[id as int],
    {
        self.keyed[id]
    }

    /// The version that the descriptor at position `id` resolves to.
    pub fn version_at(&self, id: usize) -> (v: &String)
        requires
            id < self@.versions.len(),
        ensures
            v@ == self@.versions[id as int],
    {
        &self.versions[id]
    }

    /// Whether some entry depends on `d`.
    pub fn contains_key(&self, d: &Descriptor) -> (b: bool)
        requires
            self.wf(),
        ensures
            b == self@.is_key(d@),
    {
        match self.lookup(d) {
            Some(i) => self.keyed[i],
            None => false,
        }
    }

    /// The parents recorded for `d`, in order, where `d` is a key of the
    /// reverse adjacency; none where it is not. The graph stays as it is.
    pub fn get_parents(&self, d: &Descriptor) -> (ps: Vec<Descriptor>)
        requires
            self.wf(),
        ensures
            keys_of(ps@) == self@.parents_of(d@),
            !self@.is_key(d@) ==> ps@.len() == 0,
    {
        let mut out: Vec<Descriptor> = Vec::new();
        match self.lookup(d) {
            Some(i) => {
                if !self.keyed[i] {
                    return out;
                }
                let row = &self.parents[i];
                let mut k: usize = 0;
                while k < row.len()
                    invariant
                        k <= row.len(),
                        self.wf(),
                        i < self@.descriptors.len(),
                        row@ == self@.parents[i as int],
                        out.len() == k,
                        forall|j: int|
                            0 <= j < k ==> out[j]@ == self@.descriptors[row[j] as int],
                    decreases row.len() - k,
                {
                    out.push(self.arena.get(row[k]).clone());
                    k = k + 1;
                }
            },
            None => {},
        }
        out
    }

    /// The version that `d` resolves to; empty where nothing resolves it.
    pub fn version_of(&self, d: &Descriptor) -> (v: String)
        requires
            self.wf(),
        ensures
            v@ == self@.version_of(d@),
    {
        match self.lookup(d) {
            Some(i) => self.versions[i].clone(),
            None => String::new(),
        }
    }

    /// The graph of a list of entries: for every dependency edge of an entry,
    /// each descriptor of that entry becomes a parent of the dependency.
    pub fn from_entries(entries: &Vec<Entry>) -> (g: Graph)
        ensures
            g.wf(),
            g@ == graph_of(entries_of(entries@), entries.len() as int),
            forall|d: Key| #[trigger] g@.parents_of(d) == reverse_parents(entries_of(entries@), d),
            forall|d: Key| #[trigger] g@.is_key(d) == depended_on(entries_of(entries@), d),
            forall|d: Key| #[trigger] g@.version_of(d) == resolved_version(entries_of(entries@), d),
    {
        let ghost es = entries_of(entries@);
        let mut g = Graph::new();
        let mut i: usize = 0;
        while i < entries.len()
            invariant
                i <= entries.len(),
                es == entries_of(entries@),
                g.wf(),
                g@ == graph_of(es, i as int),
                forall|d: Key| #[trigger] g@.parents_of(d) == reverse_parents(es.take(i as int), d),
                forall|d: Key| #[trigger] g@.is_key(d) == depended_on(es.take(i as int), d),
                forall|d: Key| #[trigger]
                    g@.version_of(d) == resolved_version(es.take(i as int), d),
            decreases entries.len() - i,
        {
            let e = &entries[i];
            let ghost before = es.take(i as int);
            let ghost after = es.take(i + 1);
            let ghost arena0 = g@;
            proof {
                assert(es[i as int] == e@);
                assert(after.drop_last() =~= before);
            }
            let mut k: usize = 0;
            while k < e.dependencies.len()
                invariant
                    k <= e.dependencies.len(),
                    g.wf(),
                    g@ == arena0.with_edges(e@, k as int),
                    forall|d: Key| #[trigger]
                        g@.parents_of(d) == reverse_parents(before, d) + entry_parents(
                            e@,
                            d,
                            k as int,
                        ),
                    forall|d: Key| #[trigger]
                        g@.is_key(d) == (depended_on(before, d) || e@.dependencies.take(
                            k as int,
                        ).contains(d)),
                    forall|d: Key| #[trigger] g@.version_of(d) == resolved_version(before, d),
                decreases e.dependencies.len() - k,
            {
                let ghost dep = e.dependencies[k as int]@;
                g.add_parents(&e.dependencies[k], &e.descriptors);
                proof {
                    assert forall|d: Key| #[trigger]
                        g@.is_key(d) == (depended_on(before, d) || e@.dependencies.take(
                            k + 1,
                        ).contains(d)) by {
                        let long = e@.dependencies.take(k + 1);
                        if d == dep {
                            assert(long[k as int] == d);
                        }
                    }
                }
                k = k + 1;
            }
            proof {
                assert(e@.dependencies.take(k as int) =~= e@.dependencies);
            }
            let mut m: usize = 0;
            let ghost arena1 = g@;
            while m < e.descriptors.len()
                invariant
                    m <= e.descriptors.len(),
                    g.wf(),
                    arena1 == arena0.with_edges(e@, e@.dependencies.len() as int),
                    g@ == arena1.with_versions(e@, m as int),
                    forall|d: Key| #[trigger] g@.parents_of(d) == reverse_parents(after, d),
                    forall|d: Key| #[trigger] g@.is_key(d) == depended_on(after, d),
                    forall|d: Key| #[trigger]
                        g@.version_of(d) == (if e@.descriptors.take(m as int).contains(d) {
                            e@.version
                        } else {
                            resolved_version(before, d)
                        }),
                decreases e.descriptors.len() - m,
            {
                let ghost own = e.descriptors[m as int]@;
                g.set_version(&e.descriptors[m], &e.version);
                proof {
                    assert forall|d: Key| #[trigger]
                        g@.version_of(d) == (if e@.descriptors.take(m + 1).contains(d) {
                            e@.version
                        } else {
                            resolved_version(before, d)
                        }) by {
                        let long = e@.descriptors.take(m + 1);
                        if d == own {
                            assert(long[m as int] == d);
                        }
                    }
                }
                m = m + 1;
            }
            proof {
                assert(e@.descriptors.take(m as int) =~= e@.descriptors);
            }
            i = i + 1;
        }
        proof {
            assert(es.take(i as int) =~= es);
        }
        g
    }

    /// The position of `d` in the arena.
    pub fn lookup(&self, d: &Descriptor) -> (r: Option<usize>)
        requires
            self.wf(),
        ensures
            match r {
                Some(i) => self@.has(d@) && i == self@.id_of(d@) && i < self@.descriptors.len(),
                None => !self@.has(d@),
            },
    {
        self.arena.lookup(d)
    }
}

} // verus!
