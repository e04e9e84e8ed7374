//! The forest that a sorted list of paths merges into.
//!
//! A descriptor has one node, whatever the number of paths that hold it. A
//! node's children are the descriptors that follow it in some path, each once,
//! in the order in which the paths bring them.

use crate::graph::{Graph, GraphView};
use crate::index::{distinct, lemma_position, lemma_position_push, position, Interner};
use crate::model::{keys_of, Descriptor, Key};
use vstd::prelude::*;
use vstd::string::*;

verus! {

/// The mathematical value of a node of the forest.
pub struct NodeView {
    pub descriptor: Key,
    pub version: Seq<char>,
    /// The positions of the children, in order.
    pub children: Seq<usize>,
}

/// The mathematical value of a forest: its nodes, and the positions of the roots.
pub struct ForestView {
    pub nodes: Seq<NodeView>,
    pub roots: Seq<usize>,
}

impl ForestView {
    /// The descriptors of the nodes, by position.
    pub open spec fn descriptors(self) -> Seq<Key> {
        Seq::new(self.nodes.len(), |i: int| self.nodes[i].descriptor)
    }

    /// Whether no descriptor has two nodes, and every root and every child
    /// is a node.
    pub open spec fn wf(self) -> bool {
        &&& distinct(self.descriptors())
        &&& forall|k: int| 0 <= k < self.roots.len() ==> (#[trigger] self.roots[k]) < self.nodes.len()
        &&& forall|i: int, k: int|
            0 <= i < self.nodes.len() && 0 <= k < self.nodes[i].children.len() ==> (
            #[trigger] self.nodes[i].children[k]) < self.nodes.len()
    }

    /// Whether `d` has a node.
    pub open spec fn has(self, d: Key) -> bool {
        self.descriptors().contains(d)
    }

    /// The position of the node of `d`.
    pub open spec fn id_of(self, d: Key) -> int {
        position(self.descriptors(), d)
    }

    /// The forest without nodes.
    pub open spec fn empty() -> ForestView {
        ForestView { nodes: Seq::empty(), roots: Seq::empty() }
    }

    /// With a new node for `d`, without children, at the end.
    pub open spec fn with_node(self, d: Key, version: Seq<char>) -> ForestView {
        ForestView {
            nodes: self.nodes.push(NodeView { descriptor: d, version, children: Seq::empty() }),
            ..self
        }
    }

    /// With the node at `id` as one more root.
    pub open spec fn with_root(self, id: usize) -> ForestView {
        ForestView { roots: self.roots.push(id), ..self }
    }

    /// With the node at `child` as one more child of the node at `parent`.
    pub open spec fn with_child(self, parent: int, child: usize) -> ForestView {
        ForestView {
            nodes: self.nodes.update(
                parent,
                NodeView { children: self.nodes[parent].children.push(child), ..self.nodes[parent] },
            ),
            ..self
        }
    }

    /// With a node for `d`, new only where there was none.
    pub open spec fn fetched(self, d: Key, version: Seq<char>) -> ForestView {
        if self.has(d) {
            self
        } else {
            self.with_node(d, version)
        }
    }
}

/// Whether `prev` and `path` both have `n` descriptors and agree on the first `n`.
pub open spec fn same_prefix(prev: Seq<Key>, path: Seq<Key>, n: int) -> bool {
    n <= prev.len() && n <= path.len() && prev.subrange(0, n) == path.subrange(0, n)
}

/// The forest after the descriptor at `i` of `path` has been placed in `f`.
/// `prev` is the path before this one, if there is one.
///
/// The first descriptor of a path gets a node, which is a new root, unless it
/// has a node already. A later one is passed over where the path before agrees
/// up to and including it. Otherwise it gets a node, unless it has one, and
/// becomes a child of the descriptor before it, unless it is one. (The
/// descriptor before it has its node: it was placed in its turn.)
pub open spec fn place(
    f: ForestView,
    g: GraphView,
    prev: Option<Seq<Key>>,
    path: Seq<Key>,
    i: int,
) -> ForestView {
    let d = path[i];
    if i == 0 {
        if f.has(d) {
            f
        } else {
            f.with_node(d, g.version_of(d)).with_root(f.nodes.len() as usize)
        }
    } else if prev is Some && same_prefix(prev->0, path, i + 1) {
        f
    } else {
        let f1 = f.fetched(d, g.version_of(d));
        let child = f1.id_of(d);
        let parent = f1.id_of(path[i - 1]);
        if !f1.has(path[i - 1]) || f1.nodes[parent].children.contains(child as usize) {
            f1
        } else {
            f1.with_child(parent, child as usize)
        }
    }
}

/// The forest after the first `n` descriptors of `path` have been placed in `f`.
pub open spec fn place_path(
    f: ForestView,
    g: GraphView,
    prev: Option<Seq<Key>>,
    path: Seq<Key>,
    n: int,
) -> ForestView
    decreases n,
{
    if n <= 0 {
        f
    } else {
        place(place_path(f, g, prev, path, n - 1), g, prev, path, n - 1)
    }
}

/// The path before the one at `j`.
pub open spec fn path_before(paths: Seq<Seq<Key>>, j: int) -> Option<Seq<Key>> {
    if j > 0 {
        Some(paths[j - 1])
    } else {
        None
    }
}

/// The forest of the first `n` paths, placed one after the other from the left.
pub open spec fn grown(g: GraphView, paths: Seq<Seq<Key>>, n: int) -> ForestView
    decreases n,
{
    if n <= 0 {
        ForestView::empty()
    } else {
        place_path(
            grown(g, paths, n - 1),
            g,
            path_before(paths, n - 1),
            paths[n - 1],
            paths[n - 1].len() as int,
        )
    }
}

/// The values of a list of paths.
pub open spec fn paths_of(ps: Seq<Vec<Descriptor>>) -> Seq<Seq<Key>> {
    Seq::new(ps.len(), |i: int| keys_of(ps[i]@))
}

/// A new node changes no position and keeps what is known of the others.
pub proof fn lemma_with_node(f: ForestView, d: Key, version: Seq<char>, q: Key)
    requires
        f.wf(),
        !f.has(d),
    ensures
        f.with_node(d, version).wf(),
        f.with_node(d, version).has(q) == (f.has(q) || q == d),
        f.has(q) ==> f.with_node(d, version).id_of(q) == f.id_of(q),
        f.with_node(d, version).id_of(d) == f.nodes.len(),
{
    let h = f.with_node(d, version);
    assert(h.descriptors() =~= f.descriptors().push(d));
    lemma_position_push(f.descriptors(), d, q);
}

/// A new root or a new child changes no descriptor.
pub proof fn lemma_same_descriptors(f: ForestView, h: ForestView)
    requires
        f.nodes.len() == h.nodes.len(),
        forall|i: int| 0 <= i < f.nodes.len() ==> f.nodes[i].descriptor == h.nodes[i].descriptor,
    ensures
        f.descriptors() == h.descriptors(),
{
}

/// Whether `h` has every node of `f` at its position, with the children it
/// had there, and maybe more.
pub open spec fn extends(f: ForestView, h: ForestView) -> bool {
    &&& f.nodes.len() <= h.nodes.len()
    &&& forall|i: int|
        0 <= i < f.nodes.len() ==> (#[trigger] h.nodes[i]).descriptor == f.nodes[i].descriptor
    &&& forall|i: int, x: usize|
        0 <= i < f.nodes.len() && f.nodes[i].children.contains(x) ==> #[trigger] h.nodes[i].children.contains(
            x,
        )
}

/// Whether `child` has a node that is a child of the node of `parent`.
pub open spec fn has_edge(f: ForestView, parent: Key, child: Key) -> bool {
    &&& f.has(parent)
    &&& f.has(child)
    &&& f.nodes[f.id_of(parent)].children.contains(f.id_of(child) as usize)
}

/// Whether the first `n` descriptors of `path` have their nodes, each one
/// after the first as a child of the one before it.
pub open spec fn holds_path(f: ForestView, path: Seq<Key>, n: int) -> bool {
    &&& forall|k: int| 0 <= k < n ==> f.has(#[trigger] path[k])
    &&& forall|k: int, m: int|
        0 <= k && m == k + 1 && m < n ==> has_edge(f, #[trigger] path[k], #[trigger] path[m])
}

/// What a forest has, a forest that extends it has at the same position.
pub proof fn lemma_extends_has(f: ForestView, h: ForestView, d: Key)
    requires
        h.wf(),
        extends(f, h),
        f.has(d),
    ensures
        h.has(d),
        h.id_of(d) == f.id_of(d),
        0 <= f.id_of(d) < f.nodes.len(),
{
    let i = f.id_of(d);
    lemma_position(h.descriptors(), i);
}

/// The paths that a forest holds, a forest that extends it holds too.
pub proof fn lemma_extends_holds(f: ForestView, h: ForestView, path: Seq<Key>, n: int)
    requires
        h.wf(),
        extends(f, h),
        holds_path(f, path, n),
    ensures
        holds_path(h, path, n),
{
    assert forall|k: int| 0 <= k < n implies h.has(#[trigger] path[k]) by {
        lemma_extends_has(f, h, path[k]);
    }
    assert forall|k: int, m: int| 0 <= k && m == k + 1 && m < n implies has_edge(
        h,
        #[trigger] path[k],
        #[trigger] path[m],
    ) by {
        lemma_extends_has(f, h, path[k]);
        lemma_extends_has(f, h, path[m]);
    }
}

/// One more child keeps the forest well formed and extends it.
pub proof fn lemma_with_child(f: ForestView, parent: int, child: usize)
    requires
        f.wf(),
        0 <= parent < f.nodes.len(),
        child < f.nodes.len(),
    ensures
        f.with_child(parent, child).wf(),
        extends(f, f.with_child(parent, child)),
        f.with_child(parent, child).descriptors() == f.descriptors(),
        f.with_child(parent, child).nodes[parent].children.contains(child),
{
    let h = f.with_child(parent, child);
    lemma_same_descriptors(f, h);
    let row = f.nodes[parent].children;
    assert(h.nodes[parent].children[row.len() as int] == child);
    assert forall|i: int, x: usize|
        0 <= i < f.nodes.len() && f.nodes[i].children.contains(
            x,
        ) implies #[trigger] h.nodes[i].children.contains(x) by {
        if i == parent {
            let k = choose|k: int| 0 <= k < row.len() && row[k] == x;
            assert(h.nodes[i].children[k] == x);
        }
    }
}

/// A new node keeps the forest well formed and extends it.
pub proof fn lemma_with_node_extends(f: ForestView, d: Key, version: Seq<char>)
    requires
        f.wf(),
        !f.has(d),
    ensures
        f.with_node(d, version).wf(),
        extends(f, f.with_node(d, version)),
        f.with_node(d, version).has(d),
        f.with_node(d, version).id_of(d) == f.nodes.len(),
{
    lemma_with_node(f, d, version, d);
}

/// Placing a descriptor keeps the forest well formed and extends it; the
/// descriptor then has its node, as a child of the one before it.
pub proof fn lemma_place(f: ForestView, g: GraphView, prev: Option<Seq<Key>>, path: Seq<Key>, i: int)
    requires
        f.wf(),
        0 <= i < path.len(),
        i > 0 ==> f.has(path[i - 1]),
        prev is Some ==> holds_path(f, prev->0, prev->0.len() as int),
        place(f, g, prev, path, i).nodes.len() <= usize::MAX,
    ensures
        place(f, g, prev, path, i).wf(),
        extends(f, place(f, g, prev, path, i)),
        place(f, g, prev, path, i).has(path[i]),
        i > 0 ==> has_edge(place(f, g, prev, path, i), path[i - 1], path[i]),
{
    let d = path[i];
    if i == 0 {
        if !f.has(d) {
            let f1 = f.with_node(d, g.version_of(d));
            lemma_with_node_extends(f, d, g.version_of(d));
        }
    } else if prev is Some && same_prefix(prev->0, path, i + 1) {
        let before = prev->0;
        assert(before.subrange(0, i + 1)[i] == path.subrange(0, i + 1)[i]);
        assert(before.subrange(0, i + 1)[i - 1] == path.subrange(0, i + 1)[i - 1]);
    } else {
        let f1 = f.fetched(d, g.version_of(d));
        if !f.has(d) {
            lemma_with_node_extends(f, d, g.version_of(d));
        }
        lemma_extends_has(f, f1, path[i - 1]);
        let child = f1.id_of(d);
        let parent = f1.id_of(path[i - 1]);
        if !f1.nodes[parent].children.contains(child as usize) {
            lemma_with_child(f1, parent, child as usize);
        }
    }
}

/// Placing the first `n` descriptors of a path keeps the forest well formed
/// and extends it; the forest then holds these descriptors as a path.
pub proof fn lemma_place_path(
    f: ForestView,
    g: GraphView,
    prev: Option<Seq<Key>>,
    path: Seq<Key>,
    n: int,
)
    requires
        f.wf(),
        0 <= n <= path.len(),
        prev is Some ==> holds_path(f, prev->0, prev->0.len() as int),
        place_path(f, g, prev, path, n).nodes.len() <= usize::MAX,
    ensures
        place_path(f, g, prev, path, n).wf(),
        extends(f, place_path(f, g, prev, path, n)),
        holds_path(place_path(f, g, prev, path, n), path, n),
    decreases n,
{
    if n > 0 {
        let before = place_path(f, g, prev, path, n - 1);
        let h = place_path(f, g, prev, path, n);
        lemma_place_path(f, g, prev, path, n - 1);
        if prev is Some {
            lemma_extends_holds(f, before, prev->0, prev->0.len() as int);
        }
        lemma_place(before, g, prev, path, n - 1);
        lemma_extends_holds(before, h, path, n - 1);
    }
}

/// Placing descriptors takes no node away.
pub proof fn lemma_place_path_grows(
    f: ForestView,
    g: GraphView,
    prev: Option<Seq<Key>>,
    path: Seq<Key>,
    n: int,
)
    ensures
        f.nodes.len() <= place_path(f, g, prev, path, n).nodes.len(),
    decreases n,
{
    if n > 0 {
        lemma_place_path_grows(f, g, prev, path, n - 1);
    }
}

/// The forest of the first `n` paths is well formed and holds each of them:
/// every descriptor of a path has its node, as a child of the node of the
/// descriptor before it.
pub proof fn lemma_grown(g: GraphView, paths: Seq<Seq<Key>>, n: int)
    requires
        0 <= n <= paths.len(),
        grown(g, paths, n).nodes.len() <= usize::MAX,
    ensures
        grown(g, paths, n).wf(),
        forall|j: int|
            0 <= j < n ==> holds_path(grown(g, paths, n), #[trigger] paths[j], paths[j].len() as int),
    decreases n,
{
    let f = grown(g, paths, n);
    if n > 0 {
        let before = grown(g, paths, n - 1);
        let prev = path_before(paths, n - 1);
        let path = paths[n - 1];
        lemma_place_path_grows(before, g, prev, path, path.len() as int);
        lemma_grown(g, paths, n - 1);
        lemma_place_path(before, g, prev, path, path.len() as int);
        assert forall|j: int| 0 <= j < n implies holds_path(
            f,
            #[trigger] paths[j],
            paths[j].len() as int,
        ) by {
            if j < n - 1 {
                lemma_extends_holds(before, f, paths[j], paths[j].len() as int);
            }
        }
    }
}

/// Whether one of the paths holds `d`.
pub open spec fn brings(paths: Seq<Seq<Key>>, d: Key) -> bool {
    exists|j: int, k: int| 0 <= j < paths.len() && 0 <= k < paths[j].len() && paths[j][k] == d
}

/// Whether one of the paths holds `b` right after `a`.
pub open spec fn brings_edge(paths: Seq<Seq<Key>>, a: Key, b: Key) -> bool {
    exists|j: int, k: int, m: int|
        0 <= j < paths.len() && 0 <= k && m == k + 1 && m < paths[j].len() && (
        #[trigger] paths[j][k]) == a && (#[trigger] paths[j][m]) == b
}

/// Whether one of the paths begins with `d`.
pub open spec fn brings_first(paths: Seq<Seq<Key>>, d: Key) -> bool {
    exists|j: int| 0 <= j < paths.len() && paths[j].len() > 0 && paths[j][0] == d
}

/// Whether the forest has nothing but what the paths bring: every node
/// stands for a descriptor of a path, every child follows its parent in a
/// path, and every root begins a path.
pub open spec fn only_from(f: ForestView, paths: Seq<Seq<Key>>) -> bool {
    &&& forall|i: int|
        0 <= i < f.nodes.len() ==> brings(paths, (#[trigger] f.nodes[i]).descriptor)
    &&& forall|i: int, k: int|
        0 <= i < f.nodes.len() && 0 <= k < f.nodes[i].children.len() ==> brings_edge(
            paths,
            f.nodes[i].descriptor,
            f.nodes[(#[trigger] f.nodes[i].children[k]) as int].descriptor,
        )
    &&& forall|k: int|
        0 <= k < f.roots.len() ==> brings_first(
            paths,
            f.nodes[(#[trigger] f.roots[k]) as int].descriptor,
        )
}

/// The paths placed before, and the first `n` descriptors of the one in hand.
pub open spec fn placed(before: Seq<Seq<Key>>, path: Seq<Key>, n: int) -> Seq<Seq<Key>> {
    before.push(path.subrange(0, n))
}

/// What fewer descriptors of the path in hand bring, more of them bring too.
proof fn lemma_placed_more(f: ForestView, before: Seq<Seq<Key>>, path: Seq<Key>, n: int)
    requires
        f.wf(),
        0 <= n < path.len(),
        only_from(f, placed(before, path, n)),
    ensures
        only_from(f, placed(before, path, n + 1)),
{
    let old = placed(before, path, n);
    let new = placed(before, path, n + 1);
    assert forall|d: Key| brings(old, d) implies brings(new, d) by {
        let (j, k) = choose|j: int, k: int|
            0 <= j < old.len() && 0 <= k < old[j].len() && old[j][k] == d;
        assert(new[j][k] == d);
    }
    assert forall|a: Key, b: Key| brings_edge(old, a, b) implies brings_edge(new, a, b) by {
        let (j, k, m) = choose|j: int, k: int, m: int|
            0 <= j < old.len() && 0 <= k && m == k + 1 && m < old[j].len() && (
            #[trigger] old[j][k]) == a && (#[trigger] old[j][m]) == b;
        assert(new[j][k] == a && new[j][m] == b);
    }
    assert forall|d: Key| brings_first(old, d) implies brings_first(new, d) by {
        let j = choose|j: int| 0 <= j < old.len() && old[j].len() > 0 && old[j][0] == d;
        assert(new[j][0] == d);
    }
}

/// Placing a descriptor adds nothing but what it brings.
proof fn lemma_place_only(
    f: ForestView,
    g: GraphView,
    prev: Option<Seq<Key>>,
    before: Seq<Seq<Key>>,
    path: Seq<Key>,
    i: int,
)
    requires
        f.wf(),
        0 <= i < path.len(),
        i > 0 ==> f.has(path[i - 1]),
        place(f, g, prev, path, i).nodes.len() <= usize::MAX,
        only_from(f, placed(before, path, i)),
    ensures
        only_from(place(f, g, prev, path, i), placed(before, path, i + 1)),
{
    let d = path[i];
    let new = placed(before, path, i + 1);
    let last = before.len() as int;
    lemma_placed_more(f, before, path, i);
    assert(new[last][i] == d);
    if i == 0 {
        if !f.has(d) {
            let f1 = f.with_node(d, g.version_of(d));
        }
    } else if prev is Some && same_prefix(prev->0, path, i + 1) {
    } else {
        let f1 = f.fetched(d, g.version_of(d));
        if !f.has(d) {
            lemma_with_node_extends(f, d, g.version_of(d));
        }
        let child = f1.id_of(d);
        let parent = f1.id_of(path[i - 1]);
        if !f1.nodes[parent].children.contains(child as usize) {
            assert(new[last][i - 1] == path[i - 1] && new[last][i] == d);
        }
    }
}

/// Placing the first `n` descriptors of a path adds nothing but what they bring.
proof fn lemma_place_path_only(
    f: ForestView,
    g: GraphView,
    prev: Option<Seq<Key>>,
    before: Seq<Seq<Key>>,
    path: Seq<Key>,
    n: int,
)
    requires
        f.wf(),
        0 <= n <= path.len(),
        prev is Some ==> holds_path(f, prev->0, prev->0.len() as int),
        place_path(f, g, prev, path, n).nodes.len() <= usize::MAX,
        only_from(f, before),
    ensures
        only_from(place_path(f, g, prev, path, n), placed(before, path, n)),
    decreases n,
{
    if n > 0 {
        let earlier = place_path(f, g, prev, path, n - 1);
        lemma_place_path_only(f, g, prev, before, path, n - 1);
        lemma_place_path(f, g, prev, path, n - 1);
        lemma_place_only(earlier, g, prev, before, path, n - 1);
    } else {
        let new = placed(before, path, 0);
        assert forall|d: Key| brings(before, d) implies brings(new, d) by {
            let (j, k) = choose|j: int, k: int|
                0 <= j < before.len() && 0 <= k < before[j].len() && before[j][k] == d;
            assert(new[j][k] == d);
        }
        assert forall|a: Key, b: Key| brings_edge(before, a, b) implies brings_edge(new, a, b) by {
            let (j, k, m) = choose|j: int, k: int, m: int|
                0 <= j < before.len() && 0 <= k && m == k + 1 && m < before[j].len() && (
                #[trigger] before[j][k]) == a && (#[trigger] before[j][m]) == b;
            assert(new[j][k] == a && new[j][m] == b);
        }
        assert forall|d: Key| brings_first(before, d) implies brings_first(new, d) by {
            let j = choose|j: int| 0 <= j < before.len() && before[j].len() > 0 && before[j][0] == d;
            assert(new[j][0] == d);
        }
    }
}

/// The forest of the first `n` paths has nothing but what these paths bring.
pub proof fn lemma_grown_only(g: GraphView, paths: Seq<Seq<Key>>, n: int)
    requires
        0 <= n <= paths.len(),
        grown(g, paths, n).nodes.len() <= usize::MAX,
    ensures
        only_from(grown(g, paths, n), paths.subrange(0, n)),
    decreases n,
{
    if n > 0 {
        let before = grown(g, paths, n - 1);
        let prev = path_before(paths, n - 1);
        let path = paths[n - 1];
        lemma_place_path_grows(before, g, prev, path, path.len() as int);
        lemma_grown(g, paths, n - 1);
        lemma_grown_only(g, paths, n - 1);
        lemma_place_path_only(before, g, prev, paths.subrange(0, n - 1), path, path.len() as int);
        assert(path.subrange(0, path.len() as int) =~= path);
        assert(placed(paths.subrange(0, n - 1), path, path.len() as int) =~= paths.subrange(0, n));
    }
}

/// The forest of a list of paths: its nodes, and what the arena finds.
pub struct Forest {
    arena: Interner,
    versions: Vec<String>,
    children: Vec<Vec<usize>>,
    roots: Vec<usize>,
}

impl View for Forest {
    type V = ForestView;

    closed spec fn view(&self) -> ForestView {
        ForestView {
            nodes: Seq::new(
                self.arena@.len(),
                |i: int|
                    NodeView {
                        descriptor: self.arena@[i],
                        version: self.versions[i]@,
                        children: self.children[i]@,
                    },
            ),
            roots: self.roots@,
        }
    }
}

/// Whether `x` is among `v`.
fn holds(v: &Vec<usize>, x: usize) -> (r: bool)
    ensures
        r == v@.contains(x),
{
    let mut k: usize = 0;
    while k < v.len()
        invariant
            k <= v.len(),
            forall|j: int| 0 <= j < k ==> v[j] != x,
        decreases v.len() - k,
    {
        if v[k] == x {
            return true;
        }
        k = k + 1;
    }
    false
}

/// Whether both paths have `n` descriptors and agree on the first `n`.
fn shares_prefix(prev: &Vec<Descriptor>, path: &Vec<Descriptor>, n: usize) -> (r: bool)
    ensures
        r == same_prefix(keys_of(prev@), keys_of(path@), n as int),
{
    if n > prev.len() || n > path.len() {
        return false;
    }
    let mut k: usize = 0;
    while k < n
        invariant
            k <= n,
            n <= prev.len(),
            n <= path.len(),
            forall|j: int| 0 <= j < k ==> prev[j]@ == path[j]@,
        decreases n - k,
    {
        if !prev[k].same(&path[k]) {
            assert(keys_of(prev@).subrange(0, n as int)[k as int] != keys_of(path@).subrange(
                0,
                n as int,
            )[k as int]);
            return false;
        }
        k = k + 1;
    }
    assert(keys_of(prev@).subrange(0, n as int) =~= keys_of(path@).subrange(0, n as int));
    true
}

impl Forest {
    /// The forest is well formed, and the arena finds each node at its position.
    pub closed spec fn wf(&self) -> bool {
        &&& self.arena.wf()
        &&& self.versions.len() == self.arena@.len()
        &&& self.children.len() == self.arena@.len()
        &&& self@.wf()
    }

    /// The value of a well-formed forest is well formed.
    pub proof fn lemma_wf(&self)
        requires
            self.wf(),
        ensures
            self@.wf(),
    {
    }

    /// The forest without nodes.
    pub fn new() -> (f: Forest)
        ensures
            f.wf(),
            f@ == ForestView::empty(),
    {
        let f = Forest {
            arena: Interner::new(),
            versions: Vec::new(),
            children: Vec::new(),
            roots: Vec::new(),
        };
        proof {
            assert(f@.nodes =~= Seq::<NodeView>::empty());
        }
        f
    }

    /// The number of nodes.
    pub fn len(&self) -> (n: usize)
        requires
            self.wf(),
        ensures
            n == self@.nodes.len(),
    {
        self.arena.len()
    }

    /// The positions of the roots, in order.
    pub fn roots(&self) -> (r: &Vec<usize>)
        ensures
            r@ == self@.roots,
    {
        &self.roots
    }

    /// The descriptor of the node at `id`.
    pub fn descriptor_at(&self, id: usize) -> (d: &Descriptor)
        requires
            self.wf(),
            id < self@.nodes.len(),
        ensures
            d@ == self@.nodes[id as int].descriptor,
    {
        self.arena.get(id)
    }

    /// The version of the node at `id`.
    pub fn version_at(&self, id: usize) -> (v: &String)
        requires
            self.wf(),
            id < self@.nodes.len(),
        ensures
            v@ == self@.nodes[id as int].version,
    {
        &self.versions[id]
    }

    /// The positions of the children of the node at `id`, in order.
    pub fn children_at(&self, id: usize) -> (c: &Vec<usize>)
        requires
            self.wf(),
            id < self@.nodes.len(),
        ensures
            c@ == self@.nodes[id as int].children,
    {
        &self.children[id]
    }

    /// The position of the node of `d`.
    pub fn lookup(&self, d: &Descriptor) -> (r: Option<usize>)
        requires
            self.wf(),
        ensures
            match r {
                Some(i) => self@.has(d@) && i == self@.id_of(d@) && i < self@.nodes.len(),
                None => !self@.has(d@),
            },
    {
        proof {
            assert(self@.descriptors() =~= self.arena@);
        }
        self.arena.lookup(d)
    }

    /// Adds a node for a descriptor that has none.
    fn add_node(&mut self, d: &Descriptor, version: String) -> (id: usize)
        requires
            old(self).wf(),
            !old(self)@.has(d@),
        ensures
            final(self).wf(),
            final(self)@ == old(self)@.with_node(d@, version@),
            id == old(self)@.nodes.len(),
    {
        let ghost f0 = self@;
        proof {
            assert(f0.descriptors() =~= self.arena@);
        }
        let id: usize = self.arena.push(d.clone());
        self.versions.push(version);
        self.children.push(Vec::new());
        proof {
            assert(self@.nodes =~= f0.with_node(d@, version@).nodes);
        }
        id
    }

    /// Makes the node at `id` one more root.
    fn add_root(&mut self, id: usize)
        requires
            old(self).wf(),
            id < old(self)@.nodes.len(),
        ensures
            final(self).wf(),
            final(self)@ == old(self)@.with_root(id),
    {
        let ghost f0 = self@;
        self.roots.push(id);
        proof {
            lemma_same_descriptors(f0, self@);
            assert forall|k: int| 0 <= k < self@.roots.len() implies (#[trigger] self@.roots[k])
                < self@.nodes.len() by {
                if k < f0.roots.len() {
                    assert(self@.roots[k] == f0.roots[k]);
                }
            }
        }
    }

    /// Makes the node at `child` one more child of the node at `parent`.
    fn add_child(&mut self, parent: usize, child: usize)
        requires
            old(self).wf(),
            parent < old(self)@.nodes.len(),
            child < old(self)@.nodes.len(),
        ensures
            final(self).wf(),
            final(self)@ == old(self)@.with_child(parent as int, child),
    {
        let ghost f0 = self@;
        let mut row: Vec<usize> = Vec::new();
        std::mem::swap(&mut row, &mut self.children[parent]);
        row.push(child);
        std::mem::swap(&mut row, &mut self.children[parent]);
        proof {
            assert(self@.nodes =~= f0.with_child(parent as int, child).nodes);
            lemma_same_descriptors(f0, self@);
        }
    }
}

/// Merges the paths, from the left, into a forest in which paths that begin
/// alike share their nodes. The version of a node is the one that `graph`
/// resolves its descriptor to.
pub fn convert_paths_to_tree(paths: &Vec<Vec<Descriptor>>, graph: &Graph) -> (f: Forest)
    requires
        graph.wf(),
    ensures
        f.wf(),
        f@ == grown(graph@, paths_of(paths@), paths.len() as int),
        forall|j: int|
            0 <= j < paths.len() ==> holds_path(
                f@,
                #[trigger] paths_of(paths@)[j],
                paths_of(paths@)[j].len() as int,
            ),
        only_from(f@, paths_of(paths@)),
{
    let ghost ps = paths_of(paths@);
    let ghost g = graph@;
    let mut f = Forest::new();
    let mut j: usize = 0;
    while j < paths.len()
        invariant
            j <= paths.len(),
            graph.wf(),
            g == graph@,
            ps == paths_of(paths@),
            f.wf(),
            f@ == grown(g, ps, j as int),
            j > 0 ==> forall|k: int| 0 <= k < ps[j - 1].len() ==> f@.has(#[trigger] ps[j - 1][k]),
        decreases paths.len() - j,
    {
        let path = &paths[j];
        let ghost prev = path_before(ps, j as int);
        let ghost start = f@;
        let ghost p = ps[j as int];
        let mut i: usize = 0;
        while i < path.len()
            invariant
                i <= path.len(),
                j < paths.len(),
                graph.wf(),
                g == graph@,
                ps == paths_of(paths@),
                p == keys_of(path@),
                p == ps[j as int],
                prev == path_before(ps, j as int),
                path == &paths[j as int],
                f.wf(),
                f@ == place_path(start, g, prev, p, i as int),
                j > 0 ==> forall|k: int|
                    0 <= k < ps[j - 1].len() ==> f@.has(#[trigger] ps[j - 1][k]),
                forall|k: int| 0 <= k < i ==> f@.has(#[trigger] p[k]),
            decreases path.len() - i,
        {
            let d = &path[i];
            let ghost f0 = f@;
            if i == 0 {
                if f.lookup(d).is_none() {
                    let version = graph.version_of(d);
                    let id: usize = f.add_node(d, version);
                    let ghost f1 = f@;
                    f.add_root(id);
                    proof {
                        assert forall|q: Key| f0.has(q) implies f@.has(q) by {
                            lemma_with_node(f0, d@, g.version_of(d@), q);
                        }
                        lemma_with_node(f0, d@, g.version_of(d@), d@);
                    }
                }
            } else if j > 0 && shares_prefix(&paths[j - 1], path, i + 1) {
                proof {
                    let before = ps[j - 1];
                    assert(before.subrange(0, i + 1)[i as int] == p.subrange(0, i + 1)[i as int]);
                }
            } else {
                let child: usize = match f.lookup(d) {
                    Some(c) => c,
                    None => {
                        let version = graph.version_of(d);
                        let c: usize = f.add_node(d, version);
                        proof {
                            assert forall|q: Key| f0.has(q) implies f@.has(q) && f@.id_of(q)
                                == f0.id_of(q) by {
                                lemma_with_node(f0, d@, g.version_of(d@), q);
                            }
                            lemma_with_node(f0, d@, g.version_of(d@), d@);
                        }
                        c
                    },
                };
                let ghost f1 = f@;
                match f.lookup(&path[i - 1]) {
                    Some(parent) => {
                        if !holds(f.children_at(parent), child) {
                            f.add_child(parent, child);
                            proof {
                                lemma_same_descriptors(f1, f@);
                            }
                        }
                    },
                    None => {
                        assert(false);
                    },
                }
            }
            i = i + 1;
        }
        j = j + 1;
    }
    proof {
        f.arena.lemma_bounded();
        lemma_grown(g, ps, paths.len() as int);
        lemma_grown_only(g, ps, paths.len() as int);
    }
    f
}

} // verus!
