//! The whole answer: from the entries of a lockfile and a query to the text
//! that is shown.

use crate::dedup::{build_tree_with_no_duplicates, prune};
use crate::filter::{filter_entries, filtered, is_requirement};
use crate::forest::{convert_paths_to_tree, grown};
use crate::graph::{graph_of, Graph};
use crate::lockfile::{lockfile_entries, parse_lockfile};
use crate::model::{entries_of, Entry, EntryView, Key};
use crate::normalize::{normalize_entries, normalized};
use crate::order::{cut_all, ordered, sort_paths, truncate_paths};
use crate::query::{query_descriptors, resolve_query, Query, QueryView};
use crate::render::{json_list, plain, print_tree, print_tree_as_json, printed};
use crate::text::same_text;
use crate::tree::{lemma_node_view, trees_of, Node, Tree};
use crate::unfold::{expand, unfolded};
use crate::why::{why, why_paths};
use vstd::prelude::*;
use vstd::string::*;

verus! {

/// How often the walk enters a descriptor, unless told otherwise.
pub const MAX_PKG_VISITS_DEFAULT: usize = 20;

/// How many descriptors of a path are shown, unless told otherwise.
pub const MAX_DEPTH_DEFAULT: usize = 10;

/// The mathematical value of the options.
pub struct OptionsView {
    pub filter: Option<Seq<char>>,
    pub max_depth: Option<usize>,
    pub dedup: bool,
    pub json: bool,
    pub color: bool,
    pub max_visits: usize,
}

/// What the caller chooses.
#[derive(Debug, PartialEq, Eq)]
pub struct Options {
    /// A requirement that the versions of the queried package must meet.
    pub filter: Option<String>,
    /// How many descriptors of a path are shown; all of them where `None`.
    pub max_depth: Option<usize>,
    /// Whether a descriptor is opened once only.
    pub dedup: bool,
    /// Whether the answer is JSON; lines of text otherwise.
    pub json: bool,
    /// Whether the lines of text are coloured. JSON never is.
    pub color: bool,
    /// How often the walk enters a descriptor.
    pub max_visits: usize,
}

impl View for Options {
    type V = OptionsView;

    open spec fn view(&self) -> OptionsView {
        OptionsView {
            filter: match self.filter {
                Some(f) => Some(f@),
                None => None,
            },
            max_depth: self.max_depth,
            dedup: self.dedup,
            json: self.json,
            color: self.color,
            max_visits: self.max_visits,
        }
    }
}

impl Default for Options {
    fn default() -> (o: Options)
        ensures
            o.filter is None,
            o.max_depth == Some(MAX_DEPTH_DEFAULT),
            o.dedup,
            !o.json,
            !o.color,
            o.max_visits == MAX_PKG_VISITS_DEFAULT,
    {
        Options {
            filter: None,
            max_depth: Some(MAX_DEPTH_DEFAULT),
            dedup: true,
            json: false,
            color: false,
            max_visits: MAX_PKG_VISITS_DEFAULT,
        }
    }
}

/// Why there is no answer.
#[derive(Debug, PartialEq, Eq, Clone, Copy, Structural)]
pub enum Failure {
    /// The text is no lockfile.
    Lockfile,
    /// The filter is no requirement on versions.
    Filter,
    /// Nothing explains the query: no path leads to it, or nothing of the
    /// paths is left to show.
    NotFound,
    /// Without the second pass the forest has no end: a descriptor stands
    /// below itself.
    Endless,
}

/// The entries that the graph is built from: those that pass the filter,
/// corrected. `None` where the filter is no requirement.
pub open spec fn prepared(es: Seq<EntryView>, q: QueryView, o: OptionsView) -> Option<
    Seq<EntryView>,
> {
    match o.filter {
        Some(r) => if is_requirement(r) {
            let kept = filtered(es, q.name, r, es.len() as int);
            Some(normalized(kept, kept.len() as int))
        } else {
            None
        },
        None => Some(normalized(es, es.len() as int)),
    }
}

/// The paths that explain the query, in the order of the walks.
pub open spec fn found(es: Seq<EntryView>, q: QueryView, o: OptionsView) -> Seq<Seq<Key>> {
    why_paths(graph_of(es, es.len() as int), es, query_descriptors(es, q), o.max_visits)
}

/// The paths as they go into the forest: in order, and cut to the depth.
pub open spec fn shown_paths(es: Seq<EntryView>, q: QueryView, o: OptionsView) -> Seq<Seq<Key>> {
    let paths = found(es, q, o);
    let sorted = ordered(paths, paths.len() as int);
    match o.max_depth {
        Some(depth) => cut_all(sorted, depth as int),
        None => sorted,
    }
}

/// The trees without a root that stands for the workspace itself: where a
/// single tree has the range `.`, what is below it.
pub open spec fn below_workspace(ts: Seq<Tree>) -> Seq<Tree> {
    if ts.len() == 1 && ts[0].descriptor.1 == "."@ {
        ts[0].children
    } else {
        ts
    }
}

/// The trees of the paths: merged into the forest, then opened once or
/// unfolded as they stand. `None` where the forest cannot be unfolded.
pub open spec fn trees_for(es: Seq<EntryView>, q: QueryView, o: OptionsView) -> Option<Seq<Tree>> {
    let paths = shown_paths(es, q, o);
    let forest = grown(graph_of(es, es.len() as int), paths, paths.len() as int);
    if o.dedup {
        Some(prune(forest, forest.roots, Set::empty()).trees)
    } else {
        unfolded(forest, forest.roots, Set::empty())
    }
}

/// The rendering that the options ask for.
pub open spec fn rendered(ts: Seq<Tree>, o: OptionsView) -> Seq<char> {
    if o.json {
        json_list(ts)
    } else {
        printed(ts, o.color, ts.len() as int)
    }
}

/// The answer for prepared entries.
pub open spec fn answer(es: Seq<EntryView>, q: QueryView, o: OptionsView) -> Result<
    Seq<char>,
    Failure,
> {
    if found(es, q, o).len() == 0 {
        Err(Failure::NotFound)
    } else {
        match trees_for(es, q, o) {
            None => Err(Failure::Endless),
            Some(ts) => if below_workspace(ts).len() == 0 {
                Err(Failure::NotFound)
            } else {
                Ok(rendered(below_workspace(ts), o))
            },
        }
    }
}

/// The answer to a query on the entries of a lockfile.
pub open spec fn explained(es: Seq<EntryView>, q: QueryView, o: OptionsView) -> Result<
    Seq<char>,
    Failure,
> {
    match prepared(es, q, o) {
        None => Err(Failure::Filter),
        Some(ready) => answer(ready, q, o),
    }
}

/// The answer to a query on the text of a lockfile.
pub open spec fn explained_text(text: Seq<char>, q: QueryView, o: OptionsView) -> Result<
    Seq<char>,
    Failure,
> {
    match lockfile_entries(text) {
        None => Err(Failure::Lockfile),
        Some(es) => explained(es, q, o),
    }
}

/// Whether an answer is the one that is owed.
pub open spec fn is_answer(r: Result<String, Failure>, owed: Result<Seq<char>, Failure>) -> bool {
    match r {
        Ok(text) => owed == Ok::<Seq<char>, Failure>(text@),
        Err(f) => owed == Err::<Seq<char>, Failure>(f),
    }
}

/// The trees without a root that stands for the workspace itself.
pub fn strip_workspace_root(trees: Vec<Node>) -> (out: Vec<Node>)
    ensures
        trees_of(out@) == below_workspace(trees_of(trees@)),
{
    let mut trees = trees;
    if trees.len() == 1 && same_text(trees[0].descriptor.range.as_str(), ".") {
        let node = trees.pop().unwrap();
        proof {
            lemma_node_view(node);
        }
        node.children
    } else {
        trees
    }
}

/// Explains a query on entries that are prepared: walks, orders and cuts the
/// paths, merges them, and renders the trees.
pub fn explain_prepared(entries: &Vec<Entry>, query: &Query, options: &Options) -> (r: Result<
    String,
    Failure,
>)
    ensures
        is_answer(r, answer(entries_of(entries@), query@, options@)),
        r is Ok && options.json ==> plain(r->Ok_0@),
{
    let graph = Graph::from_entries(entries);
    let queries = resolve_query(query, entries);
    let paths = why(&queries, &graph, entries, options.max_visits);
    if paths.len() == 0 {
        return Err(Failure::NotFound);
    }
    let sorted = sort_paths(&paths);
    let shown = match options.max_depth {
        Some(depth) => truncate_paths(&sorted, depth),
        None => sorted,
    };
    let forest = convert_paths_to_tree(&shown, &graph);
    let trees = if options.dedup {
        let root = build_tree_with_no_duplicates(&forest);
        proof {
            lemma_node_view(root);
        }
        Some(root.children)
    } else {
        expand(&forest)
    };
    match trees {
        None => Err(Failure::Endless),
        Some(trees) => {
            let trees = strip_workspace_root(trees);
            if trees.len() == 0 {
                return Err(Failure::NotFound);
            }
            if options.json {
                Ok(print_tree_as_json(&trees))
            } else {
                Ok(print_tree(&trees, options.color))
            }
        },
    }
}

/// Explains a query on the entries of a lockfile: why the package is there,
/// as lines of text or as JSON.
pub fn explain(entries: &Vec<Entry>, query: &Query, options: &Options) -> (r: Result<
    String,
    Failure,
>)
    ensures
        is_answer(r, explained(entries_of(entries@), query@, options@)),
        r is Ok && options.json ==> plain(r->Ok_0@),
{
    let ready = match &options.filter {
        Some(requirement) => {
            match filter_entries(entries, query.name.as_str(), requirement.as_str()) {
                None => {
                    return Err(Failure::Filter);
                },
                Some(kept) => {
                    normalize_entries(&kept)
                },
            }
        },
        None => normalize_entries(entries),
    };
    explain_prepared(&ready, query, options)
}

/// Explains a query on the text of a lockfile.
pub fn explain_lockfile(text: &str, query: &Query, options: &Options) -> (r: Result<
    String,
    Failure,
>)
    ensures
        is_answer(r, explained_text(text@, query@, options@)),
        r is Ok && options.json ==> plain(r->Ok_0@),
{
    match parse_lockfile(text) {
        None => Err(Failure::Lockfile),
        Some(entries) => explain(&entries, query, options),
    }
}

} // verus!
