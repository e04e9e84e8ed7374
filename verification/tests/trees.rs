use yarn_why::dedup::build_tree_with_no_duplicates;
use yarn_why::explain::strip_workspace_root;
use yarn_why::forest::{convert_paths_to_tree, Forest};
use yarn_why::graph::Graph;
use yarn_why::model::{Descriptor, Entry};
use yarn_why::prune::dedup_trees;
use yarn_why::tree::Node;
use yarn_why::unfold::expand;

fn pkg(name: &str) -> Descriptor {
    Descriptor::new(name, "1")
}

fn path(names: &[&str]) -> Vec<Descriptor> {
    names.iter().map(|n| pkg(n)).collect()
}

fn leaf(name: &str) -> Node {
    Node { descriptor: pkg(name), version: String::new(), children: vec![] }
}

fn node(name: &str, children: Vec<Node>) -> Node {
    Node { descriptor: pkg(name), version: String::new(), children }
}

fn names_at(forest: &Forest, ids: &Vec<usize>) -> Vec<String> {
    ids.iter().map(|i| forest.descriptor_at(*i).name.clone()).collect()
}

fn children_of(forest: &Forest, name: &str) -> Vec<String> {
    let id = forest.lookup(&pkg(name)).unwrap();
    names_at(forest, forest.children_at(id))
}

#[test]
fn paths_that_begin_alike_share_their_nodes() {
    let paths = vec![path(&["r", "a", "q"]), path(&["r", "b", "q"])];
    let forest = convert_paths_to_tree(&paths, &Graph::new());
    assert_eq!(forest.len(), 4);
    assert_eq!(names_at(&forest, forest.roots()), vec!["r"]);
    assert_eq!(children_of(&forest, "r"), vec!["a", "b"]);
    assert_eq!(children_of(&forest, "a"), vec!["q"]);
    assert_eq!(children_of(&forest, "b"), vec!["q"]);
    assert!(children_of(&forest, "q").is_empty());
}

#[test]
fn first_descriptors_become_roots_once() {
    let paths = vec![path(&["r", "q"]), path(&["r", "x", "q"]), path(&["s", "q"])];
    let forest = convert_paths_to_tree(&paths, &Graph::new());
    assert_eq!(names_at(&forest, forest.roots()), vec!["r", "s"]);
    assert_eq!(children_of(&forest, "r"), vec!["q", "x"]);
    assert_eq!(children_of(&forest, "x"), vec!["q"]);
    assert_eq!(children_of(&forest, "s"), vec!["q"]);
}

#[test]
fn descriptor_that_has_a_node_is_no_new_root() {
    let paths = vec![path(&["r", "a", "q"]), path(&["a", "q"])];
    let forest = convert_paths_to_tree(&paths, &Graph::new());
    assert_eq!(names_at(&forest, forest.roots()), vec!["r"]);
    assert_eq!(children_of(&forest, "a"), vec!["q"]);
}

#[test]
fn empty_paths_give_no_nodes() {
    let forest = convert_paths_to_tree(&vec![vec![], vec![]], &Graph::new());
    assert_eq!(forest.len(), 0);
    assert!(forest.roots().is_empty());
    let none = convert_paths_to_tree(&vec![], &Graph::new());
    assert_eq!(none.len(), 0);
}

#[test]
fn nodes_carry_the_version_that_the_graph_resolves() {
    let entries = vec![
        Entry {
            name: "r".to_string(),
            version: "0.1.0".to_string(),
            descriptors: vec![pkg("r")],
            dependencies: vec![pkg("q")],
        },
        Entry {
            name: "q".to_string(),
            version: "3.2.1".to_string(),
            descriptors: vec![pkg("q")],
            dependencies: vec![],
        },
    ];
    let graph = Graph::from_entries(&entries);
    let forest = convert_paths_to_tree(&vec![path(&["r", "q", "z"])], &graph);
    assert_eq!(forest.version_at(forest.lookup(&pkg("r")).unwrap()), "0.1.0");
    assert_eq!(forest.version_at(forest.lookup(&pkg("q")).unwrap()), "3.2.1");
    assert_eq!(forest.version_at(forest.lookup(&pkg("z")).unwrap()), "");
    assert!(forest.lookup(&pkg("nowhere")).is_none());
}

#[test]
fn second_pass_keeps_the_leaf_below_every_branch() {
    let paths = vec![path(&["r", "a", "x", "q"]), path(&["r", "b", "x", "q"])];
    let forest = convert_paths_to_tree(&paths, &Graph::new());
    let root = build_tree_with_no_duplicates(&forest);
    assert_eq!(root.descriptor, Descriptor::new("", ""));
    assert_eq!(root.version, "");
    let expected = vec![node(
        "r",
        vec![node("a", vec![node("x", vec![leaf("q")])]), node("b", vec![node("x", vec![leaf("q")])])],
    )];
    assert_eq!(root.children, expected);
}

#[test]
fn second_pass_opens_a_descriptor_once() {
    let paths = vec![path(&["r", "a", "x", "y", "q"]), path(&["r", "b", "x", "y", "q"])];
    let forest = convert_paths_to_tree(&paths, &Graph::new());
    let root = build_tree_with_no_duplicates(&forest);
    let expected = vec![node(
        "r",
        vec![
            node("a", vec![node("x", vec![node("y", vec![leaf("q")])])]),
            node("b", vec![leaf("x")]),
        ],
    )];
    assert_eq!(root.children, expected);
}

#[test]
fn second_pass_ends_on_a_forest_that_turns_in_circles() {
    let paths = vec![path(&["r", "b", "a", "b", "a", "q"])];
    let forest = convert_paths_to_tree(&paths, &Graph::new());
    assert_eq!(children_of(&forest, "a"), vec!["b", "q"]);
    assert_eq!(children_of(&forest, "b"), vec!["a"]);
    let root = build_tree_with_no_duplicates(&forest);
    let expected =
        vec![node("r", vec![node("b", vec![node("a", vec![leaf("b"), leaf("q")])])])];
    assert_eq!(root.children, expected);
    assert_eq!(expand(&forest), None);
}

#[test]
fn unfolding_repeats_what_is_shared() {
    let paths = vec![path(&["r", "a", "x", "y", "q"]), path(&["r", "b", "x", "y", "q"])];
    let forest = convert_paths_to_tree(&paths, &Graph::new());
    let expected = vec![node(
        "r",
        vec![
            node("a", vec![node("x", vec![node("y", vec![leaf("q")])])]),
            node("b", vec![node("x", vec![node("y", vec![leaf("q")])])]),
        ],
    )];
    assert_eq!(expand(&forest), Some(expected));
    assert_eq!(expand(&Forest::new()), Some(vec![]));
}

#[test]
fn second_pass_on_trees_is_the_one_on_the_forest() {
    let paths = vec![path(&["r", "a", "x", "y", "q"]), path(&["r", "b", "x", "y", "q"])];
    let forest = convert_paths_to_tree(&paths, &Graph::new());
    let unfolded = expand(&forest).unwrap();
    assert_eq!(dedup_trees(&unfolded), build_tree_with_no_duplicates(&forest).children);
}

#[test]
fn second_pass_twice_is_the_second_pass_once() {
    let trees = vec![
        node(
            "r",
            vec![
                node("a", vec![node("x", vec![node("y", vec![leaf("q")])])]),
                node("b", vec![node("x", vec![node("y", vec![leaf("q")])]), leaf("a")]),
                node("x", vec![leaf("q")]),
            ],
        ),
        node("a", vec![leaf("q")]),
        node("r", vec![leaf("q"), leaf("q")]),
    ];
    let once = dedup_trees(&trees);
    let expected = vec![
        node(
            "r",
            vec![
                node("a", vec![node("x", vec![node("y", vec![leaf("q")])])]),
                node("b", vec![leaf("x"), leaf("a")]),
                node("x", vec![leaf("q")]),
            ],
        ),
        node("a", vec![leaf("q")]),
        leaf("r"),
    ];
    assert_eq!(once, expected);
    assert_eq!(dedup_trees(&once), once);

    let paths = vec![path(&["r", "b", "a", "b", "a", "q"]), path(&["s", "a", "q"])];
    let forest = convert_paths_to_tree(&paths, &Graph::new());
    let made = build_tree_with_no_duplicates(&forest).children;
    assert_eq!(dedup_trees(&made), made);
}

#[test]
fn workspace_root_gives_way_to_what_is_below_it() {
    let dot = Node {
        descriptor: Descriptor::new("foo", "."),
        version: "0.0.0-use.local".to_string(),
        children: vec![leaf("a"), leaf("b")],
    };
    assert_eq!(strip_workspace_root(vec![dot]), vec![leaf("a"), leaf("b")]);
}

#[test]
fn other_roots_stay() {
    let dot = Node {
        descriptor: Descriptor::new("foo", "."),
        version: String::new(),
        children: vec![leaf("a")],
    };
    let two = vec![dot, leaf("b")];
    let dot_again = Node {
        descriptor: Descriptor::new("foo", "."),
        version: String::new(),
        children: vec![leaf("a")],
    };
    assert_eq!(strip_workspace_root(two), vec![dot_again, leaf("b")]);
    assert_eq!(strip_workspace_root(vec![node("r", vec![leaf("a")])]), vec![node("r", vec![leaf("a")])]);
    assert_eq!(strip_workspace_root(vec![]), vec![]);
}
