use yarn_why::graph::Graph;
use yarn_why::model::Descriptor;
use yarn_why::why::build_path_to_dependency;

const MAX_PKG_VISITS_DEFAULT: usize = 20;

fn pkg(name: &str, range: &str) -> Descriptor {
    Descriptor::new(name, range)
}

fn pkg_a() -> Descriptor {
    pkg("a", "v1")
}

fn pkg_b() -> Descriptor {
    pkg("b", "v1")
}

fn pkg_c() -> Descriptor {
    pkg("c", "v1")
}

fn pkg_d() -> Descriptor {
    pkg("d", "v1")
}

fn mock_pkg2parents_empty() -> Graph {
    Graph::new()
}

fn mock_pkg2parents_one_element() -> Graph {
    let mut pkg2parents = Graph::new();
    pkg2parents.add_parents(&pkg_a(), &vec![]);
    pkg2parents
}

fn mock_pkg2parents_ab() -> Graph {
    let mut pkg2parents = Graph::new();
    pkg2parents.add_parents(&pkg_a(), &vec![pkg_b()]);
    pkg2parents
}

fn mock_pkg2parents_ab_ac() -> Graph {
    let mut pkg2parents = Graph::new();
    pkg2parents.add_parents(&pkg_a(), &vec![pkg_b(), pkg_c()]);
    pkg2parents
}

fn mock_pkg2parents_abc_abdc() -> Graph {
    let mut pkg2parents = Graph::new();
    pkg2parents.add_parents(&pkg_c(), &vec![pkg_d(), pkg_b()]);
    pkg2parents.add_parents(&pkg_d(), &vec![pkg_b()]);
    pkg2parents.add_parents(&pkg_b(), &vec![pkg_a()]);
    pkg2parents
}

#[test]
fn pkg_not_found() {
    let query = pkg("foo", "1");
    let pkg2parents = mock_pkg2parents_empty();
    let mut paths: Vec<Vec<Descriptor>> = Vec::new();

    build_path_to_dependency(&query, &pkg2parents, MAX_PKG_VISITS_DEFAULT, &mut paths);

    let output: Vec<Vec<Descriptor>> = Vec::new();

    assert_eq!(paths, output);
}

#[test]
fn pkg_no_parents() {
    let query = pkg_a();
    let pkg2parents = mock_pkg2parents_one_element();
    let mut paths: Vec<Vec<Descriptor>> = Vec::new();

    build_path_to_dependency(&query, &pkg2parents, MAX_PKG_VISITS_DEFAULT, &mut paths);

    let output = vec![vec![pkg_a()]];

    assert_eq!(paths, output);
}

#[test]
fn pkg_one_parent() {
    let query = pkg_a();
    let pkg2parents = mock_pkg2parents_ab();
    let mut paths: Vec<Vec<Descriptor>> = Vec::new();

    build_path_to_dependency(&query, &pkg2parents, MAX_PKG_VISITS_DEFAULT, &mut paths);

    let output: Vec<Vec<Descriptor>> = vec![vec![pkg_b(), pkg_a()]];

    assert_eq!(paths, output);
}

#[test]
fn pkg_two_parents() {
    let query = pkg_a();
    let pkg2parents = mock_pkg2parents_ab_ac();
    let mut paths: Vec<Vec<Descriptor>> = Vec::new();

    build_path_to_dependency(&query, &pkg2parents, MAX_PKG_VISITS_DEFAULT, &mut paths);

    let output: Vec<Vec<Descriptor>> = vec![vec![pkg_b(), pkg_a()], vec![pkg_c(), pkg_a()]];

    assert_eq!(paths, output);
}

#[test]
fn pkg_two_branches() {
    let query = pkg_c();
    let pkg2parents = mock_pkg2parents_abc_abdc();
    let mut paths: Vec<Vec<Descriptor>> = Vec::new();

    build_path_to_dependency(&query, &pkg2parents, MAX_PKG_VISITS_DEFAULT, &mut paths);

    let output: Vec<Vec<Descriptor>> = vec![
        vec![pkg_a(), pkg_b(), pkg_d(), pkg_c()],
        vec![pkg_a(), pkg_b(), pkg_c()],
    ];

    assert_eq!(paths, output);
}

#[test]
fn walk_keeps_appended_paths() {
    let mut paths: Vec<Vec<Descriptor>> = vec![vec![pkg("x", "1")]];
    build_path_to_dependency(&pkg_a(), &mock_pkg2parents_ab(), 20, &mut paths);
    assert_eq!(paths, vec![vec![pkg("x", "1")], vec![pkg_b(), pkg_a()]]);
}

#[test]
fn cycle_through_query_is_cut_at_its_first_place() {
    // q <- a <- q (a cycle), and q <- r, a root.
    let mut g = Graph::new();
    g.add_parents(&pkg("q", "1"), &vec![pkg("a", "1"), pkg("r", "1")]);
    g.add_parents(&pkg("a", "1"), &vec![pkg("q", "1")]);
    let mut paths: Vec<Vec<Descriptor>> = Vec::new();
    build_path_to_dependency(&pkg("q", "1"), &g, 3, &mut paths);
    assert!(!paths.is_empty());
    for p in paths.iter() {
        assert_eq!(p, &vec![pkg("r", "1"), pkg("q", "1")]);
    }
}

#[test]
fn cycle_beside_query_repeats_descriptors() {
    // q <- a <- b <- a (a cycle beside q), and b <- r, a root.
    let mut g = Graph::new();
    g.add_parents(&pkg("q", "1"), &vec![pkg("a", "1")]);
    g.add_parents(&pkg("a", "1"), &vec![pkg("b", "1")]);
    g.add_parents(&pkg("b", "1"), &vec![pkg("a", "1"), pkg("r", "1")]);
    let mut paths: Vec<Vec<Descriptor>> = Vec::new();
    build_path_to_dependency(&pkg("q", "1"), &g, 2, &mut paths);
    let expected: Vec<Vec<Descriptor>> = vec![
        vec![pkg("r", "1"), pkg("b", "1"), pkg("a", "1"), pkg("b", "1"), pkg("a", "1"), pkg("q", "1")],
        vec![pkg("r", "1"), pkg("b", "1"), pkg("a", "1"), pkg("q", "1")],
    ];
    assert_eq!(paths, expected);
    for p in paths.iter() {
        assert_eq!(p.last(), Some(&pkg("q", "1")));
        assert_eq!(p.iter().filter(|d| **d == pkg("q", "1")).count(), 1);
    }
}

#[test]
fn cap_of_one_enters_each_descriptor_once() {
    let mut g = Graph::new();
    g.add_parents(&pkg("q", "1"), &vec![pkg("a", "1")]);
    g.add_parents(&pkg("a", "1"), &vec![pkg("b", "1")]);
    g.add_parents(&pkg("b", "1"), &vec![pkg("a", "1"), pkg("r", "1")]);
    let mut paths: Vec<Vec<Descriptor>> = Vec::new();
    build_path_to_dependency(&pkg("q", "1"), &g, 1, &mut paths);
    assert_eq!(paths, vec![vec![pkg("r", "1"), pkg("b", "1"), pkg("a", "1"), pkg("q", "1")]]);
}

#[test]
fn cap_of_zero_still_visits_the_query() {
    let mut paths: Vec<Vec<Descriptor>> = Vec::new();
    build_path_to_dependency(&pkg_a(), &mock_pkg2parents_one_element(), 0, &mut paths);
    assert_eq!(paths, vec![vec![pkg_a()]]);
    let mut none: Vec<Vec<Descriptor>> = Vec::new();
    build_path_to_dependency(&pkg_a(), &mock_pkg2parents_ab(), 0, &mut none);
    assert!(none.is_empty());
}
