use yarn_why::explain::{explain, Failure, Options, MAX_DEPTH_DEFAULT, MAX_PKG_VISITS_DEFAULT};
use yarn_why::filter::{entry_passes, filter_entries, valid_requirement};
use yarn_why::graph::Graph;
use yarn_why::lockfile::parse_lockfile;
use yarn_why::model::{clone_descriptors, Descriptor, Entry};
use yarn_why::normalize::{normalize_entries, patch_range, strip_protocol};
use yarn_why::order::{path_precedes, precedes, sort_paths, str_before, truncate_paths};
use yarn_why::query::{parse_query, resolve_query, Query};
use yarn_why::records::{iter_flat_dependencies, Records};
use yarn_why::text::{contains_char, contains_str, same_text, starts_with, strip_prefix};
use yarn_why::why::{has_descriptor, why};

fn d(name: &str, range: &str) -> Descriptor {
    Descriptor::new(name, range)
}

fn entry(name: &str, version: &str, descriptors: Vec<Descriptor>, dependencies: Vec<Descriptor>) -> Entry {
    Entry { name: name.to_string(), version: version.to_string(), descriptors, dependencies }
}

fn diamond() -> Vec<Entry> {
    vec![
        entry("foobar", "0.0.0-use.local", vec![d("foobar", ".")], vec![d("vite", "^5.2.0")]),
        entry(
            "fsevents",
            "2.3.3",
            vec![d("fsevents", "~2.3.2"), d("fsevents", "~2.3.3")],
            vec![d("node-gyp", "latest")],
        ),
        entry("node-gyp", "10.0.1", vec![d("node-gyp", "latest")], vec![]),
        entry("rollup", "4.13.0", vec![d("rollup", "^4.13.0")], vec![d("fsevents", "~2.3.2")]),
        entry(
            "vite",
            "5.2.4",
            vec![d("vite", "^5.2.0")],
            vec![d("fsevents", "~2.3.3"), d("rollup", "^4.13.0")],
        ),
    ]
}

#[test]
fn text_helpers() {
    assert!(starts_with("npm:^1", "npm:"));
    assert!(starts_with("npm:", "npm:"));
    assert!(starts_with("x", ""));
    assert!(!starts_with("np", "npm:"));
    assert!(!starts_with("xnpm:", "npm:"));
    assert_eq!(strip_prefix("npm:^1", "npm:"), "^1");
    assert_eq!(strip_prefix("^1", "npm:"), "^1");
    assert_eq!(strip_prefix("npm:", "npm:"), "");
    assert!(contains_char("a#b", '#'));
    assert!(!contains_char("ab", '#'));
    assert!(!contains_char("", '#'));
    assert!(contains_str("x#github", "git"));
    assert!(contains_str("git", "git"));
    assert!(contains_str("abc", ""));
    assert!(!contains_str("gi", "git"));
    assert!(!contains_str("g-i-t", "git"));
    assert!(same_text("abc", "abc"));
    assert!(!same_text("abc", "abd"));
    assert!(!same_text("abc", "ab"));
    assert!(same_text("", ""));
}

#[test]
fn protocols_are_taken_off_ranges() {
    assert_eq!(strip_protocol("npm:^1.1.1"), "^1.1.1");
    assert_eq!(strip_protocol("workspace:."), ".");
    assert_eq!(strip_protocol("npm:workspace:^1"), "^1");
    assert_eq!(strip_protocol("workspace:npm:^1"), "npm:^1");
    assert_eq!(strip_protocol("^2.0.0"), "^2.0.0");
    assert_eq!(strip_protocol(""), "");
}

#[test]
fn patch_ranges_are_told_from_references() {
    assert!(patch_range("fsevents@npm%3A~2.3.2#optional!builtin<compat/fsevents>"));
    assert!(!patch_range("https://github.com/a/b.git#commit=abc"));
    assert!(!patch_range("^1.2.3"));
    assert!(patch_range("#"));
}

#[test]
fn entries_are_corrected() {
    let entries = vec![
        entry(
            "a",
            "1.0.0",
            vec![d("a", "^1"), d("a", "a@npm%3A^1#patch")],
            vec![d("b", "npm:^2"), d("c", "workspace:^3"), d("e", "x#y"), d("g", "u#git")],
        ),
        entry("p", "2.0.0", vec![d("p", "p@npm%3A^1#patch")], vec![d("b", "^2")]),
        entry("z", "3.0.0", vec![d("z", "npm:^3")], vec![]),
    ];
    let expected = vec![
        entry(
            "a",
            "1.0.0",
            vec![d("a", "^1")],
            vec![d("b", "^2"), d("c", "^3"), d("g", "u#git")],
        ),
        entry("z", "3.0.0", vec![d("z", "npm:^3")], vec![]),
    ];
    assert_eq!(normalize_entries(&entries), expected);
    assert_eq!(normalize_entries(&vec![]), vec![]);
}

#[test]
fn requirements_are_told_from_other_text() {
    assert!(valid_requirement(">=1.2.3, <3"));
    assert!(valid_requirement("^2"));
    assert!(valid_requirement("*"));
    assert!(!valid_requirement("not a range"));
    assert!(!valid_requirement(">=1.0 <2.0"));
}

#[test]
fn filter_holds_versions_of_the_queried_package_against_the_requirement() {
    let foo2 = entry("foo", "2.0.0", vec![d("foo", "^2")], vec![]);
    let foo1 = entry("foo", "1.0.0", vec![d("foo", "^1")], vec![]);
    let odd = entry("foo", "0.0.0-use.local.", vec![d("foo", ".")], vec![]);
    let bar = entry("bar", "1.0.0", vec![d("bar", "^1")], vec![]);
    assert!(entry_passes(&foo2, "foo", ">=2"));
    assert!(!entry_passes(&foo1, "foo", ">=2"));
    assert!(entry_passes(&foo1, "foo", "<2"));
    assert!(entry_passes(&odd, "foo", ">=2"));
    assert!(entry_passes(&bar, "foo", ">=2"));
    let all = vec![
        entry("foo", "2.0.0", vec![d("foo", "^2")], vec![]),
        entry("foo", "1.0.0", vec![d("foo", "^1")], vec![]),
        entry("foo", "0.0.0-use.local.", vec![d("foo", ".")], vec![]),
        entry("bar", "1.0.0", vec![d("bar", "^1")], vec![]),
    ];
    assert_eq!(filter_entries(&all, "foo", ">=2"), Some(vec![foo2, odd, bar]));
    assert_eq!(filter_entries(&all, "foo", "what"), None);
    assert_eq!(filter_entries(&vec![], "foo", "*"), Some(vec![]));
}

#[test]
fn graph_records_the_descriptors_of_an_entry_as_parents() {
    let graph = Graph::from_entries(&diamond());
    assert_eq!(graph.get_parents(&d("node-gyp", "latest")), vec![d("fsevents", "~2.3.2"), d("fsevents", "~2.3.3")]);
    assert_eq!(graph.get_parents(&d("fsevents", "~2.3.3")), vec![d("vite", "^5.2.0")]);
    assert_eq!(graph.get_parents(&d("fsevents", "~2.3.2")), vec![d("rollup", "^4.13.0")]);
    assert_eq!(graph.get_parents(&d("vite", "^5.2.0")), vec![d("foobar", ".")]);
    assert!(graph.get_parents(&d("foobar", ".")).is_empty());
    assert!(graph.get_parents(&d("nowhere", "1")).is_empty());
    assert!(graph.contains_key(&d("node-gyp", "latest")));
    assert!(!graph.contains_key(&d("foobar", ".")));
    assert!(!graph.contains_key(&d("nowhere", "1")));
    assert!(!graph.contains_key(&d("node-gyp", "^10")));
    assert_eq!(graph.version_of(&d("fsevents", "~2.3.2")), "2.3.3");
    assert_eq!(graph.version_of(&d("foobar", ".")), "0.0.0-use.local");
    assert_eq!(graph.version_of(&d("nowhere", "1")), "");
    assert_eq!(graph.len(), 6);
}

#[test]
fn graph_counts_an_edge_as_often_as_it_stands() {
    let entries = vec![entry("a", "1", vec![d("a", "1"), d("a", "2")], vec![d("q", "1"), d("q", "1")])];
    let graph = Graph::from_entries(&entries);
    assert_eq!(
        graph.get_parents(&d("q", "1")),
        vec![d("a", "1"), d("a", "2"), d("a", "1"), d("a", "2")]
    );
}

#[test]
fn graph_keeps_the_version_of_the_last_entry() {
    let entries = vec![
        entry("a", "1.0.0", vec![d("a", "^1")], vec![]),
        entry("a", "1.5.0", vec![d("a", "^1")], vec![]),
    ];
    assert_eq!(Graph::from_entries(&entries).version_of(&d("a", "^1")), "1.5.0");
}

#[test]
fn graph_is_built_edge_by_edge() {
    let mut graph = Graph::new();
    assert_eq!(graph.len(), 0);
    assert_eq!(graph.lookup(&d("a", "1")), None);
    graph.add_parents(&d("a", "1"), &vec![d("b", "1")]);
    graph.add_parents(&d("a", "1"), &vec![d("c", "1")]);
    graph.set_version(&d("c", "1"), &"9.9.9".to_string());
    assert_eq!(graph.lookup(&d("a", "1")), Some(0));
    assert_eq!(graph.lookup(&d("b", "1")), Some(1));
    assert_eq!(graph.lookup(&d("c", "1")), Some(2));
    assert_eq!(graph.lookup(&d("a", "2")), None);
    assert_eq!(graph.intern(&d("b", "1")), 1);
    assert_eq!(graph.intern(&d("e", "1")), 3);
    assert_eq!(graph.descriptor_at(2), &d("c", "1"));
    assert_eq!(graph.parents_at(0), &vec![1, 2]);
    assert!(graph.keyed_at(0));
    assert!(!graph.keyed_at(1));
    assert_eq!(graph.version_at(2), "9.9.9");
    assert_eq!(graph.version_at(0), "");
}

#[test]
fn queries_are_read_from_tokens() {
    assert_eq!(parse_query("lodash"), Query { name: "lodash".to_string(), range: None });
    assert_eq!(
        parse_query("lodash@^4.17.0"),
        Query { name: "lodash".to_string(), range: Some("^4.17.0".to_string()) }
    );
    assert_eq!(parse_query("@babel/core"), Query { name: "@babel/core".to_string(), range: None });
    assert_eq!(
        parse_query("@babel/core@^7"),
        Query { name: "@babel/core".to_string(), range: Some("^7".to_string()) }
    );
    assert_eq!(
        parse_query("a@npm:b@1"),
        Query { name: "a".to_string(), range: Some("npm:b@1".to_string()) }
    );
    assert_eq!(parse_query("a@"), Query { name: "a".to_string(), range: Some(String::new()) });
    assert_eq!(parse_query(""), Query { name: String::new(), range: None });
    assert_eq!(parse_query("@"), Query { name: "@".to_string(), range: None });
}

#[test]
fn bare_name_stands_for_every_descriptor_of_the_package() {
    let entries = diamond();
    assert_eq!(
        resolve_query(&Query { name: "fsevents".to_string(), range: None }, &entries),
        vec![d("fsevents", "~2.3.2"), d("fsevents", "~2.3.3")]
    );
    assert_eq!(resolve_query(&Query { name: "nope".to_string(), range: None }, &entries), vec![]);
    assert_eq!(
        resolve_query(&Query { name: "nope".to_string(), range: Some("^1".to_string()) }, &entries),
        vec![d("nope", "^1")]
    );
}

#[test]
fn why_finds_paths_for_every_query() {
    let entries = diamond();
    let graph = Graph::from_entries(&entries);
    let queries = vec![d("fsevents", "~2.3.2"), d("fsevents", "~2.3.3")];
    let paths = why(&queries, &graph, &entries, 20);
    assert_eq!(
        paths,
        vec![
            vec![d("foobar", "."), d("vite", "^5.2.0"), d("rollup", "^4.13.0"), d("fsevents", "~2.3.2")],
            vec![d("foobar", "."), d("vite", "^5.2.0"), d("fsevents", "~2.3.3")],
        ]
    );
}

#[test]
fn why_takes_a_root_as_a_path_of_its_own() {
    let entries = diamond();
    let graph = Graph::from_entries(&entries);
    assert_eq!(why(&vec![d("foobar", ".")], &graph, &entries, 20), vec![vec![d("foobar", ".")]]);
    let mut keyed = Graph::new();
    keyed.add_parents(&d("foobar", "."), &vec![]);
    assert_eq!(why(&vec![d("foobar", ".")], &keyed, &entries, 20), vec![vec![d("foobar", ".")]]);
}

#[test]
fn why_finds_nothing_for_what_is_not_there() {
    let entries = diamond();
    let graph = Graph::from_entries(&entries);
    let none: Vec<Vec<Descriptor>> = Vec::new();
    assert_eq!(why(&vec![], &graph, &entries, 20), none);
    assert_eq!(why(&vec![d("nope", "1")], &graph, &entries, 20), none);
    // the name must be the entry's own
    assert_eq!(why(&vec![d("other", ".")], &graph, &entries, 20), none);
    let odd = vec![entry("foobar", "1", vec![d("other", ".")], vec![])];
    assert_eq!(why(&vec![d("other", ".")], &Graph::new(), &odd, 20), none);
    assert!(has_descriptor(&odd[0].descriptors, &d("other", ".")));
    assert!(!has_descriptor(&odd[0].descriptors, &d("other", "1")));
}

#[test]
fn strings_are_ordered_byte_by_byte() {
    assert!(str_before("a", "b"));
    assert!(!str_before("b", "a"));
    assert!(!str_before("a", "a"));
    assert!(str_before("", "a"));
    assert!(!str_before("a", ""));
    assert!(!str_before("", ""));
    assert!(str_before("a", "ab"));
    assert!(str_before("B", "a"));
    assert!(str_before("z", "\u{e9}"));
    assert!(str_before("\u{e9}", "\u{4e2d}"));
    assert!(precedes(&d("a", "2"), &d("b", "1")));
    assert!(precedes(&d("a", "1"), &d("a", "2")));
    assert!(!precedes(&d("a", "2"), &d("a", "1")));
    assert!(!precedes(&d("a", "1"), &d("a", "1")));
    assert!(path_precedes(&vec![d("a", "1")], &vec![d("a", "1"), d("b", "1")]));
    assert!(!path_precedes(&vec![d("a", "1"), d("b", "1")], &vec![d("a", "1")]));
    assert!(path_precedes(&vec![], &vec![d("a", "1")]));
    assert!(!path_precedes(&vec![], &vec![]));
    assert!(path_precedes(&vec![d("a", "1"), d("z", "1")], &vec![d("b", "1")]));
}

#[test]
fn paths_are_sorted() {
    let paths = vec![
        vec![d("b", "1"), d("q", "1")],
        vec![d("a", "2"), d("q", "1")],
        vec![d("a", "1"), d("z", "1"), d("q", "1")],
        vec![d("a", "1")],
        vec![d("a", "1"), d("q", "1")],
        vec![d("a", "2"), d("q", "1")],
    ];
    let expected = vec![
        vec![d("a", "1")],
        vec![d("a", "1"), d("q", "1")],
        vec![d("a", "1"), d("z", "1"), d("q", "1")],
        vec![d("a", "2"), d("q", "1")],
        vec![d("a", "2"), d("q", "1")],
        vec![d("b", "1"), d("q", "1")],
    ];
    assert_eq!(sort_paths(&paths), expected);
    let mut by_std = paths
        .iter()
        .map(|p| p.iter().map(|x| (x.name.clone(), x.range.clone())).collect::<Vec<_>>())
        .collect::<Vec<_>>();
    by_std.sort();
    let ours = sort_paths(&paths)
        .iter()
        .map(|p| p.iter().map(|x| (x.name.clone(), x.range.clone())).collect::<Vec<_>>())
        .collect::<Vec<_>>();
    assert_eq!(ours, by_std);
    assert_eq!(sort_paths(&vec![]), Vec::<Vec<Descriptor>>::new());
}

#[test]
fn paths_are_cut_to_the_depth() {
    let paths = vec![vec![d("a", "1"), d("b", "1"), d("c", "1")], vec![d("a", "1")], vec![]];
    assert_eq!(
        truncate_paths(&paths, 2),
        vec![vec![d("a", "1"), d("b", "1")], vec![d("a", "1")], vec![]]
    );
    assert_eq!(truncate_paths(&paths, 0), vec![vec![], vec![], vec![]]);
    assert_eq!(truncate_paths(&paths, 3), paths);
    assert_eq!(truncate_paths(&paths, 100), paths);
}

#[test]
fn records_are_one_for_each_descriptor() {
    let entries = diamond();
    let records = iter_flat_dependencies(&entries);
    assert_eq!(records.len(), 6);
    assert_eq!(records[0], Records { name: "foobar", version: "0.0.0-use.local", descriptor: "." });
    assert_eq!(records[1], Records { name: "fsevents", version: "2.3.3", descriptor: "~2.3.2" });
    assert_eq!(records[2], Records { name: "fsevents", version: "2.3.3", descriptor: "~2.3.3" });
    assert_eq!(records[5], Records { name: "vite", version: "5.2.4", descriptor: "^5.2.0" });
    assert!(iter_flat_dependencies(&[]).is_empty());
}

#[test]
fn lockfile_gives_entries_with_bare_descriptors() {
    let text = "# yarn lockfile v1\n\n\n\"foolib@npm:1.2.3 || ^2.0.0\":\n  version: 2.0.0\n  resolution: \"foolib@npm:2.0.0\"\n  dependencies:\n    buzz: \"npm:^1.1.1\"\n  languageName: node\n  linkType: hard\n";
    let entries = parse_lockfile(text).unwrap();
    assert_eq!(
        entries,
        vec![entry("foolib", "2.0.0", vec![d("foolib", "1.2.3 || ^2.0.0")], vec![d("buzz", "npm:^1.1.1")])]
    );
    assert_eq!(parse_lockfile("\"unterminated"), None);
}

#[test]
fn copies_are_equal_to_what_they_copy() {
    let all = diamond();
    assert_eq!(all[1].clone(), all[1]);
    assert_eq!(clone_descriptors(&all[1].descriptors), all[1].descriptors);
    assert_eq!(d("a", "b").clone(), d("a", "b"));
    assert!(d("a", "b").same(&d("a", "b")));
    assert!(!d("a", "b").same(&d("a", "c")));
    assert!(!d("a", "b").same(&d("x", "b")));
}

#[test]
fn options_have_their_defaults() {
    let o = Options::default();
    assert_eq!(o.filter, None);
    assert_eq!(o.max_depth, Some(10));
    assert_eq!(MAX_DEPTH_DEFAULT, 10);
    assert!(o.dedup);
    assert!(!o.json);
    assert!(!o.color);
    assert_eq!(o.max_visits, 20);
    assert_eq!(MAX_PKG_VISITS_DEFAULT, 20);
}

#[test]
fn entries_are_explained_as_json() {
    let options = Options { json: true, color: true, ..Options::default() };
    let query = Query { name: "node-gyp".to_string(), range: None };
    assert_eq!(
        explain(&diamond(), &query, &options),
        Ok(r#"[{"descriptor":"vite@^5.2.0","version":"5.2.4","children":[{"descriptor":"fsevents@~2.3.3","version":"2.3.3","children":[{"descriptor":"node-gyp@latest","version":"10.0.1"}]},{"descriptor":"rollup@^4.13.0","version":"4.13.0","children":[{"descriptor":"fsevents@~2.3.2","version":"2.3.3","children":[{"descriptor":"node-gyp@latest","version":"10.0.1"}]}]}]}]"#.to_string())
    );
}

#[test]
fn forest_that_turns_in_circles_is_not_unfolded() {
    let entries = vec![
        entry("r", "1", vec![d("r", "1")], vec![d("b", "1")]),
        entry("b", "1", vec![d("b", "1")], vec![d("a", "1")]),
        entry("a", "1", vec![d("a", "1")], vec![d("b", "1"), d("q", "1")]),
        entry("q", "1", vec![d("q", "1")], vec![]),
    ];
    let query = Query { name: "q".to_string(), range: None };
    let raw = Options { dedup: false, max_visits: 2, ..Options::default() };
    assert_eq!(explain(&entries, &query, &raw), Err(Failure::Endless));
    let dedup = Options { max_visits: 2, ..Options::default() };
    assert_eq!(
        explain(&entries, &query, &dedup),
        Ok("└─ r@1 (via 1)\n   └─ b@1 (via 1)\n      └─ a@1 (via 1)\n         ├─ b@1 (via 1)\n         └─ q@1 (via 1)\n".to_string())
    );
}

#[test]
fn workspace_root_alone_leaves_nothing_to_show() {
    let query = Query { name: "foobar".to_string(), range: None };
    assert_eq!(explain(&diamond(), &query, &Options::default()), Err(Failure::NotFound));
}

#[test]
fn descriptor_that_is_no_key_has_no_parents() {
    let mut graph = Graph::new();
    graph.set_version(&d("a", "1"), &"1.0.0".to_string());
    assert_eq!(graph.lookup(&d("a", "1")), Some(0));
    assert!(!graph.contains_key(&d("a", "1")));
    assert!(graph.get_parents(&d("a", "1")).is_empty());
    graph.add_parents(&d("b", "1"), &vec![d("a", "1")]);
    assert!(graph.get_parents(&d("a", "1")).is_empty());
    assert_eq!(graph.get_parents(&d("b", "1")), vec![d("a", "1")]);
    graph.add_parents(&d("a", "1"), &vec![]);
    assert!(graph.contains_key(&d("a", "1")));
    assert!(graph.get_parents(&d("a", "1")).is_empty());
}
