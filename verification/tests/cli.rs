use yarn_why::explain::{explain_lockfile, Failure, Options};
use yarn_why::query::{parse_query, Query};

const YARN_LOCK_V6_WITH_DEPS: &str = r#"# This file is generated by running "yarn install" inside your project.
# Manual changes might be lost - proceed with caution!

__metadata:
  version: 6
  cacheKey: 8

"foo@workspace:.":
  version: 0.0.0-use.local
  resolution: "foo@workspace:."
  dependencies:
    foolib: 1.2.3 || ^2.0.0
    buzz: "npm:^1.1.1"
  languageName: unknown
  linkType: soft

"foolib@npm:1.2.3 || ^2.0.0":
  version: 2.0.0
  resolution: "foolib@npm:2.0.0"
  checksum: 123061e52a0b3792c6a0472bf48ca6c337ccb58e92261049e7727a12c326b9627537e2ef8cb4453354d02c763b87c8b516f4eedfad99945c308927285bbc12ba
  languageName: node
  linkType: hard

"buzz@npm:^1.1.1":
  version: 1.1.2
  resolution: "buzz@npm:1.1.2"
  checksum: 58e92261049e7727a12c326b9627537e123061e52a0b3792c6a0472bf48ca6c337ccb2ef8cb4453354d02c763b87c8b516f4eedfad99945c308927285bbc12ba
  languageName: node
  linkType: hard
"#;

const YARN_LOCK_V6_ONLY_DIRECT_DEPS: &str = r#"# This file is generated by running "yarn install" inside your project.
# Manual changes might be lost - proceed with caution!

__metadata:
  version: 6
  cacheKey: 8

"foolib@npm:1.2.3 || ^2.0.0":
  version: 2.0.0
  resolution: "foolib@npm:2.0.0"
  checksum: 123061e52a0b3792c6a0472bf48ca6c337ccb58e92261049e7727a12c326b9627537e2ef8cb4453354d02c763b87c8b516f4eedfad99945c308927285bbc12ba
  languageName: node
  linkType: hard
"#;

const YARN_LOCK_V8_WITH_PATCH_PROTOCOL: &str = r#"# This file is generated by running "yarn install" inside your project.
# Manual changes might be lost - proceed with caution!

__metadata:
  version: 8
  cacheKey: 10c0

"foobar@workspace:.":
  version: 0.0.0-use.local
  resolution: "foobar@workspace:."
  dependencies:
    vite: "npm:^5.2.0"
  languageName: unknown
  linkType: soft

"fsevents@npm:~2.3.2, fsevents@npm:~2.3.3":
  version: 2.3.3
  resolution: "fsevents@npm:2.3.3"
  dependencies:
    node-gyp: "npm:latest"
  checksum: 10c0/a1f0c44595123ed717febbc478aa952e47adfc28e2092be66b8ab1635147254ca6cfe1df792a8997f22716d4cbafc73309899ff7bfac2ac3ad8cf2e4ecc3ec60
  conditions: os=darwin
  languageName: node
  linkType: hard

"fsevents@patch:fsevents@npm%3A~2.3.2#optional!builtin<compat/fsevents>, fsevents@patch:fsevents@npm%3A~2.3.3#optional!builtin<compat/fsevents>":
  version: 2.3.3
  resolution: "fsevents@patch:fsevents@npm%3A2.3.3#optional!builtin<compat/fsevents>::version=2.3.3&hash=df0bf1"
  dependencies:
    node-gyp: "npm:latest"
  conditions: os=darwin
  languageName: node
  linkType: hard

"node-gyp@npm:latest":
  version: 10.0.1
  resolution: "node-gyp@npm:10.0.1"
  checksum: 10c0/abddfff7d873312e4ed4a5fb75ce893a5c4fb69e7fcb1dfa71c28a6b92a7f1ef6b62790dffb39181b5a82728ba8f2f32d229cf8cbe66769fe02cea7db4a555aa
  languageName: node
  linkType: hard

"rollup@npm:^4.13.0":
  version: 4.13.0
  resolution: "rollup@npm:4.13.0"
  dependencies:
    fsevents: "npm:~2.3.2"
  checksum: 10c0/90f8cdf9c2115223cbcfe91d932170a85c0928ae1943f45af6877907ea150585b80f656cf2bc471c6f809cb7e158dd85dbea9f91ab4fd5bce0eaf6c3f5f4fd92
  languageName: node
  linkType: hard

"vite@npm:^5.2.0":
  version: 5.2.4
  resolution: "vite@npm:5.2.4"
  dependencies:
    fsevents: "npm:~2.3.3"
    rollup: "npm:^4.13.0"
  dependenciesMeta:
    fsevents:
      optional: true
  checksum: 10c0/a8a57da83b5a46d9fc135fc4c51d08e1e60cdc4263ce6e7b23d60501c70605dd541726c331ab4d837ad774cdbf0b78bac088da770287620f81ad8b4d7b39dd74
  languageName: node
  linkType: hard
"#;

fn by_name(name: &str) -> Query {
    Query { name: name.to_string(), range: None }
}

fn with_filter(filter: &str) -> Options {
    Options { filter: Some(filter.to_string()), ..Options::default() }
}

#[test]
fn it_finds_a_package_with_range() {
    let output = explain_lockfile(YARN_LOCK_V6_WITH_DEPS, &by_name("foolib"), &with_filter(">=1.2.3, <3"));

    assert_eq!(
        output,
        Ok(r#"└─ foolib@2.0.0 (via 1.2.3 || ^2.0.0)
"#
        .to_string())
    );
}

#[test]
fn it_finds_a_package_without_range() {
    let output = explain_lockfile(YARN_LOCK_V6_WITH_DEPS, &by_name("foolib"), &Options::default());

    assert_eq!(
        output,
        Ok(r#"└─ foolib@2.0.0 (via 1.2.3 || ^2.0.0)
"#
        .to_string())
    );
}

#[test]
fn it_finds_a_package_whose_dep_is_using_npm_protocol() {
    let output = explain_lockfile(YARN_LOCK_V6_WITH_DEPS, &by_name("buzz"), &Options::default());

    assert_eq!(
        output,
        Ok(r#"└─ buzz@1.1.2 (via ^1.1.1)
"#
        .to_string())
    );
}

#[test]
fn it_finds_a_package_in_a_yarn_lock_with_only_direct_deps() {
    let output =
        explain_lockfile(YARN_LOCK_V6_ONLY_DIRECT_DEPS, &by_name("foolib"), &Options::default());

    assert_eq!(output, Ok("└─ foolib@2.0.0 (via 1.2.3 || ^2.0.0)\n".to_string()));
}

#[test]
fn it_exit_with_error_if_the_package_cannot_be_found() {
    let output =
        explain_lockfile(YARN_LOCK_V6_ONLY_DIRECT_DEPS, &by_name("not-there"), &Options::default());

    assert_eq!(output, Err(Failure::NotFound));
}

#[test]
fn it_ignores_entries_with_the_patch_protocol() {
    let output =
        explain_lockfile(YARN_LOCK_V8_WITH_PATCH_PROTOCOL, &by_name("node-gyp"), &Options::default());

    assert_eq!(
        output,
        Ok(r#"└─ vite@5.2.4 (via ^5.2.0)
   ├─ fsevents@2.3.3 (via ~2.3.3)
   │  └─ node-gyp@10.0.1 (via latest)
   └─ rollup@4.13.0 (via ^4.13.0)
      └─ fsevents@2.3.3 (via ~2.3.2)
         └─ node-gyp@10.0.1 (via latest)
"#
        .to_string())
    );
}

#[test]
fn explicit_range_that_matches_gives_the_same_line() {
    let query = parse_query("foolib@1.2.3 || ^2.0.0");
    assert_eq!(
        query,
        Query { name: "foolib".to_string(), range: Some("1.2.3 || ^2.0.0".to_string()) }
    );
    let output = explain_lockfile(YARN_LOCK_V6_WITH_DEPS, &query, &Options::default());
    assert_eq!(output, Ok("└─ foolib@2.0.0 (via 1.2.3 || ^2.0.0)\n".to_string()));
}

#[test]
fn explicit_range_that_is_absent_is_not_found() {
    let query = parse_query("foolib@^9");
    let output = explain_lockfile(YARN_LOCK_V6_WITH_DEPS, &query, &Options::default());
    assert_eq!(output, Err(Failure::NotFound));
}

#[test]
fn filter_that_leaves_no_version_is_not_found() {
    let output = explain_lockfile(YARN_LOCK_V6_WITH_DEPS, &by_name("foolib"), &with_filter("<2"));
    assert_eq!(output, Err(Failure::NotFound));
}

#[test]
fn filter_that_is_no_requirement_is_refused() {
    let output =
        explain_lockfile(YARN_LOCK_V6_WITH_DEPS, &by_name("foolib"), &with_filter("not a range"));
    assert_eq!(output, Err(Failure::Filter));
}

#[test]
fn text_that_is_no_lockfile_is_refused() {
    let output = explain_lockfile("\"unterminated", &by_name("foolib"), &Options::default());
    assert_eq!(output, Err(Failure::Lockfile));
}

#[test]
fn same_input_gives_the_same_bytes() {
    let first =
        explain_lockfile(YARN_LOCK_V8_WITH_PATCH_PROTOCOL, &by_name("node-gyp"), &Options::default());
    let second =
        explain_lockfile(YARN_LOCK_V8_WITH_PATCH_PROTOCOL, &by_name("node-gyp"), &Options::default());
    assert!(first.is_ok());
    assert_eq!(first, second);
}

#[test]
fn bare_name_finds_both_ranges() {
    let output =
        explain_lockfile(YARN_LOCK_V8_WITH_PATCH_PROTOCOL, &by_name("fsevents"), &Options::default());
    assert_eq!(
        output,
        Ok(r#"└─ vite@5.2.4 (via ^5.2.0)
   ├─ fsevents@2.3.3 (via ~2.3.3)
   └─ rollup@4.13.0 (via ^4.13.0)
      └─ fsevents@2.3.3 (via ~2.3.2)
"#
        .to_string())
    );
}

#[test]
fn depth_cuts_every_path() {
    let options = Options { max_depth: Some(2), ..Options::default() };
    let output = explain_lockfile(YARN_LOCK_V8_WITH_PATCH_PROTOCOL, &by_name("node-gyp"), &options);
    assert_eq!(output, Ok("└─ vite@5.2.4 (via ^5.2.0)\n".to_string()));
}

#[test]
fn depth_of_zero_leaves_nothing_to_show() {
    let options = Options { max_depth: Some(0), ..Options::default() };
    let output = explain_lockfile(YARN_LOCK_V8_WITH_PATCH_PROTOCOL, &by_name("node-gyp"), &options);
    assert_eq!(output, Err(Failure::NotFound));
}

#[test]
fn without_dedup_the_forest_is_unfolded() {
    let options = Options { dedup: false, ..Options::default() };
    let output = explain_lockfile(YARN_LOCK_V8_WITH_PATCH_PROTOCOL, &by_name("node-gyp"), &options);
    assert_eq!(
        output,
        Ok(r#"└─ vite@5.2.4 (via ^5.2.0)
   ├─ fsevents@2.3.3 (via ~2.3.3)
   │  └─ node-gyp@10.0.1 (via latest)
   └─ rollup@4.13.0 (via ^4.13.0)
      └─ fsevents@2.3.3 (via ~2.3.2)
         └─ node-gyp@10.0.1 (via latest)
"#
        .to_string())
    );
}
