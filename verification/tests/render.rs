use yarn_why::model::Descriptor;
use yarn_why::render::{
    colorize, json_quote, print_tree, print_tree_as_json, print_tree_node,
    serialize_skip_if_children_empty, to_decimal,
};
use yarn_why::tree::Node;

fn node(name: &str, range: &str, version: &str, children: Vec<Node>) -> Node {
    Node { descriptor: Descriptor::new(name, range), version: version.to_string(), children }
}

fn diamond() -> Vec<Node> {
    vec![node(
        "vite",
        "^5.2.0",
        "5.2.4",
        vec![
            node("fsevents", "~2.3.3", "2.3.3", vec![node("node-gyp", "latest", "10.0.1", vec![])]),
            node(
                "rollup",
                "^4.13.0",
                "4.13.0",
                vec![node(
                    "fsevents",
                    "~2.3.2",
                    "2.3.3",
                    vec![node("node-gyp", "latest", "10.0.1", vec![])],
                )],
            ),
        ],
    )]
}

#[test]
fn decimal_digits_of_numbers() {
    assert_eq!(to_decimal(0), "0");
    assert_eq!(to_decimal(7), "7");
    assert_eq!(to_decimal(10), "10");
    assert_eq!(to_decimal(215), "215");
    assert_eq!(to_decimal(1234567890), "1234567890");
}

#[test]
fn colorize_wraps_in_escape_sequences() {
    assert_eq!(colorize("foo", (215, 95, 0), true), "\x1b[38;2;215;95;0mfoo\x1b[0m");
    assert_eq!(colorize("@", (135, 175, 255), true), "\x1b[38;2;135;175;255m@\x1b[0m");
}

#[test]
fn colorize_leaves_empty_and_plain_text_alone() {
    assert_eq!(colorize("", (215, 95, 0), true), "");
    assert_eq!(colorize("foo", (215, 95, 0), false), "foo");
    assert_eq!(colorize("", (215, 95, 0), false), "");
}

#[test]
fn one_tree_is_one_block_of_lines() {
    let expected = "└─ vite@5.2.4 (via ^5.2.0)\n   ├─ fsevents@2.3.3 (via ~2.3.3)\n   │  └─ node-gyp@10.0.1 (via latest)\n   └─ rollup@4.13.0 (via ^4.13.0)\n      └─ fsevents@2.3.3 (via ~2.3.2)\n         └─ node-gyp@10.0.1 (via latest)\n";
    assert_eq!(print_tree(&diamond(), false), expected);
}

#[test]
fn two_trees_are_parted_by_a_bar() {
    let trees = vec![
        node("a", "1", "1.0.0", vec![node("q", "^1", "1.2.0", vec![])]),
        node("b", "2", "2.0.0", vec![]),
    ];
    let expected = "├─ a@1.0.0 (via 1)\n│  └─ q@1.2.0 (via ^1)\n│\n└─ b@2.0.0 (via 2)\n";
    assert_eq!(print_tree(&trees, false), expected);
}

#[test]
fn no_trees_give_no_text() {
    assert_eq!(print_tree(&vec![], false), "");
    assert_eq!(print_tree(&vec![], true), "");
}

#[test]
fn node_is_printed_after_what_is_there() {
    let mut output = String::from("x\n");
    print_tree_node(&node("a", "1", "1.0.0", vec![]), false, vec![' ', '│'], &mut output, false);
    assert_eq!(output, "x\n   │  ├─ a@1.0.0 (via 1)\n");
}

#[test]
fn colours_part_scope_name_version_and_range() {
    let trees = vec![node("@babel/core", "^7.0.0", "7.1.2", vec![])];
    let expected = "└─ \x1b[38;2;215;95;0m@babel\x1b[0m\x1b[38;2;215;135;95m/core\x1b[0m\x1b[38;2;135;175;255m@\x1b[0m\x1b[38;2;135;175;255m7.1.2\x1b[0m (via \x1b[38;2;3;150;150m^7.0.0\x1b[0m)\n";
    assert_eq!(print_tree(&trees, true), expected);
}

#[test]
fn name_without_scope_has_one_colour() {
    let trees = vec![node("lodash", "^4", "4.17.21", vec![])];
    let expected = "└─ \x1b[38;2;215;135;95mlodash\x1b[0m\x1b[38;2;135;175;255m@\x1b[0m\x1b[38;2;135;175;255m4.17.21\x1b[0m (via \x1b[38;2;3;150;150m^4\x1b[0m)\n";
    assert_eq!(print_tree(&trees, true), expected);
}

#[test]
fn scope_without_slash_is_no_scope() {
    let trees = vec![node("@odd", "1", "1.0.0", vec![])];
    let expected = "└─ \x1b[38;2;215;135;95m@odd\x1b[0m\x1b[38;2;135;175;255m@\x1b[0m\x1b[38;2;135;175;255m1.0.0\x1b[0m (via \x1b[38;2;3;150;150m1\x1b[0m)\n";
    assert_eq!(print_tree(&trees, true), expected);
}

#[test]
fn json_has_descriptor_version_and_children() {
    let trees = vec![node("a", "1", "1.0.0", vec![node("q", "^1", "1.2.0", vec![])])];
    assert_eq!(
        print_tree_as_json(&trees),
        r#"[{"descriptor":"a@1","version":"1.0.0","children":[{"descriptor":"q@^1","version":"1.2.0"}]}]"#
    );
}

#[test]
fn json_of_no_trees_is_an_empty_list() {
    assert_eq!(print_tree_as_json(&vec![]), "[]");
}

#[test]
fn json_escapes_what_strings_cannot_hold() {
    let trees = vec![node("a\"b", "\\1\n", "\x1b[0m", vec![])];
    assert_eq!(
        print_tree_as_json(&trees),
        "[{\"descriptor\":\"a\\\"b@\\\\1\\n\",\"version\":\"\\u001b[0m\"}]"
    );
}

fn same_structure(value: &serde_json::Value, trees: &Vec<Node>) -> bool {
    let list = match value.as_array() {
        Some(list) => list,
        None => return false,
    };
    if list.len() != trees.len() {
        return false;
    }
    for (item, tree) in list.iter().zip(trees.iter()) {
        let object = match item.as_object() {
            Some(object) => object,
            None => return false,
        };
        let label = format!("{}@{}", tree.descriptor.name, tree.descriptor.range);
        if object.get("descriptor").and_then(|d| d.as_str()) != Some(label.as_str()) {
            return false;
        }
        if object.get("version").and_then(|v| v.as_str()) != Some(tree.version.as_str()) {
            return false;
        }
        match object.get("children") {
            None => {
                if !tree.children.is_empty() || object.len() != 2 {
                    return false;
                }
            }
            Some(children) => {
                if tree.children.is_empty()
                    || object.len() != 3
                    || !same_structure(children, &tree.children)
                {
                    return false;
                }
            }
        }
    }
    true
}

#[test]
fn json_reads_back_to_the_same_trees() {
    let trees = diamond();
    let text = print_tree_as_json(&trees);
    assert!(!text.contains('\x1b'));
    let value: serde_json::Value = serde_json::from_str(&text).unwrap();
    assert!(same_structure(&value, &trees));
}

#[test]
fn json_of_odd_strings_reads_back() {
    let trees = vec![node("@s/\"n\"", "^1 || \u{e9}\t", "1.0.0-\x1b", vec![node("", "", "", vec![])])];
    let text = print_tree_as_json(&trees);
    assert!(!text.contains('\x1b'));
    let value: serde_json::Value = serde_json::from_str(&text).unwrap();
    assert!(same_structure(&value, &trees));
}

#[test]
fn children_are_left_out_when_there_are_none() {
    let none: Vec<Node> = Vec::new();
    assert!(serialize_skip_if_children_empty(none.as_slice()));
    assert!(!serialize_skip_if_children_empty(diamond().as_slice()));
    assert!(serialize_skip_if_children_empty::<u8>(&[]));
    assert!(!serialize_skip_if_children_empty(&[1u8]));
}

fn quoted_as_stated(s: &str) -> String {
    let mut out = String::from("\"");
    for c in s.chars() {
        match c {
            '"' => out.push_str("\\\""),
            '\\' => out.push_str("\\\\"),
            '\u{8}' => out.push_str("\\b"),
            '\t' => out.push_str("\\t"),
            '\n' => out.push_str("\\n"),
            '\u{c}' => out.push_str("\\f"),
            '\r' => out.push_str("\\r"),
            c if (c as u32) < 32 => {
                let digits: Vec<char> = "0123456789abcdef".chars().collect();
                out.push_str("\\u00");
                out.push(digits[(c as usize) / 16]);
                out.push(digits[(c as usize) % 16]);
            }
            c => out.push(c),
        }
    }
    out.push('"');
    out
}

#[test]
fn strings_are_quoted_as_stated() {
    assert_eq!(json_quote(""), "\"\"");
    assert_eq!(json_quote("a\"b"), "\"a\\\"b\"");
    assert_eq!(json_quote("\u{1b}"), "\"\\u001b\"");
    assert_eq!(json_quote("\u{1f}\u{0}"), "\"\\u001f\\u0000\"");
    assert_eq!(json_quote("\u{7f}\u{e9}/"), "\"\u{7f}\u{e9}/\"");
    for code in 0u32..0x300 {
        let c = char::from_u32(code).unwrap();
        let s = format!("x{}y{}", c, c);
        assert_eq!(json_quote(&s), quoted_as_stated(&s));
    }
    let odd = "\u{4e2d}\u{1f600}\\\\\"\"\n\r\t\u{8}\u{c}";
    assert_eq!(json_quote(odd), quoted_as_stated(odd));
}
