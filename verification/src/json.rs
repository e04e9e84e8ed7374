//! Reading the JSON of trees back: the text that is written determines the
//! trees, each with its descriptor as one string.

use crate::render::{
    escaped, escaped_char, hex_digit, json_items, json_list, json_node, json_string,
};
use crate::tree::Tree;
use vstd::prelude::*;

verus! {

/// A tree as the JSON holds it: the descriptor as the one string `name@range`.
pub struct JsonTree {
    pub descriptor: Seq<char>,
    pub version: Seq<char>,
    pub children: Seq<JsonTree>,
}

/// The tree as the JSON holds it.
pub open spec fn json_tree(t: Tree) -> JsonTree
    decreases t, 0int,
{
    JsonTree {
        descriptor: t.descriptor.0 + "@"@ + t.descriptor.1,
        version: t.version,
        children: json_trees(t.children, t.children.len() as int),
    }
}

/// The first `n` trees as the JSON holds them.
pub open spec fn json_trees(ts: Seq<Tree>, n: int) -> Seq<JsonTree>
    decreases ts, n,
{
    if n <= 0 || n > ts.len() {
        Seq::empty()
    } else {
        json_trees(ts, n - 1).push(json_tree(ts[n - 1]))
    }
}

/// What is read so far, and the text that is left.
pub struct Read<T> {
    pub value: T,
    pub rest: Seq<char>,
}

/// The number that a hexadecimal digit in lower case stands for.
pub open spec fn hex_value(c: char) -> Option<int> {
    if c == '0' {
        Some(0)
    } else if c == '1' {
        Some(1)
    } else if c == '2' {
        Some(2)
    } else if c == '3' {
        Some(3)
    } else if c == '4' {
        Some(4)
    } else if c == '5' {
        Some(5)
    } else if c == '6' {
        Some(6)
    } else if c == '7' {
        Some(7)
    } else if c == '8' {
        Some(8)
    } else if c == '9' {
        Some(9)
    } else if c == 'a' {
        Some(10)
    } else if c == 'b' {
        Some(11)
    } else if c == 'c' {
        Some(12)
    } else if c == 'd' {
        Some(13)
    } else if c == 'e' {
        Some(14)
    } else if c == 'f' {
        Some(15)
    } else {
        None
    }
}

/// The character that an escape stands for, and how many characters the
/// escape takes; `None` where the text does not begin with an escape.
pub open spec fn read_escape(text: Seq<char>) -> Option<(char, int)> {
    if text.len() < 2 || text[0] != '\\' {
        None
    } else if text[1] == '"' {
        Some(('"', 2))
    } else if text[1] == '\\' {
        Some(('\\', 2))
    } else if text[1] == 'b' {
        Some(('\u{8}', 2))
    } else if text[1] == 't' {
        Some(('\t', 2))
    } else if text[1] == 'n' {
        Some(('\n', 2))
    } else if text[1] == 'f' {
        Some(('\u{c}', 2))
    } else if text[1] == 'r' {
        Some(('\r', 2))
    } else if text[1] == 'u' && text.len() >= 6 && text[2] == '0' && text[3] == '0' && hex_value(
        text[4],
    ) is Some && hex_value(text[5]) is Some && 16 * hex_value(text[4])->0 + hex_value(text[5])->0
        < 32 {
        Some(((16 * hex_value(text[4])->0 + hex_value(text[5])->0) as char, 6))
    } else {
        None
    }
}

/// The string whose characters stand at the beginning of the text, up to the
/// quote that ends it, and the text behind that quote.
pub open spec fn read_characters(text: Seq<char>) -> Option<Read<Seq<char>>>
    decreases text.len(),
{
    if text.len() == 0 {
        None
    } else if text[0] == '"' {
        Some(Read { value: Seq::empty(), rest: text.skip(1) })
    } else if text[0] == '\\' {
        match read_escape(text) {
            Some((c, n)) => match read_characters(text.skip(n)) {
                Some(more) => Some(Read { value: seq![c] + more.value, rest: more.rest }),
                None => None,
            },
            None => None,
        }
    } else {
        match read_characters(text.skip(1)) {
            Some(more) => Some(Read { value: seq![text[0]] + more.value, rest: more.rest }),
            None => None,
        }
    }
}

/// The string whose literal stands at the beginning of the text.
pub open spec fn read_string(text: Seq<char>) -> Option<Read<Seq<char>>> {
    if text.len() > 0 && text[0] == '"' {
        read_characters(text.skip(1))
    } else {
        None
    }
}

/// The text behind `mark`, where the text begins with it.
pub open spec fn read_mark(text: Seq<char>, mark: Seq<char>) -> Option<Seq<char>> {
    if mark.len() <= text.len() && text.subrange(0, mark.len() as int) == mark {
        Some(text.skip(mark.len() as int))
    } else {
        None
    }
}

/// The tree whose object stands at the beginning of the text.
pub open spec fn read_node(text: Seq<char>) -> Option<Read<JsonTree>>
    decreases text.len(), 0int,
{
    match read_mark(text, "{\"descriptor\":"@) {
        None => None,
        Some(r1) => match read_string(r1) {
            None => None,
            Some(d) => match read_mark(d.rest, ",\"version\":"@) {
                None => None,
                Some(r3) => match read_string(r3) {
                    None => None,
                    Some(v) => if v.rest.len() > 0 && v.rest[0] == '}' {
                        Some(
                            Read {
                                value: JsonTree {
                                    descriptor: d.value,
                                    version: v.value,
                                    children: Seq::empty(),
                                },
                                rest: v.rest.skip(1),
                            },
                        )
                    } else {
                        match read_mark(v.rest, ",\"children\":["@) {
                            None => None,
                            Some(r5) => if r5.len() < text.len() {
                                match read_items(r5) {
                                    None => None,
                                    Some(items) => match read_mark(items.rest, "]"@) {
                                        None => None,
                                        Some(r7) => match read_mark(r7, "}"@) {
                                            None => None,
                                            Some(r8) => Some(
                                                Read {
                                                    value: JsonTree {
                                                        descriptor: d.value,
                                                        version: v.value,
                                                        children: items.value,
                                                    },
                                                    rest: r8,
                                                },
                                            ),
                                        },
                                    },
                                }
                            } else {
                                None
                            },
                        }
                    },
                },
            },
        },
    }
}

/// The trees whose objects stand at the beginning of the text, one at least,
/// with commas between them.
pub open spec fn read_items(text: Seq<char>) -> Option<Read<Seq<JsonTree>>>
    decreases text.len(), 1int,
{
    match read_node(text) {
        None => None,
        Some(first) => if first.rest.len() > 0 && first.rest[0] == ',' {
            if first.rest.len() <= text.len() {
                match read_items(first.rest.skip(1)) {
                    None => None,
                    Some(more) => Some(
                        Read { value: seq![first.value] + more.value, rest: more.rest },
                    ),
                }
            } else {
                None
            }
        } else {
            Some(Read { value: seq![first.value], rest: first.rest })
        },
    }
}

/// The trees that a JSON document holds: a list of objects and nothing
/// behind it.
pub open spec fn read_document(text: Seq<char>) -> Option<Seq<JsonTree>> {
    match read_mark(text, "["@) {
        None => None,
        Some(r1) => if r1.len() > 0 && r1[0] == ']' {
            if r1.len() == 1 {
                Some(Seq::empty())
            } else {
                None
            }
        } else {
            match read_items(r1) {
                None => None,
                Some(items) => match read_mark(items.rest, "]"@) {
                    None => None,
                    Some(r3) => if r3.len() == 0 {
                        Some(items.value)
                    } else {
                        None
                    },
                },
            }
        },
    }
}

/// The digit of a number below sixteen stands for that number.
proof fn lemma_hex(v: int)
    requires
        0 <= v < 16,
    ensures
        hex_value(hex_digit(v)) == Some(v),
{
}

/// An escape is read as the character that it was written for.
proof fn lemma_read_escape(c: char, tail: Seq<char>)
    requires
        escaped_char(c).len() > 1,
    ensures
        read_escape(escaped_char(c) + tail) == Some((c, escaped_char(c).len() as int)),
{
    let e = escaped_char(c);
    let text = e + tail;
    assert(text[0] == e[0]);
    assert(text[1] == e[1]);
    if e.len() == 6 {
        let v = c as int;
        assert(text[2] == e[2] && text[3] == e[3] && text[4] == e[4] && text[5] == e[5]);
        lemma_hex(v / 16);
        lemma_hex(v % 16);
        assert(16 * (v / 16) + v % 16 == v);
        assert((v as char) == c);
    }
}

/// The characters of a string, written and read, are the string.
proof fn lemma_read_characters(s: Seq<char>, rest: Seq<char>)
    ensures
        read_characters(escaped(s) + seq!['"'] + rest) == Some(Read { value: s, rest }),
    decreases s.len(),
{
    let text = escaped(s) + seq!['"'] + rest;
    if s.len() == 0 {
        assert(text[0] == '"');
        assert(text.skip(1) =~= rest);
        assert(s =~= Seq::<char>::empty());
    } else {
        let c = s[0];
        let e = escaped_char(c);
        let tail = escaped(s.skip(1)) + seq!['"'] + rest;
        lemma_read_characters(s.skip(1), rest);
        assert(text =~= e + tail);
        assert(text[0] == e[0]);
        assert(text.skip(e.len() as int) =~= tail);
        assert(seq![c] + s.skip(1) =~= s);
        if e.len() > 1 {
            lemma_read_escape(c, tail);
        }
    }
}

/// A string, written and read, is the string.
proof fn lemma_read_string(s: Seq<char>, rest: Seq<char>)
    ensures
        read_string(json_string(s) + rest) == Some(Read { value: s, rest }),
{
    let text = json_string(s) + rest;
    lemma_read_characters(s, rest);
    assert(text[0] == '"');
    assert(text.skip(1) =~= escaped(s) + seq!['"'] + rest);
}

/// A mark is read where it stands.
proof fn lemma_read_mark(mark: Seq<char>, rest: Seq<char>)
    ensures
        read_mark(mark + rest, mark) == Some(rest),
{
    let text = mark + rest;
    assert(text.subrange(0, mark.len() as int) =~= mark);
    assert(text.skip(mark.len() as int) =~= rest);
}

/// The JSON of the trees from the one at `k` on, with commas between them.
pub open spec fn items_from(ts: Seq<Tree>, k: int) -> Seq<char>
    decreases ts.len() - k,
{
    if k < 0 || k >= ts.len() {
        Seq::empty()
    } else {
        json_node(ts[k]) + (if k + 1 < ts.len() {
            ","@ + items_from(ts, k + 1)
        } else {
            Seq::empty()
        })
    }
}

/// What stands behind the tree at `k - 1` in the JSON of all the trees.
pub open spec fn items_behind(ts: Seq<Tree>, k: int) -> Seq<char> {
    if k < ts.len() {
        ","@ + items_from(ts, k)
    } else {
        Seq::empty()
    }
}

/// The JSON of the first `n` trees and of those behind them is the JSON of all.
proof fn lemma_items_split(ts: Seq<Tree>, n: int)
    requires
        1 <= n <= ts.len(),
    ensures
        json_items(ts, n) + items_behind(ts, n) == items_from(ts, 0),
    decreases n,
{
    if n == 1 {
        assert(json_items(ts, 0) =~= Seq::<char>::empty());
        assert(json_items(ts, 1) =~= json_node(ts[0]));
        assert(items_from(ts, 0) == json_node(ts[0]) + items_behind(ts, 1));
    } else {
        lemma_items_split(ts, n - 1);
        let before = json_items(ts, n - 1);
        let node = json_node(ts[n - 1]);
        assert(json_items(ts, n) == before + ","@ + node);
        assert(items_from(ts, n - 1) == node + items_behind(ts, n));
        assert(before + ","@ + node + items_behind(ts, n) =~= before + (","@ + (node
            + items_behind(ts, n))));
    }
}

/// The trees from the one at `k` on, as the JSON holds them.
pub open spec fn json_trees_from(ts: Seq<Tree>, k: int) -> Seq<JsonTree> {
    Seq::new((ts.len() - k) as nat, |i: int| json_tree(ts[k + i]))
}

/// The first `n` trees as the JSON holds them are the first `n` of all.
proof fn lemma_json_trees(ts: Seq<Tree>, n: int)
    requires
        0 <= n <= ts.len(),
    ensures
        json_trees(ts, n) == json_trees_from(ts, 0).subrange(0, n),
    decreases n,
{
    if n > 0 {
        lemma_json_trees(ts, n - 1);
    }
    assert(json_trees(ts, n) =~= json_trees_from(ts, 0).subrange(0, n));
}

/// The object of a tree, written and read, is the tree as the JSON holds it.
proof fn lemma_read_node(t: Tree, rest: Seq<char>)
    ensures
        read_node(json_node(t) + rest) == Some(Read { value: json_tree(t), rest }),
    decreases t, 0int,
{
    let text = json_node(t) + rest;
    let label = t.descriptor.0 + "@"@ + t.descriptor.1;
    let a = "{\"descriptor\":"@;
    let b = ",\"version\":"@;
    let c = ",\"children\":["@;
    let below = if t.children.len() == 0 {
        Seq::<char>::empty()
    } else {
        c + json_items(t.children, t.children.len() as int) + "]"@
    };
    let r4 = below + ("}"@ + rest);
    let r3 = json_string(t.version) + r4;
    let r2 = b + r3;
    let r1 = json_string(label) + r2;
    reveal_strlit("}");
    reveal_strlit("]");
    reveal_strlit(",\"children\":[");
    assert(json_node(t) == a + json_string(label) + b + json_string(t.version) + below + "}"@);
    assert(text =~= a + r1);
    lemma_read_mark(a, r1);
    lemma_read_string(label, r2);
    lemma_read_mark(b, r3);
    lemma_read_string(t.version, r4);
    lemma_json_trees(t.children, t.children.len() as int);
    if t.children.len() == 0 {
        assert(r4 =~= "}"@ + rest);
        assert(r4[0] == '}');
        assert(r4.skip(1) =~= rest);
        assert(json_tree(t).children =~= Seq::<JsonTree>::empty());
    } else {
        let n = t.children.len() as int;
        let r7 = "}"@ + rest;
        let r6 = "]"@ + r7;
        let r5 = json_items(t.children, n) + r6;
        assert(r4 =~= c + r5);
        assert(r4[0] == ',');
        lemma_read_mark(c, r5);
        lemma_items_split(t.children, n);
        assert(items_behind(t.children, n) =~= Seq::<char>::empty());
        assert(json_items(t.children, n) =~= items_from(t.children, 0));
        assert(r6[0] == ']');
        lemma_read_items(t.children, 0, r6);
        lemma_read_mark("]"@, r7);
        lemma_read_mark("}"@, rest);
        assert(json_trees_from(t.children, 0).subrange(0, n) =~= json_trees_from(t.children, 0));
        assert(r5.len() < text.len());
    }
}

/// The objects of the trees from the one at `k` on, written and read, are
/// these trees as the JSON holds them.
proof fn lemma_read_items(ts: Seq<Tree>, k: int, rest: Seq<char>)
    requires
        0 <= k < ts.len(),
        rest.len() == 0 || rest[0] != ',',
    ensures
        read_items(items_from(ts, k) + rest) == Some(
            Read { value: json_trees_from(ts, k), rest },
        ),
    decreases ts, ts.len() - k,
{
    let text = items_from(ts, k) + rest;
    let node = json_node(ts[k]);
    let behind = items_behind(ts, k + 1) + rest;
    reveal_strlit(",");
    assert(text =~= node + behind);
    lemma_read_node(ts[k], behind);
    if k + 1 < ts.len() {
        let more = items_from(ts, k + 1) + rest;
        assert(behind =~= ","@ + more);
        assert(behind[0] == ',');
        assert(behind.skip(1) =~= more);
        lemma_read_items(ts, k + 1, rest);
        assert(seq![json_tree(ts[k])] + json_trees_from(ts, k + 1) =~= json_trees_from(ts, k));
    } else {
        assert(behind =~= rest);
        assert(seq![json_tree(ts[k])] =~= json_trees_from(ts, k));
    }
}

/// The JSON of trees, read back, gives the trees again: one object for each
/// tree, in order, each with its descriptor as `name@range`, its version,
/// and its children, read in the same way, where it has any.
pub proof fn law_json_reads_back(ts: Seq<Tree>)
    ensures
        read_document(json_list(ts)) == Some(json_trees(ts, ts.len() as int)),
{
    let n = ts.len() as int;
    let text = json_list(ts);
    let r1 = json_items(ts, n) + "]"@;
    reveal_strlit("]");
    reveal_strlit("{\"descriptor\":");
    assert(text =~= "["@ + r1);
    lemma_read_mark("["@, r1);
    lemma_json_trees(ts, n);
    if n == 0 {
        assert(r1 =~= "]"@);
        assert(json_trees(ts, n) =~= Seq::<JsonTree>::empty());
    } else {
        lemma_items_split(ts, n);
        assert(items_behind(ts, n) =~= Seq::<char>::empty());
        assert(json_items(ts, n) =~= items_from(ts, 0));
        assert(r1[0] == json_node(ts[0])[0]);
        assert(json_node(ts[0])[0] == '{');
        lemma_read_items(ts, 0, "]"@);
        lemma_read_mark("]"@, Seq::<char>::empty());
        assert("]"@ + Seq::<char>::empty() =~= "]"@);
        assert(json_trees_from(ts, 0).subrange(0, n) =~= json_trees_from(ts, 0));
    }
}

} // verus!
