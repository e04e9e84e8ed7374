//! The two renderings of a list of trees: lines of text, and JSON.

use crate::json::{json_trees, law_json_reads_back, read_document};
use crate::tree::{lemma_node_view, trees_of, Node, Tree};
use vstd::prelude::*;
use vstd::string::*;

verus! {

/// `String::push`: the character is added at the end.
#[verifier::external_body]
fn push_char(s: &mut String, c: char)
    ensures
        final(s)@ == old(s)@.push(c),
{
    s.push(c);
}

/// The digit of a number below sixteen, in lower case.
pub open spec fn hex_digit(v: int) -> char {
    if v == 0 {
        '0'
    } else if v == 1 {
        '1'
    } else if v == 2 {
        '2'
    } else if v == 3 {
        '3'
    } else if v == 4 {
        '4'
    } else if v == 5 {
        '5'
    } else if v == 6 {
        '6'
    } else if v == 7 {
        '7'
    } else if v == 8 {
        '8'
    } else if v == 9 {
        '9'
    } else if v == 10 {
        'a'
    } else if v == 11 {
        'b'
    } else if v == 12 {
        'c'
    } else if v == 13 {
        'd'
    } else if v == 14 {
        'e'
    } else {
        'f'
    }
}

/// A character as it stands in a JSON string: the quote, the backslash and
/// the control characters below U+0020 escaped, every other one as it is.
pub open spec fn escaped_char(c: char) -> Seq<char> {
    if c == '"' {
        seq!['\\', '"']
    } else if c == '\\' {
        seq!['\\', '\\']
    } else if c == '\u{8}' {
        seq!['\\', 'b']
    } else if c == '\t' {
        seq!['\\', 't']
    } else if c == '\n' {
        seq!['\\', 'n']
    } else if c == '\u{c}' {
        seq!['\\', 'f']
    } else if c == '\r' {
        seq!['\\', 'r']
    } else if (c as int) < 32 {
        seq!['\\', 'u', '0', '0', hex_digit((c as int) / 16), hex_digit((c as int) % 16)]
    } else {
        seq![c]
    }
}

/// The characters of a string as they stand in a JSON string.
pub open spec fn escaped(s: Seq<char>) -> Seq<char>
    decreases s.len(),
{
    if s.len() == 0 {
        Seq::empty()
    } else {
        escaped_char(s[0]) + escaped(s.skip(1))
    }
}

/// The JSON string literal for a string: its characters, escaped, between quotes.
pub open spec fn json_string(s: Seq<char>) -> Seq<char> {
    seq!['"'] + escaped(s) + seq!['"']
}

/// Whether the text holds no escape character, with which every colour
/// sequence begins.
pub open spec fn plain(s: Seq<char>) -> bool {
    forall|i: int| 0 <= i < s.len() ==> s[i] != '\x1b'
}

/// No escape character is in the characters of a JSON string: it is written
/// as `\u001b`.
pub proof fn lemma_escaped_plain(s: Seq<char>)
    ensures
        plain(escaped(s)),
        plain(json_string(s)),
    decreases s.len(),
{
    if s.len() > 0 {
        lemma_escaped_plain(s.skip(1));
        assert(plain(escaped_char(s[0])));
    }
}

/// `serde_json::to_string` on a string slice: the JSON string literal for
/// it. Between the quotes every character is written as it is, but for the
/// quote, the backslash and the bytes below 0x20: these are written as `\"`,
/// `\\`, `\b`, `\t`, `\n`, `\f`, `\r`, and any other of them as `\u00` with
/// its two hexadecimal digits in lower case. Serialising a string to memory
/// has no error to report.
#[verifier::external_body]
fn quote(s: &str) -> (r: String)
    ensures
        r@ == json_string(s@),
{
    serde_json::to_string(s).unwrap_or_default()
}

/// The JSON string literal for a string.
pub fn json_quote(s: &str) -> (r: String)
    ensures
        r@ == json_string(s@),
        plain(r@),
{
    proof {
        lemma_escaped_plain(s@);
    }
    quote(s)
}

/// The decimal digit for a number below ten.
pub open spec fn digit(d: nat) -> char {
    if d == 0 {
        '0'
    } else if d == 1 {
        '1'
    } else if d == 2 {
        '2'
    } else if d == 3 {
        '3'
    } else if d == 4 {
        '4'
    } else if d == 5 {
        '5'
    } else if d == 6 {
        '6'
    } else if d == 7 {
        '7'
    } else if d == 8 {
        '8'
    } else {
        '9'
    }
}

/// The decimal digits of a number, without leading zeros.
pub open spec fn decimal(n: nat) -> Seq<char>
    decreases n,
{
    if n < 10 {
        seq![digit(n)]
    } else {
        decimal(n / 10).push(digit(n % 10))
    }
}

fn digit_char(d: usize) -> (c: char)
    requires
        d < 10,
    ensures
        c == digit(d as nat),
{
    if d == 0 {
        '0'
    } else if d == 1 {
        '1'
    } else if d == 2 {
        '2'
    } else if d == 3 {
        '3'
    } else if d == 4 {
        '4'
    } else if d == 5 {
        '5'
    } else if d == 6 {
        '6'
    } else if d == 7 {
        '7'
    } else if d == 8 {
        '8'
    } else {
        '9'
    }
}

/// Writes a number in decimal digits.
pub fn to_decimal(n: usize) -> (r: String)
    ensures
        r@ == decimal(n as nat),
    decreases n,
{
    if n < 10 {
        let mut s = String::new();
        push_char(&mut s, digit_char(n));
        assert(s@ =~= seq![digit(n as nat)]);
        s
    } else {
        let mut s = to_decimal(n / 10);
        push_char(&mut s, digit_char(n % 10));
        s
    }
}

/// A colour: red, green and blue.
pub type Rgb = (usize, usize, usize);

/// `s` between the escape sequence that sets the colour and the one that
/// resets it; `s` itself where it is empty or colours are off.
pub open spec fn colored(s: Seq<char>, rgb: Rgb, on: bool) -> Seq<char> {
    if s.len() == 0 || !on {
        s
    } else {
        "\x1b[38;2;"@ + decimal(rgb.0 as nat) + ";"@ + decimal(rgb.1 as nat) + ";"@ + decimal(
            rgb.2 as nat,
        ) + "m"@ + s + "\x1b[0m"@
    }
}

/// `s` in the colour `rgb` where colours are on and `s` is not empty.
pub fn colorize(s: &str, rgb: Rgb, on: bool) -> (r: String)
    ensures
        r@ == colored(s@, rgb, on),
{
    if s.unicode_len() == 0 || !on {
        return String::from_str(s);
    }
    let mut out = String::from_str("\x1b[38;2;");
    out.append(to_decimal(rgb.0).as_str());
    out.append(";");
    out.append(to_decimal(rgb.1).as_str());
    out.append(";");
    out.append(to_decimal(rgb.2).as_str());
    out.append("m");
    out.append(s);
    out.append("\x1b[0m");
    out
}

/// The position of the first `c` in `s`; the length of `s` where there is none.
pub open spec fn first_char(s: Seq<char>, c: char) -> int
    decreases s.len(),
{
    if s.len() == 0 {
        0
    } else if s[0] == c {
        0
    } else {
        1 + first_char(s.drop_first(), c)
    }
}

proof fn lemma_first_char(s: Seq<char>, c: char, k: int)
    requires
        0 <= k <= s.len(),
        k < s.len() ==> s[k] == c,
        forall|j: int| 0 <= j < k ==> s[j] != c,
    ensures
        first_char(s, c) == k,
    decreases k,
{
    if k > 0 {
        let t = s.drop_first();
        assert forall|j: int| 0 <= j < k - 1 implies t[j] != c by {
            assert(t[j] == s[j + 1]);
        }
        if k < s.len() {
            assert(t[k - 1] == c);
        }
        lemma_first_char(t, c, k - 1);
    }
}

/// How many characters of a package name are its scope: what stands before
/// the first `/` of a name that begins with `@`; none in any other name.
pub open spec fn scope_len(name: Seq<char>) -> int {
    if name.len() > 0 && name[0] == '@' && first_char(name, '/') < name.len() {
        first_char(name, '/')
    } else {
        0
    }
}

fn scope_of(name: &str) -> (k: usize)
    ensures
        k == scope_len(name@),
        k <= name@.len(),
{
    let n: usize = name.unicode_len();
    if n == 0 || name.get_char(0) != '@' {
        return 0;
    }
    let mut i: usize = 0;
    while i < n
        invariant
            i <= n,
            n == name@.len(),
            n > 0,
            name@[0] == '@',
            forall|j: int| 0 <= j < i ==> name@[j] != '/',
        decreases n - i,
    {
        if name.get_char(i) == '/' {
            proof {
                lemma_first_char(name@, '/', i as int);
            }
            return i;
        }
        i = i + 1;
    }
    proof {
        lemma_first_char(name@, '/', n as int);
    }
    0
}

/// What stands before the mark of a node: each column with two blanks.
pub open spec fn indent(cols: Seq<char>) -> Seq<char>
    decreases cols.len(),
{
    if cols.len() == 0 {
        Seq::empty()
    } else {
        indent(cols.drop_last()).push(cols.last()) + "  "@
    }
}

/// The colour of the scope of a package name.
pub const ORANGE: Rgb = (215, 95, 0);

/// The colour of a package name.
pub const SALMON: Rgb = (215, 135, 95);

/// The colour of the version.
pub const BLUE: Rgb = (135, 175, 255);

/// The colour of the range.
pub const TEAL: Rgb = (3, 150, 150);

/// The line of a node: the columns, the mark of a last or another child, the
/// package name with its scope in a colour of its own, the version, and the
/// range through which the package is requested.
pub open spec fn line(t: Tree, is_last: bool, cols: Seq<char>, on: bool) -> Seq<char> {
    let name = t.descriptor.0;
    let k = scope_len(name);
    indent(cols) + (if is_last {
        "└"@
    } else {
        "├"@
    }) + "─ "@ + colored(name.subrange(0, k), ORANGE, on) + colored(
        name.subrange(k, name.len() as int),
        SALMON,
        on,
    ) + colored("@"@, BLUE, on) + colored(t.version, BLUE, on) + " (via "@ + colored(
        t.descriptor.1,
        TEAL,
        on,
    ) + ")\n"@
}

/// The column below a node: a bar where more children of its parent follow.
pub open spec fn column(is_last: bool) -> char {
    if is_last {
        ' '
    } else {
        '│'
    }
}

/// The lines of a node and of all that is below it.
pub open spec fn drawn(t: Tree, is_last: bool, cols: Seq<char>, on: bool) -> Seq<char>
    decreases t, 0int,
{
    line(t, is_last, cols, on) + drawn_list(
        t.children,
        cols.push(column(is_last)),
        on,
        t.children.len() as int,
    )
}

/// The lines of the first `n` of `ts`, the children of one node.
pub open spec fn drawn_list(ts: Seq<Tree>, cols: Seq<char>, on: bool, n: int) -> Seq<char>
    decreases ts, n,
{
    if n <= 0 || n > ts.len() {
        Seq::empty()
    } else {
        drawn_list(ts, cols, on, n - 1) + drawn(ts[n - 1], n == ts.len(), cols, on)
    }
}

/// The lines of the first `n` trees, with a bar alone on a line between two.
pub open spec fn printed(ts: Seq<Tree>, on: bool, n: int) -> Seq<char>
    decreases n,
{
    if n <= 0 || n > ts.len() {
        Seq::empty()
    } else {
        printed(ts, on, n - 1) + (if n > 1 {
            "│\n"@
        } else {
            Seq::empty()
        }) + drawn(ts[n - 1], n == ts.len(), Seq::empty(), on)
    }
}

fn append_colored(output: &mut String, s: &str, rgb: Rgb, on: bool)
    ensures
        final(output)@ == old(output)@ + colored(s@, rgb, on),
{
    let piece = colorize(s, rgb, on);
    output.append(piece.as_str());
}

fn with_column(cols: &Vec<char>, c: char) -> (r: Vec<char>)
    ensures
        r@ == cols@.push(c),
{
    let mut out: Vec<char> = Vec::new();
    let mut i: usize = 0;
    while i < cols.len()
        invariant
            i <= cols.len(),
            out@ == cols@.subrange(0, i as int),
        decreases cols.len() - i,
    {
        out.push(cols[i]);
        assert(out@ =~= cols@.subrange(0, i + 1));
        i = i + 1;
    }
    assert(cols@.subrange(0, i as int) =~= cols@);
    out.push(c);
    out
}

/// The columns, each with two blanks.
fn indent_text(cols: &Vec<char>) -> (text: String)
    ensures
        text@ == indent(cols@),
{
    let mut text = String::new();
    let mut i: usize = 0;
    assert(cols@.subrange(0, 0) =~= Seq::<char>::empty());
    while i < cols.len()
        invariant
            i <= cols.len(),
            text@ == indent(cols@.subrange(0, i as int)),
        decreases cols.len() - i,
    {
        push_char(&mut text, cols[i]);
        text.append("  ");
        proof {
            let head = cols@.subrange(0, i + 1);
            assert(head.drop_last() =~= cols@.subrange(0, i as int));
        }
        i = i + 1;
    }
    proof {
        assert(cols@.subrange(0, i as int) =~= cols@);
    }
    text
}

/// The line of a node.
fn line_text(node: &Node, is_last: bool, cols: &Vec<char>, on: bool) -> (text: String)
    ensures
        text@ == line(node@, is_last, cols@, on),
{
    proof {
        lemma_node_view(*node);
    }
    let mut text = indent_text(cols);
    if is_last {
        text.append("└");
    } else {
        text.append("├");
    }
    text.append("─ ");
    let name = node.descriptor.name.as_str();
    let n: usize = name.unicode_len();
    let k: usize = scope_of(name);
    append_colored(&mut text, name.substring_char(0, k), ORANGE, on);
    append_colored(&mut text, name.substring_char(k, n), SALMON, on);
    append_colored(&mut text, "@", BLUE, on);
    append_colored(&mut text, node.version.as_str(), BLUE, on);
    text.append(" (via ");
    append_colored(&mut text, node.descriptor.range.as_str(), TEAL, on);
    text.append(")\n");
    text
}

/// Adds to `output` the line of `node` and the lines of all that is below it.
pub fn print_tree_node(node: &Node, is_last: bool, cols: Vec<char>, output: &mut String, on: bool)
    ensures
        final(output)@ == old(output)@ + drawn(node@, is_last, cols@, on),
    decreases node,
{
    proof {
        lemma_node_view(*node);
    }
    let mut text = line_text(node, is_last, &cols, on);
    let ghost t = node@;
    let ghost below = cols@.push(column(is_last));
    let mut lines = String::new();
    let count: usize = node.children.len();
    let mut j: usize = 0;
    while j < count
        invariant
            j <= count,
            count == node.children.len(),
            t.children == trees_of(node.children@),
            below == cols@.push(column(is_last)),
            lines@ == drawn_list(t.children, below, on, j as int),
        decreases count - j,
    {
        let child_levels = with_column(&cols, if is_last {
            ' '
        } else {
            '│'
        });
        proof {
            vstd::std_specs::vec::axiom_vec_index_decreases(node.children, j as int);
            assert(t.children[j as int] == node.children[j as int]@);
        }
        print_tree_node(&node.children[j], j == count - 1, child_levels, &mut lines, on);
        j = j + 1;
    }
    text.append(lines.as_str());
    output.append(text.as_str());
}

/// The trees as lines of text, one line for each node.
pub fn print_tree(tree: &Vec<Node>, on: bool) -> (output: String)
    ensures
        output@ == printed(trees_of(tree@), on, tree.len() as int),
{
    let ghost ts = trees_of(tree@);
    let mut output = String::new();
    let count: usize = tree.len();
    let mut i: usize = 0;
    while i < count
        invariant
            i <= count,
            count == tree.len(),
            ts == trees_of(tree@),
            output@ == printed(ts, on, i as int),
        decreases count - i,
    {
        let mut bar = String::new();
        if i > 0 {
            bar = String::from_str("│\n");
        }
        output.append(bar.as_str());
        assert(ts[i as int] == tree[i as int]@);
        print_tree_node(&tree[i], i == count - 1, Vec::new(), &mut output, on);
        i = i + 1;
    }
    output
}

/// Whether a list of children is left out of the JSON of its node.
pub fn serialize_skip_if_children_empty<T>(x: &[T]) -> (r: bool)
    ensures
        r == (x@.len() == 0),
{
    x.len() == 0
}

/// The JSON of a node: its descriptor as `name@range`, its version and,
/// where it has children, the list of theirs.
pub open spec fn json_node(t: Tree) -> Seq<char>
    decreases t, 0int,
{
    "{\"descriptor\":"@ + json_string(t.descriptor.0 + "@"@ + t.descriptor.1) + ",\"version\":"@
        + json_string(t.version) + (if t.children.len() == 0 {
        Seq::empty()
    } else {
        ",\"children\":["@ + json_items(t.children, t.children.len() as int) + "]"@
    }) + "}"@
}

/// The JSON of the first `n` of `ts`, with commas between them.
pub open spec fn json_items(ts: Seq<Tree>, n: int) -> Seq<char>
    decreases ts, n,
{
    if n <= 0 || n > ts.len() {
        Seq::empty()
    } else {
        json_items(ts, n - 1) + (if n > 1 {
            ","@
        } else {
            Seq::empty()
        }) + json_node(ts[n - 1])
    }
}

/// The JSON of a list of trees.
pub open spec fn json_list(ts: Seq<Tree>) -> Seq<char> {
    "["@ + json_items(ts, ts.len() as int) + "]"@
}

/// Adds a piece without escape character to text that has none.
fn append_plain(output: &mut String, piece: &str)
    requires
        plain(old(output)@),
        plain(piece@),
    ensures
        final(output)@ == old(output)@ + piece@,
        plain(final(output)@),
{
    output.append(piece);
}

/// The marks between which the JSON of a node stands have no escape character.
proof fn lemma_marks_plain()
    ensures
        plain("["@),
        plain("]"@),
        plain(","@),
        plain("}"@),
        plain("{\"descriptor\":"@),
        plain(",\"version\":"@),
        plain(",\"children\":["@),
{
    reveal_strlit("[");
    reveal_strlit("]");
    reveal_strlit(",");
    reveal_strlit("}");
    reveal_strlit("{\"descriptor\":");
    reveal_strlit(",\"version\":");
    reveal_strlit(",\"children\":[");
}

/// The JSON of a node.
fn json_node_text(node: &Node) -> (text: String)
    ensures
        text@ == json_node(node@),
        plain(text@),
    decreases node, 0int,
{
    proof {
        lemma_node_view(*node);
        lemma_marks_plain();
    }
    let mut label = node.descriptor.name.clone();
    label.append("@");
    label.append(node.descriptor.range.as_str());
    let mut text = String::from_str("{\"descriptor\":");
    append_plain(&mut text, json_quote(label.as_str()).as_str());
    append_plain(&mut text, ",\"version\":");
    append_plain(&mut text, json_quote(node.version.as_str()).as_str());
    let mut below = String::new();
    if !serialize_skip_if_children_empty(node.children.as_slice()) {
        below = String::from_str(",\"children\":[");
        let items = json_items_text(&node.children);
        append_plain(&mut below, items.as_str());
        append_plain(&mut below, "]");
    }
    append_plain(&mut text, below.as_str());
    append_plain(&mut text, "}");
    text
}

/// The JSON of the nodes, with commas between them.
fn json_items_text(nodes: &Vec<Node>) -> (text: String)
    ensures
        text@ == json_items(trees_of(nodes@), nodes.len() as int),
        plain(text@),
    decreases nodes, 1int,
{
    let ghost ts = trees_of(nodes@);
    let mut text = String::new();
    let count: usize = nodes.len();
    let mut i: usize = 0;
    proof {
        lemma_marks_plain();
    }
    while i < count
        invariant
            i <= count,
            count == nodes.len(),
            ts == trees_of(nodes@),
            text@ == json_items(ts, i as int),
            plain(text@),
            plain(","@),
        decreases count - i,
    {
        let mut comma = String::new();
        if i > 0 {
            comma = String::from_str(",");
        }
        append_plain(&mut text, comma.as_str());
        proof {
            assert(ts[i as int] == nodes[i as int]@);
            vstd::std_specs::vec::axiom_vec_index_decreases(*nodes, i as int);
        }
        let item = json_node_text(&nodes[i]);
        append_plain(&mut text, item.as_str());
        i = i + 1;
    }
    text
}

/// The trees as one JSON document: a list with an object for each tree.
/// No escape character is in it, and so no colour. Read back, it gives the
/// trees again, each with its descriptor as `name@range`.
pub fn print_tree_as_json(tree: &Vec<Node>) -> (output: String)
    ensures
        output@ == json_list(trees_of(tree@)),
        plain(output@),
        read_document(output@) == Some(json_trees(trees_of(tree@), tree.len() as int)),
{
    proof {
        lemma_marks_plain();
        law_json_reads_back(trees_of(tree@));
    }
    let mut output = String::from_str("[");
    let items = json_items_text(tree);
    append_plain(&mut output, items.as_str());
    append_plain(&mut output, "]");
    output
}

} // verus!
