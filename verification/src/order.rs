//! The order of paths: descriptor by descriptor, a descriptor by its name
//! and then its range, a string byte by byte.

use crate::forest::paths_of;
use crate::model::{clone_descriptors, keys_of, Descriptor, Key};
use vstd::prelude::*;
use vstd::string::*;
use vstd::utf8::encode_utf8;

verus! {

/// Whether, from position `k` on, `a` comes before `b`: at the first position
/// where they differ `a` has the smaller byte, or `a` ends there and `b` does not.
pub open spec fn bytes_before(a: Seq<u8>, b: Seq<u8>, k: int) -> bool
    decreases a.len() - k,
{
    if k >= b.len() {
        false
    } else if k >= a.len() {
        true
    } else if a[k] != b[k] {
        a[k] < b[k]
    } else {
        bytes_before(a, b, k + 1)
    }
}

/// Whether the string `a` comes before the string `b`, by their bytes in UTF-8.
pub open spec fn text_before(a: Seq<char>, b: Seq<char>) -> bool {
    bytes_before(encode_utf8(a), encode_utf8(b), 0)
}

/// Whether the descriptor `a` comes before `b`: by the name, and where the
/// names are the same, by the range.
pub open spec fn descriptor_before(a: Key, b: Key) -> bool {
    text_before(a.0, b.0) || (a.0 == b.0 && text_before(a.1, b.1))
}

/// Whether, from position `k` on, the path `a` comes before the path `b`.
pub open spec fn path_before(a: Seq<Key>, b: Seq<Key>, k: int) -> bool
    decreases a.len() - k,
{
    if k >= b.len() {
        false
    } else if k >= a.len() {
        true
    } else if a[k] != b[k] {
        descriptor_before(a[k], b[k])
    } else {
        path_before(a, b, k + 1)
    }
}

/// Whether no path comes before the one that stands before it.
pub open spec fn sorted(paths: Seq<Seq<Key>>) -> bool {
    forall|i: int, j: int|
        0 <= i && j == i + 1 && j < paths.len() ==> !path_before(
            #[trigger] paths[j],
            #[trigger] paths[i],
            0,
        )
}

/// Where `x` goes in the sorted list `s`: before the paths at the end that it
/// comes before. `j` is the position up to which the list has been searched
/// from the end.
pub open spec fn slot(s: Seq<Seq<Key>>, x: Seq<Key>, j: int) -> int
    decreases j,
{
    if j > 0 && j <= s.len() && path_before(x, s[j - 1], 0) {
        slot(s, x, j - 1)
    } else {
        j
    }
}

/// The first `n` paths in order: each one put, in its turn, where it goes
/// among those before it.
pub open spec fn ordered(paths: Seq<Seq<Key>>, n: int) -> Seq<Seq<Key>>
    decreases n,
{
    if n <= 0 {
        Seq::empty()
    } else {
        let s = ordered(paths, n - 1);
        s.insert(slot(s, paths[n - 1], s.len() as int), paths[n - 1])
    }
}

/// Of two strings of bytes at most one comes before the other.
pub proof fn lemma_bytes_one_way(a: Seq<u8>, b: Seq<u8>, k: int)
    requires
        0 <= k,
        bytes_before(a, b, k),
    ensures
        !bytes_before(b, a, k),
    decreases a.len() - k,
{
    if k < a.len() && k < b.len() && a[k] == b[k] {
        lemma_bytes_one_way(a, b, k + 1);
    }
}

/// Of two descriptors at most one comes before the other.
pub proof fn lemma_descriptor_one_way(a: Key, b: Key)
    requires
        descriptor_before(a, b),
    ensures
        !descriptor_before(b, a),
{
    if text_before(a.0, b.0) {
        lemma_bytes_one_way(encode_utf8(a.0), encode_utf8(b.0), 0);
    } else {
        lemma_bytes_one_way(encode_utf8(a.1), encode_utf8(b.1), 0);
    }
}

/// Of two paths at most one comes before the other.
pub proof fn lemma_path_one_way(a: Seq<Key>, b: Seq<Key>, k: int)
    requires
        0 <= k,
        path_before(a, b, k),
    ensures
        !path_before(b, a, k),
    decreases a.len() - k,
{
    if k < a.len() && k < b.len() {
        if a[k] == b[k] {
            lemma_path_one_way(a, b, k + 1);
        } else {
            lemma_descriptor_one_way(a[k], b[k]);
        }
    }
}

/// The path goes behind a path that it does not come before, and before
/// one that it comes before.
pub proof fn lemma_slot(s: Seq<Seq<Key>>, x: Seq<Key>, j: int)
    requires
        0 <= j <= s.len(),
    ensures
        0 <= slot(s, x, j) <= j,
        slot(s, x, j) > 0 ==> !path_before(x, s[slot(s, x, j) - 1], 0),
        slot(s, x, j) < j ==> path_before(x, s[slot(s, x, j)], 0),
    decreases j,
{
    if j > 0 && path_before(x, s[j - 1], 0) {
        lemma_slot(s, x, j - 1);
    }
}

/// The paths in order are sorted, and they are the paths that were given.
pub proof fn lemma_ordered(paths: Seq<Seq<Key>>, n: int)
    requires
        0 <= n <= paths.len(),
    ensures
        sorted(ordered(paths, n)),
        ordered(paths, n).len() == n,
        ordered(paths, n).to_multiset() == paths.subrange(0, n).to_multiset(),
    decreases n,
{
    broadcast use vstd::seq_lib::group_to_multiset_ensures;

    if n > 0 {
        lemma_ordered(paths, n - 1);
        let s = ordered(paths, n - 1);
        let x = paths[n - 1];
        let at = slot(s, x, s.len() as int);
        lemma_slot(s, x, s.len() as int);
        let t = s.insert(at, x);
        assert forall|i: int, j: int| 0 <= i && j == i + 1 && j < t.len() implies !path_before(
            #[trigger] t[j],
            #[trigger] t[i],
            0,
        ) by {
            if j < at {
            } else if j == at {
            } else if i == at {
                lemma_path_one_way(x, s[at], 0);
            }
        }
        vstd::seq_lib::to_multiset_insert(s, at, x);
        assert(paths.subrange(0, n) =~= paths.subrange(0, n - 1).push(x));
    }
}

/// Whether the string `a` comes before the string `b`.
pub fn str_before(a: &str, b: &str) -> (r: bool)
    ensures
        r == text_before(a@, b@),
{
    let x = a.as_bytes();
    let y = b.as_bytes();
    let mut k: usize = 0;
    loop
        invariant
            x@ == encode_utf8(a@),
            y@ == encode_utf8(b@),
            k <= x.len(),
            k <= y.len(),
            bytes_before(x@, y@, 0) == bytes_before(x@, y@, k as int),
        decreases x.len() - k,
    {
        if k >= y.len() {
            return false;
        }
        if k >= x.len() {
            return true;
        }
        if x[k] != y[k] {
            return x[k] < y[k];
        }
        k = k + 1;
    }
}

/// Whether the descriptor `a` comes before `b`.
pub fn precedes(a: &Descriptor, b: &Descriptor) -> (r: bool)
    ensures
        r == descriptor_before(a@, b@),
{
    if str_before(a.name.as_str(), b.name.as_str()) {
        return true;
    }
    a.name == b.name && str_before(a.range.as_str(), b.range.as_str())
}

/// Whether the path `a` comes before the path `b`.
pub fn path_precedes(a: &Vec<Descriptor>, b: &Vec<Descriptor>) -> (r: bool)
    ensures
        r == path_before(keys_of(a@), keys_of(b@), 0),
{
    let ghost x = keys_of(a@);
    let ghost y = keys_of(b@);
    let mut k: usize = 0;
    loop
        invariant
            x == keys_of(a@),
            y == keys_of(b@),
            k <= a.len(),
            k <= b.len(),
            path_before(x, y, 0) == path_before(x, y, k as int),
        decreases a.len() - k,
    {
        if k >= b.len() {
            return false;
        }
        if k >= a.len() {
            return true;
        }
        if !a[k].same(&b[k]) {
            return precedes(&a[k], &b[k]);
        }
        k = k + 1;
    }
}

/// The paths in order. A path that comes before none of those in front of it
/// stays behind them.
pub fn sort_paths(paths: &Vec<Vec<Descriptor>>) -> (out: Vec<Vec<Descriptor>>)
    ensures
        paths_of(out@) == ordered(paths_of(paths@), paths.len() as int),
        sorted(paths_of(out@)),
        paths_of(out@).to_multiset() == paths_of(paths@).to_multiset(),
{
    let ghost ps = paths_of(paths@);
    let mut out: Vec<Vec<Descriptor>> = Vec::new();
    let mut i: usize = 0;
    while i < paths.len()
        invariant
            i <= paths.len(),
            ps == paths_of(paths@),
            paths_of(out@) == ordered(ps, i as int),
            out.len() == i,
        decreases paths.len() - i,
    {
        let x = clone_descriptors(&paths[i]);
        let ghost s = paths_of(out@);
        let mut j: usize = out.len();
        while j > 0 && path_precedes(&x, &out[j - 1])
            invariant
                j <= out.len(),
                s == paths_of(out@),
                slot(s, keys_of(x@), s.len() as int) == slot(s, keys_of(x@), j as int),
            decreases j,
        {
            j = j - 1;
        }
        out.insert(j, x);
        i = i + 1;
    }
    proof {
        lemma_ordered(ps, paths.len() as int);
        assert(ps.subrange(0, paths.len() as int) =~= ps);
    }
    out
}

/// The first `depth` descriptors of a path; the path where it has no more.
pub open spec fn cut(path: Seq<Key>, depth: int) -> Seq<Key> {
    if depth < path.len() {
        path.subrange(0, depth)
    } else {
        path
    }
}

/// Every path cut to `depth` descriptors.
pub open spec fn cut_all(paths: Seq<Seq<Key>>, depth: int) -> Seq<Seq<Key>> {
    Seq::new(paths.len(), |i: int| cut(paths[i], depth))
}

/// Cuts every path to its first `depth` descriptors.
pub fn truncate_paths(paths: &Vec<Vec<Descriptor>>, depth: usize) -> (out: Vec<Vec<Descriptor>>)
    ensures
        paths_of(out@) == cut_all(paths_of(paths@), depth as int),
{
    let mut out: Vec<Vec<Descriptor>> = Vec::new();
    let mut i: usize = 0;
    while i < paths.len()
        invariant
            i <= paths.len(),
            out.len() == i,
            forall|k: int|
                0 <= k < i ==> keys_of(#[trigger] out[k]@) == cut(keys_of(paths[k]@), depth as int),
        decreases paths.len() - i,
    {
        let mut path = clone_descriptors(&paths[i]);
        if depth < path.len() {
            path.truncate(depth);
        }
        out.push(path);
        i = i + 1;
    }
    out
}

} // verus!
