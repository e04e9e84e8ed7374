//! The two corrections that the entries of a lockfile get before the graph is
//! built: the protocol is taken off the range of a dependency, and what the
//! patch protocol repeats is dropped.

use crate::model::{entries_of, keys_of, Descriptor, Entry, EntryView, Key};
use crate::text::{contains_char, contains_str, has_substring, strip_prefix, without_prefix};
use vstd::prelude::*;
use vstd::string::*;

verus! {

/// The range of a dependency without the protocol `npm:` and, after that,
/// without the protocol `workspace:`.
pub open spec fn bare_range(range: Seq<char>) -> Seq<char> {
    without_prefix(without_prefix(range, "npm:"@), "workspace:"@)
}

/// Whether a range comes from the patch protocol: it holds a `#`, and no
/// `git`, which marks a reference into version control.
pub open spec fn is_patch(range: Seq<char>) -> bool {
    range.contains('#') && !has_substring(range, "git"@)
}

/// Of the first `n` descriptors, those that stay.
pub open spec fn kept_descriptors(ds: Seq<Key>, n: int) -> Seq<Key>
    decreases n,
{
    if n <= 0 {
        Seq::empty()
    } else if is_patch(ds[n - 1].1) {
        kept_descriptors(ds, n - 1)
    } else {
        kept_descriptors(ds, n - 1).push(ds[n - 1])
    }
}

/// Of the first `n` dependencies, those that stay, each with its bare range.
pub open spec fn kept_dependencies(ds: Seq<Key>, n: int) -> Seq<Key>
    decreases n,
{
    if n <= 0 {
        Seq::empty()
    } else if is_patch(bare_range(ds[n - 1].1)) {
        kept_dependencies(ds, n - 1)
    } else {
        kept_dependencies(ds, n - 1).push((ds[n - 1].0, bare_range(ds[n - 1].1)))
    }
}

/// The entry with the descriptors and the dependencies that stay.
pub open spec fn normal_entry(e: EntryView) -> EntryView {
    EntryView {
        name: e.name,
        version: e.version,
        descriptors: kept_descriptors(e.descriptors, e.descriptors.len() as int),
        dependencies: kept_dependencies(e.dependencies, e.dependencies.len() as int),
    }
}

/// Of the first `n` entries, corrected, those that keep a descriptor.
pub open spec fn normalized(es: Seq<EntryView>, n: int) -> Seq<EntryView>
    decreases n,
{
    if n <= 0 {
        Seq::empty()
    } else if normal_entry(es[n - 1]).descriptors.len() == 0 {
        normalized(es, n - 1)
    } else {
        normalized(es, n - 1).push(normal_entry(es[n - 1]))
    }
}

/// Whether a range comes from the patch protocol.
pub fn patch_range(range: &str) -> (r: bool)
    ensures
        r == is_patch(range@),
{
    contains_char(range, '#') && !contains_str(range, "git")
}

/// The range of a dependency without its protocol.
pub fn strip_protocol(range: &str) -> (r: String)
    ensures
        r@ == bare_range(range@),
{
    let first = strip_prefix(range, "npm:");
    strip_prefix(first.as_str(), "workspace:")
}

fn normal_descriptors(ds: &Vec<Descriptor>) -> (out: Vec<Descriptor>)
    ensures
        keys_of(out@) == kept_descriptors(keys_of(ds@), ds.len() as int),
{
    let mut out: Vec<Descriptor> = Vec::new();
    let mut i: usize = 0;
    while i < ds.len()
        invariant
            i <= ds.len(),
            keys_of(out@) == kept_descriptors(keys_of(ds@), i as int),
        decreases ds.len() - i,
    {
        let d = &ds[i];
        if !patch_range(d.range.as_str()) {
            out.push(d.clone());
        }
        i = i + 1;
    }
    out
}

fn normal_dependencies(ds: &Vec<Descriptor>) -> (out: Vec<Descriptor>)
    ensures
        keys_of(out@) == kept_dependencies(keys_of(ds@), ds.len() as int),
{
    let mut out: Vec<Descriptor> = Vec::new();
    let mut i: usize = 0;
    while i < ds.len()
        invariant
            i <= ds.len(),
            keys_of(out@) == kept_dependencies(keys_of(ds@), i as int),
        decreases ds.len() - i,
    {
        let d = &ds[i];
        let range = strip_protocol(d.range.as_str());
        if !patch_range(range.as_str()) {
            let kept = Descriptor { name: d.name.clone(), range };
            out.push(kept);
        }
        i = i + 1;
    }
    out
}

/// The entries as the graph is built from them: the ranges of dependencies
/// without protocol, nothing from the patch protocol, and no entry without a
/// descriptor.
pub fn normalize_entries(entries: &Vec<Entry>) -> (out: Vec<Entry>)
    ensures
        entries_of(out@) == normalized(entries_of(entries@), entries.len() as int),
{
    let ghost es = entries_of(entries@);
    let mut out: Vec<Entry> = Vec::new();
    let mut i: usize = 0;
    while i < entries.len()
        invariant
            i <= entries.len(),
            es == entries_of(entries@),
            entries_of(out@) == normalized(es, i as int),
        decreases entries.len() - i,
    {
        let e = &entries[i];
        let descriptors = normal_descriptors(&e.descriptors);
        if descriptors.len() > 0 {
            let dependencies = normal_dependencies(&e.dependencies);
            let kept = Entry {
                name: e.name.clone(),
                version: e.version.clone(),
                descriptors,
                dependencies,
            };
            out.push(kept);
        }
        i = i + 1;
    }
    out
}

} // verus!
