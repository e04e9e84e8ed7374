//! The records that a lockfile resolves to: descriptors and entries.

use vstd::prelude::*;
use vstd::string::*;

verus! {

/// The mathematical value of a descriptor: the package name and the range.
pub type Key = (Seq<char>, Seq<char>);

/// A package name with the range under which it is requested. Two descriptors
/// are the same node of the graph when both strings are equal.
#[derive(Debug, PartialEq, Eq)]
pub struct Descriptor {
    pub name: String,
    pub range: String,
}

impl View for Descriptor {
    type V = (Seq<char>, Seq<char>);

    open spec fn view(&self) -> (Seq<char>, Seq<char>) {
        (self.name@, self.range@)
    }
}

impl Clone for Descriptor {
    fn clone(&self) -> (r: Self)
        ensures
            r@ == self@,
    {
        Descriptor { name: self.name.clone(), range: self.range.clone() }
    }
}

impl Descriptor {
    /// The descriptor of a name and a range.
    pub fn new(name: &str, range: &str) -> (r: Self)
        ensures
            r@ == (name@, range@),
    {
        Descriptor { name: String::from_str(name), range: String::from_str(range) }
    }

    /// Exact equality of both strings.
    pub fn same(&self, other: &Descriptor) -> (r: bool)
        ensures
            r == (self@ == other@),
    {
        self.name == other.name && self.range == other.range
    }
}

/// The values of a list of descriptors.
pub open spec fn keys_of(ds: Seq<Descriptor>) -> Seq<Key> {
    Seq::new(ds.len(), |i: int| ds[i]@)
}

/// Copies a list of descriptors.
pub fn clone_descriptors(ds: &Vec<Descriptor>) -> (r: Vec<Descriptor>)
    ensures
        keys_of(r@) == keys_of(ds@),
{
    let mut out: Vec<Descriptor> = Vec::new();
    let mut i: usize = 0;
    while i < ds.len()
        invariant
            i <= ds.len(),
            out.len() == i,
            forall|k: int| 0 <= k < i ==> out[k]@ == ds[k]@,
        decreases ds.len() - i,
    {
        out.push(ds[i].clone());
        i = i + 1;
    }
    out
}

/// The mathematical value of an entry.
pub struct EntryView {
    pub name: Seq<char>,
    pub version: Seq<char>,
    pub descriptors: Seq<Key>,
    pub dependencies: Seq<Key>,
}

/// One resolved package: its name, the version installed, the descriptors
/// that resolve to it and the descriptors it depends on.
#[derive(Debug, PartialEq, Eq)]
pub struct Entry {
    pub name: String,
    pub version: String,
    pub descriptors: Vec<Descriptor>,
    pub dependencies: Vec<Descriptor>,
}

impl View for Entry {
    type V = EntryView;

    open spec fn view(&self) -> EntryView {
        EntryView {
            name: self.name@,
            version: self.version@,
            descriptors: keys_of(self.descriptors@),
            dependencies: keys_of(self.dependencies@),
        }
    }
}

impl Clone for Entry {
    fn clone(&self) -> (r: Self)
        ensures
            r@ == self@,
    {
        Entry {
            name: self.name.clone(),
            version: self.version.clone(),
            descriptors: clone_descriptors(&self.descriptors),
            dependencies: clone_descriptors(&self.dependencies),
        }
    }
}

/// The values of a list of entries.
pub open spec fn entries_of(es: Seq<Entry>) -> Seq<EntryView> {
    Seq::new(es.len(), |i: int| es[i]@)
}

} // verus!
