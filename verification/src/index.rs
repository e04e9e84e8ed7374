//! An arena of descriptors, each held once and found again through a hash map.
//!
//! The map is `fxhash`'s `FxHashMap`, keyed by the two strings of a descriptor.
//! Verus does not look inside it: what it holds is named by `index_entries`,
//! and the three functions below state what `new`, `get` and `insert` do to it.

use crate::model::{keys_of, Descriptor, Key};
use fxhash::{FxHashMap, FxHasher};
use std::hash::BuildHasherDefault;
use vstd::prelude::*;
use vstd::string::*;

verus! {

/// The hasher of `fxhash`. Nothing is said of what is inside it.
#[verifier::external_type_specification]
#[verifier::external_body]
pub struct ExFxHasher(FxHasher);

/// `std::hash::BuildHasherDefault`, which makes a hasher by its default.
/// Nothing is said of what is inside it.
#[verifier::external_type_specification]
#[verifier::external_body]
#[verifier::reject_recursive_types(H)]
pub struct ExBuildHasherDefault<H>(BuildHasherDefault<H>);

/// `fxhash::FxHashMap` from a descriptor's two strings to a position.
pub type Slots = FxHashMap<(String, String), usize>;

/// The keys that the map holds, each by the characters of its two strings,
/// with the position stored under it.
pub uninterp spec fn index_entries(m: Slots) -> Map<(Seq<char>, Seq<char>), usize>;

/// The map without any key.
pub open spec fn no_entries() -> Map<(Seq<char>, Seq<char>), usize> {
    Map::empty()
}

/// What `get` returns for the key `k` on a map that holds `entries`.
pub open spec fn entry_at(
    entries: Map<(Seq<char>, Seq<char>), usize>,
    k: (Seq<char>, Seq<char>),
) -> Option<usize> {
    if entries.contains_key(k) {
        Some(entries[k])
    } else {
        None
    }
}

/// `FxHashMap::default()`: a new map holds no key.
#[verifier::external_body]
fn slots_new() -> (m: Slots)
    ensures
        index_entries(m) == no_entries(),
{
    FxHashMap::default()
}

/// `HashMap::get` with the hasher of `fxhash`: the position stored under the
/// two strings, or `None` where the map has no such key. Keys are equal when
/// both strings are.
#[verifier::external_body]
fn slots_get(m: &Slots, name: &String, range: &String) -> (r: Option<usize>)
    ensures
        r == entry_at(index_entries(*m), (name@, range@)),
{
    m.get(&(name.clone(), range.clone())).copied()
}

/// `HashMap::insert` with the hasher of `fxhash`: afterwards the map holds
/// `id` under the two strings, and every other key as before.
#[verifier::external_body]
fn slots_insert(m: &mut Slots, name: String, range: String, id: usize)
    ensures
        index_entries(*final(m)) == index_entries(*old(m)).insert((name@, range@), id),
{
    m.insert((name, range), id);
}

/// Whether no descriptor stands at two positions.
pub open spec fn distinct(s: Seq<Key>) -> bool {
    forall|i: int, j: int| 0 <= i < j < s.len() ==> s[i] != s[j]
}

/// The position of a descriptor that `s` holds.
pub open spec fn position(s: Seq<Key>, d: Key) -> int {
    choose|i: int| 0 <= i < s.len() && s[i] == d
}

/// Where nothing occurs twice, a descriptor is found at its own position.
pub proof fn lemma_position(s: Seq<Key>, i: int)
    requires
        distinct(s),
        0 <= i < s.len(),
    ensures
        s.contains(s[i]),
        position(s, s[i]) == i,
{
}

/// One more descriptor at the end of a list that did not hold it.
pub proof fn lemma_position_push(s: Seq<Key>, d: Key, q: Key)
    requires
        distinct(s),
        !s.contains(d),
    ensures
        distinct(s.push(d)),
        s.push(d).contains(q) == (s.contains(q) || q == d),
        s.contains(q) ==> position(s.push(d), q) == position(s, q),
        position(s.push(d), d) == s.len(),
{
    let t = s.push(d);
    lemma_position(t, s.len() as int);
    if s.contains(q) {
        let i = position(s, q);
        lemma_position(t, i);
    } else if t.contains(q) {
    }
}

/// The descriptors seen so far, each once, in the order in which they came.
pub struct Interner {
    items: Vec<Descriptor>,
    slots: Slots,
}

impl View for Interner {
    type V = Seq<Key>;

    closed spec fn view(&self) -> Seq<Key> {
        keys_of(self.items@)
    }
}

impl Interner {
    /// The hash map finds each descriptor at its position, and nothing else.
    pub closed spec fn wf(&self) -> bool {
        &&& forall|k: Key| #[trigger]
            index_entries(self.slots).contains_key(k) ==> index_entries(self.slots)[k]
                < self.items.len() && self.items[index_entries(self.slots)[k] as int]@ == k
        &&& forall|i: int|
            0 <= i < self.items.len() ==> index_entries(self.slots).contains_key(
                #[trigger] self.items[i]@,
            ) && index_entries(self.slots)[self.items[i]@] == i
    }

    /// An arena holds no more than a machine can count.
    pub proof fn lemma_bounded(&self)
        ensures
            self@.len() <= usize::MAX,
    {
        assert(self@.len() == self.items.len());
    }

    /// An arena that holds nothing.
    pub fn new() -> (r: Interner)
        ensures
            r.wf(),
            r@.len() == 0,
    {
        Interner { items: Vec::new(), slots: slots_new() }
    }

    /// How many descriptors the arena holds.
    pub fn len(&self) -> (n: usize)
        ensures
            n == self@.len(),
    {
        self.items.len()
    }

    /// The descriptor at position `i`.
    pub fn get(&self, i: usize) -> (d: &Descriptor)
        requires
            i < self@.len(),
        ensures
            d@ == self@[i as int],
    {
        &self.items[i]
    }

    /// The position of `d`, where the arena holds it.
    pub fn lookup(&self, d: &Descriptor) -> (r: Option<usize>)
        requires
            self.wf(),
        ensures
            match r {
                Some(i) => i < self@.len() && self@[i as int] == d@ && i == position(self@, d@),
                None => !self@.contains(d@),
            },
    {
        let r = slots_get(&self.slots, &d.name, &d.range);
        proof {
            if let Some(i) = r {
                lemma_position(self@, i as int);
            }
        }
        r
    }

    /// Adds a descriptor that the arena does not hold yet, at the end.
    pub fn push(&mut self, d: Descriptor) -> (id: usize)
        requires
            old(self).wf(),
            !old(self)@.contains(d@),
        ensures
            final(self).wf(),
            final(self)@ == old(self)@.push(d@),
            id == old(self)@.len(),
    {
        let id: usize = self.items.len();
        let ghost s0 = self@;
        slots_insert(&mut self.slots, d.name.clone(), d.range.clone(), id);
        self.items.push(d);
        proof {
            assert forall|i: int| 0 <= i < self.items.len() implies index_entries(
                self.slots,
            ).contains_key(#[trigger] self.items[i]@) && index_entries(
                self.slots,
            )[self.items[i]@] == i by {
                if i < id {
                    assert(s0[i] == self.items[i]@);
                }
            }
        }
        id
    }
}

} // verus!
