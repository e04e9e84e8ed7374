//! The entries of a lockfile, as the crate `yarn_lock_parser` reads them.

use crate::model::{entries_of, Descriptor, Entry, EntryView};
use vstd::prelude::*;
use vstd::string::*;

verus! {

/// What `yarn_lock_parser::parse_str` reads from a lockfile with the
/// characters `text`: its entries, each with its name, its version, its
/// descriptors and its dependencies; `None` where it reports an error.
pub uninterp spec fn lockfile_entries(text: Seq<char>) -> Option<Seq<EntryView>>;

/// `yarn_lock_parser::parse_str`: the entries of the lockfile, in its order,
/// the four fields of each copied as they are; `None` for its error.
#[verifier::external_body]
fn read_entries(text: &str) -> (r: Option<Vec<Entry>>)
    ensures
        r is Some == lockfile_entries(text@) is Some,
        r is Some ==> entries_of(r->0@) == lockfile_entries(text@)->0,
{
    let entries = yarn_lock_parser::parse_str(text).ok()?;
    let pairs = |v: &Vec<(&str, &str)>| v.iter().map(|d| Descriptor::new(d.0, d.1)).collect();
    let entry = |e: &yarn_lock_parser::Entry| Entry {
        name: e.name.to_string(),
        version: e.version.to_string(),
        descriptors: pairs(&e.descriptors),
        dependencies: pairs(&e.dependencies),
    };
    Some(entries.iter().map(entry).collect())
}

/// The entries of a lockfile; `None` where the text is no lockfile.
pub fn parse_lockfile(text: &str) -> (r: Option<Vec<Entry>>)
    ensures
        r is Some == lockfile_entries(text@) is Some,
        r is Some ==> entries_of(r->0@) == lockfile_entries(text@)->0,
{
    read_entries(text)
}

} // verus!
