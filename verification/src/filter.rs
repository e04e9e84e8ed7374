//! The version filter: of the queried package only the entries stay whose
//! version meets a requirement.
//!
//! Requirements and versions are parsed and compared by the crate `semver`.
//! What it decides is named here, and stated of the three calls below.

use crate::model::{entries_of, Entry, EntryView};
use crate::text::same_text;
use semver::{Version, VersionReq};
use vstd::prelude::*;
use vstd::string::*;

verus! {

/// Whether `semver::VersionReq::parse` accepts the text.
pub uninterp spec fn is_requirement(text: Seq<char>) -> bool;

/// Whether `semver::Version::parse` accepts the text.
pub uninterp spec fn is_version(text: Seq<char>) -> bool;

/// Whether the requirement that `requirement` parses to matches the version
/// that `version` parses to, by `semver::VersionReq::matches`.
pub uninterp spec fn admits(requirement: Seq<char>, version: Seq<char>) -> bool;

/// `semver::VersionReq::parse`: whether the text is a requirement.
#[verifier::external_body]
fn requirement_parses(text: &str) -> (b: bool)
    ensures
        b == is_requirement(text@),
{
    VersionReq::parse(text).is_ok()
}

/// `semver::Version::parse`: whether the text is a version.
#[verifier::external_body]
fn version_parses(text: &str) -> (b: bool)
    ensures
        b == is_version(text@),
{
    Version::parse(text).is_ok()
}

/// `semver::VersionReq::matches` on what the two texts parse to.
#[verifier::external_body]
fn requirement_matches(requirement: &str, version: &str) -> (b: bool)
    requires
        is_requirement(requirement@),
        is_version(version@),
    ensures
        b == admits(requirement@, version@),
{
    VersionReq::parse(requirement).unwrap().matches(&Version::parse(version).unwrap())
}

/// Whether an entry stays: one of another package does; one of the queried
/// package does if its version cannot be read, or meets the requirement.
pub open spec fn passes(e: EntryView, name: Seq<char>, requirement: Seq<char>) -> bool {
    e.name != name || !is_version(e.version) || admits(requirement, e.version)
}

/// Of the first `n` entries, those that stay.
pub open spec fn filtered(es: Seq<EntryView>, name: Seq<char>, requirement: Seq<char>, n: int) -> Seq<
    EntryView,
>
    decreases n,
{
    if n <= 0 {
        Seq::empty()
    } else if passes(es[n - 1], name, requirement) {
        filtered(es, name, requirement, n - 1).push(es[n - 1])
    } else {
        filtered(es, name, requirement, n - 1)
    }
}

/// Whether the text is a requirement that versions can be held against.
pub fn valid_requirement(text: &str) -> (b: bool)
    ensures
        b == is_requirement(text@),
{
    requirement_parses(text)
}

/// Whether the entry stays under the requirement on the package `name`.
pub fn entry_passes(e: &Entry, name: &str, requirement: &str) -> (b: bool)
    requires
        is_requirement(requirement@),
    ensures
        b == passes(e@, name@, requirement@),
{
    if !same_text(e.name.as_str(), name) {
        return true;
    }
    if !version_parses(e.version.as_str()) {
        return true;
    }
    requirement_matches(requirement, e.version.as_str())
}

/// The entries that stay when the versions of the package `name` are held
/// against `requirement`. `None` where `requirement` is no requirement.
pub fn filter_entries(entries: &Vec<Entry>, name: &str, requirement: &str) -> (out: Option<
    Vec<Entry>,
>)
    ensures
        out is Some == is_requirement(requirement@),
        out is Some ==> entries_of(out->0@) == filtered(
            entries_of(entries@),
            name@,
            requirement@,
            entries.len() as int,
        ),
{
    if !requirement_parses(requirement) {
        return None;
    }
    let ghost es = entries_of(entries@);
    let mut out: Vec<Entry> = Vec::new();
    let mut i: usize = 0;
    while i < entries.len()
        invariant
            i <= entries.len(),
            es == entries_of(entries@),
            is_requirement(requirement@),
            entries_of(out@) == filtered(es, name@, requirement@, i as int),
        decreases entries.len() - i,
    {
        let e = &entries[i];
        if entry_passes(e, name, requirement) {
            out.push(e.clone());
        }
        i = i + 1;
    }
    Some(out)
}

} // verus!
