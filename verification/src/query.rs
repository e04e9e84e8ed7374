//! From what the user asks for to the descriptors that the walks start from.

use crate::model::{entries_of, keys_of, Descriptor, Entry, EntryView, Key};
use vstd::prelude::*;
use vstd::string::*;

verus! {

/// The mathematical value of a query.
pub struct QueryView {
    pub name: Seq<char>,
    pub range: Option<Seq<char>>,
}

/// What the user asks for: a package by its name alone, or a package under
/// one range.
#[derive(Debug, PartialEq, Eq)]
pub struct Query {
    pub name: String,
    pub range: Option<String>,
}

impl View for Query {
    type V = QueryView;

    open spec fn view(&self) -> QueryView {
        QueryView {
            name: self.name@,
            range: match self.range {
                Some(r) => Some(r@),
                None => None,
            },
        }
    }
}

/// The position of the first `@` after the first character; the length of
/// the token where there is none. A leading `@` belongs to a scoped name.
pub open spec fn range_mark(token: Seq<char>, from: int) -> int
    decreases token.len() - from,
{
    if from >= token.len() {
        token.len() as int
    } else if from >= 1 && token[from] == '@' {
        from
    } else {
        range_mark(token, from + 1)
    }
}

/// The query that a token stands for: `name@range` asks for one range, a
/// name alone for the package.
pub open spec fn query_of(token: Seq<char>) -> QueryView {
    let at = range_mark(token, 0);
    if at < token.len() {
        QueryView {
            name: token.subrange(0, at),
            range: Some(token.subrange(at + 1, token.len() as int)),
        }
    } else {
        QueryView { name: token, range: None }
    }
}

/// Reads a token of the form `name` or `name@range`.
pub fn parse_query(token: &str) -> (q: Query)
    ensures
        q@ == query_of(token@),
{
    let n: usize = token.unicode_len();
    let mut i: usize = 0;
    while i < n
        invariant
            i <= n,
            n == token@.len(),
            range_mark(token@, 0) == range_mark(token@, i as int),
        decreases n - i,
    {
        if i >= 1 && token.get_char(i) == '@' {
            return Query {
                name: String::from_str(token.substring_char(0, i)),
                range: Some(String::from_str(token.substring_char(i + 1, n))),
            };
        }
        i = i + 1;
    }
    Query { name: String::from_str(token), range: None }
}

/// The descriptors of the first `n` entries that carry the name.
pub open spec fn named(es: Seq<EntryView>, name: Seq<char>, n: int) -> Seq<Key>
    decreases n,
{
    if n <= 0 {
        Seq::empty()
    } else if es[n - 1].name == name {
        named(es, name, n - 1) + es[n - 1].descriptors
    } else {
        named(es, name, n - 1)
    }
}

/// The descriptors that a query stands for: with a range, the one descriptor
/// of that name and range, whether the entries have it or not; without, every
/// descriptor of every entry of that name, in the order of the entries.
pub open spec fn query_descriptors(es: Seq<EntryView>, q: QueryView) -> Seq<Key> {
    match q.range {
        Some(r) => seq![(q.name, r)],
        None => named(es, q.name, es.len() as int),
    }
}

/// The descriptors from which the walks for `query` start.
pub fn resolve_query(query: &Query, entries: &Vec<Entry>) -> (out: Vec<Descriptor>)
    ensures
        keys_of(out@) == query_descriptors(entries_of(entries@), query@),
{
    let ghost es = entries_of(entries@);
    let mut out: Vec<Descriptor> = Vec::new();
    match &query.range {
        Some(r) => {
            out.push(Descriptor { name: query.name.clone(), range: r.clone() });
        },
        None => {
            let mut i: usize = 0;
            while i < entries.len()
                invariant
                    i <= entries.len(),
                    es == entries_of(entries@),
                    keys_of(out@) == named(es, query.name@, i as int),
                decreases entries.len() - i,
            {
                let e = &entries[i];
                if e.name == query.name {
                    let ghost start = keys_of(out@);
                    let mut k: usize = 0;
                    while k < e.descriptors.len()
                        invariant
                            k <= e.descriptors.len(),
                            keys_of(out@) == start + keys_of(e.descriptors@).subrange(0, k as int),
                        decreases e.descriptors.len() - k,
                    {
                        let ghost before = out@;
                        let ghost own = e.descriptors[k as int]@;
                        out.push(e.descriptors[k].clone());
                        assert(keys_of(out@) =~= keys_of(before).push(own));
                        k = k + 1;
                    }
                }
                i = i + 1;
            }
        },
    }
    out
}

} // verus!
