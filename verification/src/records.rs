//! The entries as flat records, one for each descriptor.

use crate::model::{entries_of, Entry, EntryView};
use vstd::prelude::*;
use vstd::string::*;

verus! {

/// One descriptor of an entry: the name and the version of the entry, and the
/// range of the descriptor.
#[derive(Debug, PartialEq, Eq, Clone, Copy)]
pub struct Records<'a> {
    pub name: &'a str,
    pub version: &'a str,
    pub descriptor: &'a str,
}

/// The mathematical value of a record.
pub struct RecordView {
    pub name: Seq<char>,
    pub version: Seq<char>,
    pub descriptor: Seq<char>,
}

impl<'a> View for Records<'a> {
    type V = RecordView;

    open spec fn view(&self) -> RecordView {
        RecordView { name: self.name@, version: self.version@, descriptor: self.descriptor@ }
    }
}

/// The records of one entry, in the order of its descriptors.
pub open spec fn entry_records(e: EntryView) -> Seq<RecordView> {
    Seq::new(
        e.descriptors.len(),
        |k: int| RecordView { name: e.name, version: e.version, descriptor: e.descriptors[k].1 },
    )
}

/// The records of the first `n` entries.
pub open spec fn flat_records(es: Seq<EntryView>, n: int) -> Seq<RecordView>
    decreases n,
{
    if n <= 0 {
        Seq::empty()
    } else {
        flat_records(es, n - 1) + entry_records(es[n - 1])
    }
}

/// The values of a list of records.
pub open spec fn records_of(rs: Seq<Records>) -> Seq<RecordView> {
    Seq::new(rs.len(), |i: int| rs[i]@)
}

/// A record for every descriptor of every entry, in the order of the entries.
pub fn iter_flat_dependencies<'a>(entries: &'a [Entry]) -> (out: Vec<Records<'a>>)
    ensures
        records_of(out@) == flat_records(entries_of(entries@), entries@.len() as int),
{
    let ghost es = entries_of(entries@);
    let mut out: Vec<Records<'a>> = Vec::new();
    let mut i: usize = 0;
    while i < entries.len()
        invariant
            i <= entries.len(),
            es == entries_of(entries@),
            records_of(out@) == flat_records(es, i as int),
        decreases entries.len() - i,
    {
        let e = &entries[i];
        let ghost start = records_of(out@);
        let mut k: usize = 0;
        while k < e.descriptors.len()
            invariant
                k <= e.descriptors.len(),
                records_of(out@) == start + entry_records(e@).subrange(0, k as int),
            decreases e.descriptors.len() - k,
        {
            let ghost before = out@;
            let record = Records {
                name: e.name.as_str(),
                version: e.version.as_str(),
                descriptor: e.descriptors[k].range.as_str(),
            };
            out.push(record);
            proof {
                assert(records_of(out@) =~= records_of(before).push(record@));
            }
            k = k + 1;
        }
        i = i + 1;
    }
    out
}

} // verus!
