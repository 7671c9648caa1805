//! Going through the entries of a container in the order of their ids.

use vstd::prelude::*;
use crate::entry::Entry;
use crate::ole::Reader;

verus! {

/// What an iterator over `entries` hands out when it has handed out
/// `position` entries before: the entry at that position, or nothing once
/// all entries were handed out.
pub open spec fn handed_out(entries: Seq<Entry>, position: nat) -> Option<Entry> {
    if position < entries.len() {
        Some(entries[position as int])
    } else {
        None
    }
}

/// How many entries an iterator over `len` entries has handed out after
/// `calls` calls of `next`, when it had handed out `position` before them.
pub open spec fn position_after(len: nat, position: nat, calls: nat) -> nat
    decreases calls,
{
    if calls == 0 {
        position
    } else if position_after(len, position, (calls - 1) as nat) < len {
        position_after(len, position, (calls - 1) as nat) + 1
    } else {
        position_after(len, position, (calls - 1) as nat)
    }
}

/// A new iterator hands out the entries in the order of their positions,
/// each of them once, and nothing after the last: the call of `next` that
/// follows `calls` earlier ones hands out the entry at position `calls`
/// where there is one, else nothing.
pub proof fn lemma_iteration_yields_all(entries: Seq<Entry>, calls: nat)
    ensures
        position_after(entries.len(), 0, calls) == if calls <= entries.len() {
            calls
        } else {
            entries.len()
        },
        handed_out(entries, position_after(entries.len(), 0, calls)) == if calls < entries.len() {
            Some(entries[calls as int])
        } else {
            None
        },
    decreases calls,
{
    if calls > 0 {
        lemma_iteration_yields_all(entries, (calls - 1) as nat);
    }
}


/// Iterator for entries inside an OLE file.
#[derive(Debug)]
pub struct OLEIterator<'a> {
    ole: &'a Reader,
    curr: usize,
}

impl<'a> OLEIterator<'a> {
    /// The reader whose entries the iterator goes through.
    pub closed spec fn reader(&self) -> &'a Reader {
        self.ole
    }

    /// How many entries the iterator has handed out.
    pub closed spec fn position(&self) -> nat {
        self.curr as nat
    }

    /// An iterator before the first entry of `ole`.
    pub(crate) fn new(ole: &'a Reader) -> (iter: OLEIterator<'a>)
        ensures
            iter.reader() == ole,
            iter.position() == 0,
    {
        OLEIterator { ole, curr: 0 }
    }

    /// Hands out the next entry: the one whose id is the number of entries
    /// handed out before. None once all entries were handed out.
    pub fn next(&mut self) -> (r: Option<&'a Entry>)
        ensures
            final(self).reader() == old(self).reader(),
            final(self).position() == position_after(
                old(self).reader().spec_entries().len(),
                old(self).position(),
                1,
            ),
            match r {
                Some(entry) => handed_out(old(self).reader().spec_entries(), old(self).position())
                    == Some(*entry),
                None => handed_out(old(self).reader().spec_entries(), old(self).position())
                    is None,
            },
    {
        proof {
            reveal_with_fuel(position_after, 2);
        }
        let entries = self.ole.entries();
        if self.curr < entries.len() {
            let entry = &entries[self.curr];
            self.curr = self.curr + 1;
            Some(entry)
        } else {
            None
        }
    }
}

} // verus!
