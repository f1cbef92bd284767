//! A job's timetable: its offsets, sorted, with a cursor that walks them round
//! and round.

use crate::cycle::{
    due_in, first_due, first_due_from, is_ascending, lemma_ascending_keeps_sorted,
    lemma_ascending_unique, lemma_passed_stand_first, normalized, Cycle,
};
use crate::offset::seconds_till_next_offset;
use vstd::prelude::*;

verus! {

/// The offsets of one job, sorted, with a cursor on the one that comes due
/// next.
pub struct Timetable {
    offsets: Vec<u8>,
    cursor: usize,
}

impl View for Timetable {
    type V = Cycle;

    closed spec fn view(&self) -> Cycle {
        Cycle { offsets: self.offsets@, next: self.cursor as int }
    }
}

/// `sort_unstable` of std's slices, on a vector of offsets: afterwards the
/// vector holds the same offsets, each as often as before, in ascending order.
#[verifier::external_body]
fn sort_offsets(offsets: &mut Vec<u8>)
    ensures
        is_ascending(final(offsets)@),
        final(offsets)@.to_multiset() == old(offsets)@.to_multiset(),
{
    offsets.sort_unstable();
}

impl Timetable {
    #[verifier::type_invariant]
    spec fn well_formed(self) -> bool {
        self@.wf()
    }

    /// Sorts `offsets` and skips those which have already passed in the
    /// current period, where `now` is the current position in it. Offsets
    /// that are sorted already keep their order.
    pub fn normalize(offsets: Vec<u8>, now: u8) -> (timetable: Timetable)
        ensures
            timetable@ == normalized(offsets@, now),
            timetable@.wf(),
            is_ascending(offsets@) ==> timetable@.offsets == offsets@,
    {
        let ghost given = offsets@;
        let mut offsets = offsets;
        sort_offsets(&mut offsets);
        proof {
            lemma_ascending_unique(given, offsets@);
            lemma_passed_stand_first(offsets@, now);
            if is_ascending(given) {
                lemma_ascending_keeps_sorted(given);
            }
        }
        let mut cursor: usize = 0;
        while cursor < offsets.len() && offsets[cursor] < now
            invariant
                cursor <= offsets.len(),
                first_due(offsets@, now) == first_due_from(offsets@, now, cursor as int),
            decreases offsets.len() - cursor,
        {
            cursor += 1;
        }
        if cursor == offsets.len() {
            cursor = 0;
        }
        Timetable { offsets, cursor }
    }

    /// The offsets of the job in ascending order.
    pub fn offsets(&self) -> (offsets: &Vec<u8>)
        ensures
            offsets@ == self@.offsets,
    {
        &self.offsets
    }

    /// Whether the job has no offset at all, and so never comes due.
    pub fn is_empty(&self) -> (empty: bool)
        ensures
            empty == (self@.offsets.len() == 0),
    {
        self.offsets.len() == 0
    }

    /// Hands out the offset that comes due next and moves on to the one after
    /// it, starting over after the last.
    pub fn next_offset(&mut self) -> (offset: Option<u8>)
        ensures
            offset == old(self)@.head(),
            final(self)@ == old(self)@.advance(),
            final(self)@.wf(),
    {
        proof {
            use_type_invariant(&*self);
        }
        if self.offsets.len() == 0 {
            return None;
        }
        let offset = self.offsets[self.cursor];
        if self.cursor + 1 == self.offsets.len() {
            self.cursor = 0;
        } else {
            self.cursor = self.cursor + 1;
        }
        Some(offset)
    }

    /// The seconds to wait at position `now` for the offset that comes due
    /// next, which is handed out as by `next_offset`.
    pub fn next_wait(&mut self, now: u8) -> (wait: Option<u8>)
        ensures
            wait == due_in(old(self)@.head(), now),
            final(self)@ == old(self)@.advance(),
            final(self)@.wf(),
    {
        match self.next_offset() {
            Some(offset) => Some(seconds_till_next_offset(now, offset)),
            None => None,
        }
    }
}

} // verus!
