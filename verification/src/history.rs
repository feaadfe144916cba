use vstd::prelude::*;
use std::collections::VecDeque;
use crate::metrics::SnapshotRecord;

verus! {

/// How many snapshot records the history keeps (one day at one record every five minutes).
pub const HISTORY_MAX: usize = 288;

/// The rolling history of snapshot records, oldest first, never longer than `HISTORY_MAX`.
pub struct History {
    records: VecDeque<SnapshotRecord>,
}

impl View for History {
    type V = Seq<SnapshotRecord>;

    closed spec fn view(&self) -> Seq<SnapshotRecord> {
        self.records@
    }
}

impl History {
    #[verifier::type_invariant]
    spec fn bounded(self) -> bool {
        self.records@.len() <= HISTORY_MAX
    }

    /// An empty history.
    pub fn new() -> (h: History)
        ensures
            h@.len() == 0,
    {
        History { records: VecDeque::new() }
    }

    /// The number of records kept.
    pub fn len(&self) -> (n: usize)
        ensures
            n == self@.len(),
            n <= HISTORY_MAX,
    {
        proof {
            use_type_invariant(self);
        }
        self.records.len()
    }

    /// The record at position `i`, oldest first.
    pub fn get(&self, i: usize) -> (r: &SnapshotRecord)
        requires
            i < self@.len(),
        ensures
            *r == self@[i as int],
    {
        &self.records[i]
    }

    /// Appends a record; where the history is full, the oldest record goes first.
    pub fn push_record(&mut self, record: SnapshotRecord)
        ensures
            final(self)@ == if old(self)@.len() >= HISTORY_MAX {
                old(self)@.drop_first().push(record)
            } else {
                old(self)@.push(record)
            },
            final(self)@.len() <= HISTORY_MAX,
    {
        proof {
            use_type_invariant(&*self);
        }
        let mut records = VecDeque::new();
        std::mem::swap(&mut records, &mut self.records);
        if records.len() >= HISTORY_MAX {
            records.pop_front();
        }
        records.push_back(record);
        std::mem::swap(&mut records, &mut self.records);
    }
}

} // verus!
