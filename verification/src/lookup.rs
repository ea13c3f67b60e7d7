//! Finding entries by timestamp: lemmas.
use vstd::prelude::*;

use crate::distributed::{Author, Timestamp};
use crate::model::Model;

verus! {

impl<A: Author, T> Model<A, T> {
    /// A search that finds an entry finds one in the log, at or after the
    /// start of the search, that carries the timestamp; a search that
    /// finds nothing has passed no entry with the timestamp.
    pub proof fn lemma_first_with_timestamp(self, timestamp: Timestamp<A>, from: int)
        requires
            0 <= from,
        ensures
            match self.first_with_timestamp(timestamp, from) {
                Some(found) => from <= found < self.len() && self.timestamp(found)
                    == timestamp && forall|i: int|
                    from <= i < found ==> #[trigger] self.timestamp(i) != timestamp,
                None => forall|i: int|
                    from <= i < self.len() ==> #[trigger] self.timestamp(i) != timestamp,
            },
        decreases self.len() - from,
    {
        if from >= self.len() {
        } else if self.timestamp(from) == timestamp {
        } else {
            self.lemma_first_with_timestamp(timestamp, from + 1);
        }
    }

    /// The index of a timestamp is never beyond the log index of its
    /// entry.
    pub proof fn lemma_timestamp_behind(self, i: int)
        requires
            self.wf(),
            0 <= i < self.len(),
        ensures
            self.timestamp(i).idx.0 <= i,
    {
        assert(self.entry_ok(i));
    }

    /// A timestamp that the search does not find is on no entry of the
    /// log.
    pub proof fn lemma_log_index_none(self, timestamp: Timestamp<A>)
        requires
            self.wf(),
            self.log_index(timestamp).is_none(),
        ensures
            forall|i: int| 0 <= i < self.len() ==> #[trigger] self.timestamp(i) != timestamp,
    {
        self.lemma_first_with_timestamp(timestamp, timestamp.idx.0 as int);
        assert forall|i: int| 0 <= i < self.len() implies #[trigger] self.timestamp(i)
            != timestamp by {
            self.lemma_timestamp_behind(i);
        }
    }

    /// A timestamp that the search finds is on the entry found, which is
    /// in the log.
    pub proof fn lemma_log_index_some(self, timestamp: Timestamp<A>)
        requires
            self.log_index(timestamp).is_some(),
        ensures
            0 <= self.log_index(timestamp).unwrap() < self.len(),
            self.timestamp(self.log_index(timestamp).unwrap()) == timestamp,
    {
        self.lemma_first_with_timestamp(timestamp, timestamp.idx.0 as int);
    }

    /// The search for the timestamp of an entry finds that entry.
    pub proof fn lemma_log_index_of_timestamp(self, i: int)
        requires
            self.wf(),
            0 <= i < self.len(),
        ensures
            self.log_index(self.timestamp(i)) == Some(i),
    {
        let timestamp = self.timestamp(i);
        self.lemma_timestamp_behind(i);
        self.lemma_first_with_timestamp(timestamp, timestamp.idx.0 as int);
        match self.log_index(timestamp) {
            Some(found) => {
                if found < i {
                    assert(self.timestamp(found) != self.timestamp(i));
                } else if found > i {
                    assert(self.timestamp(i) != timestamp);
                }
            },
            None => {
                assert(self.timestamp(i) != timestamp);
            },
        }
    }
}

} // verus!
