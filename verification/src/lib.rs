//! A conflict-free replicated data type for versioned sequences.
//!
//! A [`Chronofold`] keeps an append-only log of changes together with four
//! secondary streams (successor, reference, author, index shift) that are
//! packed into one sorted map. Replicas exchange [`Op`]s and weave them into
//! their own logs; the causal order of a replica is the chain of successors
//! that starts at its root.
//!
//! Every executable function carries a contract over the mathematical model
//! in [`model::Model`]: the log as a sequence, the packed map as a map and the
//! version as a map from authors to their highest index.
//!
//! # Modules
//!
//! The executable code:
//! - [`index`], [`change`], [`distributed`], [`error`]: indices, changes,
//!   timestamps, ops and errors;
//! - [`costructures`], [`offsetmap`], [`version`]: the packed streams, the
//!   sparse offset map and the vector clock;
//! - [`internal`]: where a change goes and how it is recorded;
//! - [`iter`], [`session`], [`fmt`]: walks, editing sessions and text.
//!
//! The model and what is proved of it:
//! - [`model`]: the model, its invariant and what applying does to it;
//! - [`packing`], [`growth`], [`weave`], [`placement`], [`lookup`],
//!   [`visibility`]: that applying keeps the invariant;
//! - [`laws`]: idempotence, the append-only log, the causal walk, the
//!   correspondence of timestamps and log indices, compactness, and the
//!   version;
//! - [`order`], [`paths`], [`canonical`], [`shown`], [`convergence`]: that
//!   replicas converge that hold the same ops, where nothing refers to a
//!   tombstone.
use vstd::prelude::*;

pub mod canonical;
pub mod change;
pub mod convergence;
pub mod costructures;
pub mod distributed;
pub mod error;
pub mod fmt;
pub mod growth;
pub mod index;
pub mod internal;
pub mod iter;
pub mod laws;
pub mod lookup;
pub mod model;
pub mod offsetmap;
pub mod order;
pub mod packing;
pub mod paths;
pub mod placement;
pub mod session;
pub mod shown;
pub mod version;
pub mod visibility;
pub mod weave;

pub use crate::change::Change;
pub use crate::costructures::Costructures;
pub use crate::distributed::{Author, FromLocalValue, IntoLocalValue, Op, OpPayload, Timestamp};
pub use crate::error::ChronofoldError;
pub use crate::index::{
    AuthorIndex, IndexShift, LocalIndex, LogIndex, Offset, RelativeNextIndex, RelativeReference,
};
pub use crate::iter::{skip_while, CausalIter, Iter, Ops};
pub use crate::model::{Bound, IndexRange, Model, Verdict};
pub use crate::offsetmap::OffsetMap;
pub use crate::session::Session;
pub use crate::version::Version;

use crate::model::position;

verus! {

/// A conflict-free replicated data structure for versioned sequences.
///
/// A chronofold can be seen as a log of changes or as a sequence of
/// elements. A *log index* is a position in the log; it never changes, but
/// it means something on this replica only. An *element* is a value that
/// was inserted and not deleted since. *Log order* is the order in which
/// this replica appended the changes; *causal order* is the order of the
/// sequence.
#[derive(PartialEq, Eq, Clone, Debug)]
pub struct Chronofold<A: Author, T> {
    pub(crate) log: Vec<Change<T>>,
    pub(crate) root: LocalIndex,
    pub(crate) version: Version<A>,
    pub(crate) costructures: Costructures<A>,
}

impl<A: Author, T> Chronofold<A, T> {
    /// What this replica stores.
    pub open(crate) spec fn view(&self) -> Model<A, T> {
        Model { log: self.log@, packed: self.costructures@, version: self.version@ }
    }

    /// The invariant of a chronofold: that of its model, and a primary
    /// root at index zero.
    pub open(crate) spec fn wf(&self) -> bool {
        self@.wf() && self.root == LocalIndex(0)
    }

    /// Constructs a new, empty chronofold.
    pub fn new(author: A) -> (r: Self)
        ensures
            r.wf(),
            r@ == Model::<A, T>::initial(author),
    {
        let root_idx = LocalIndex(0);
        let mut version = Version::default();
        version.inc(&Timestamp::new(AuthorIndex(0), author));
        let mut costructures = Costructures::new();
        costructures.set_next_index(root_idx, None);
        costructures.set_author(root_idx, author);
        costructures.set_index_shift(root_idx, IndexShift(0));
        costructures.set_reference(root_idx, None);
        let mut log = Vec::new();
        log.push(Change::Root);
        proof {
            Model::<A, T>::lemma_initial_wf(author);
            assert(log@ =~= seq![Change::<T>::Root]);
        }
        Self { log, root: LocalIndex(0), version, costructures }
    }

    pub(crate) fn get_next_index(&self, index: &LocalIndex) -> (r: Option<LocalIndex>)
        requires
            index.0 < costructures::INDEX_LIMIT,
        ensures
            position(r) == self@.next(index.0 as int),
    {
        self.costructures.get_next_index(index)
    }

    pub(crate) fn get_author(&self, index: &LocalIndex) -> (r: Option<A>)
        requires
            index.0 < costructures::INDEX_LIMIT,
        ensures
            r == self@.author(index.0 as int),
    {
        self.costructures.get_author(index)
    }

    pub(crate) fn get_index_shift(&self, index: &LocalIndex) -> (r: Option<IndexShift>)
        requires
            index.0 < costructures::INDEX_LIMIT,
        ensures
            r == self@.shift(index.0 as int),
    {
        self.costructures.get_index_shift(index)
    }

    pub(crate) fn get_reference(&self, index: &LocalIndex) -> (r: Option<LocalIndex>)
        requires
            index.0 < costructures::INDEX_LIMIT,
        ensures
            position(r) == self@.reference(index.0 as int),
    {
        self.costructures.get_reference(index)
    }

    /// Returns `true` if the chronofold contains no elements.
    pub fn is_empty(&self) -> (r: bool)
        requires
            self.wf(),
        ensures
            r == (self@.elements(IndexRange::full()).len() == 0),
    {
        self.len() == 0
    }

    /// Returns the number of elements in the chronofold.
    pub fn len(&self) -> (r: usize)
        requires
            self.wf(),
        ensures
            r == self@.elements(IndexRange::full()).len(),
    {
        let mut iter = self.iter();
        let mut count: usize = 0;
        let ghost all = self@.elements(IndexRange::full());
        proof {
            self@.lemma_visible_members(self@.causal_range(IndexRange::full()));
            self@.lemma_walk_length(
                self@.range_first(Bound::Unbounded),
                self@.range_stop(Bound::Unbounded),
                self@.log.len(),
            );
        }
        loop
            invariant
                self.wf(),
                iter.wf(),
                iter.chronofold() == *self,
                all.len() <= usize::MAX,
                count + self@.visible(iter.pending()).len() == all.len(),
            ensures
                count == all.len(),
            decreases self@.visible(iter.pending()).len(),
        {
            match iter.next() {
                Some(_) => {
                    count += 1;
                },
                None => {
                    break ;
                },
            }
        }
        count
    }

    /// Returns a reference to a change in the chronofold's log.
    ///
    /// If `index` is out of bounds, `None` is returned.
    pub fn get(&self, index: LocalIndex) -> (r: Option<&Change<T>>)
        ensures
            match r {
                Some(change) => index.0 < self@.len() && *change == self@.log[index.0 as int],
                None => index.0 >= self@.len(),
            },
    {
        if index.0 < self.log.len() {
            Some(&self.log[index.0])
        } else {
            None
        }
    }

    /// The timestamp of the entry at `index`: its index in the log of its
    /// author, and that author.
    ///
    /// If `index` is out of bounds, `None` is returned.
    pub fn timestamp(&self, index: LocalIndex) -> (r: Option<Timestamp<A>>)
        requires
            self.wf(),
        ensures
            r == (if index.0 < self@.len() {
                Some(self@.timestamp(index.0 as int))
            } else {
                None
            }),
    {
        if index.0 >= self.log.len() {
            return None;
        }
        proof {
            assert(self@.entry_ok(index.0 as int));
        }
        let shift = self.get_index_shift(&index)?;
        let author = self.get_author(&index)?;
        Some(Timestamp::new(AuthorIndex(index.0 - shift.0), author))
    }

    /// The log index of the entry that carries `timestamp`, if the log
    /// holds one.
    pub fn log_index(&self, timestamp: &Timestamp<A>) -> (r: Option<LocalIndex>)
        requires
            self.wf(),
        ensures
            position(r) == self@.log_index(*timestamp),
    {
        let mut index = timestamp.idx.0;
        while index < self.log.len()
            invariant
                self.wf(),
                self@.first_with_timestamp(*timestamp, index as int) == self@.log_index(
                    *timestamp,
                ),
            decreases self.log.len() - index,
        {
            match self.timestamp(LocalIndex(index)) {
                Some(found) => {
                    if found.same(timestamp) {
                        return Some(LocalIndex(index));
                    }
                },
                None => {},
            }
            index += 1;
        }
        None
    }
}

impl<A: Author, T> Chronofold<A, T> {
    /// Applies an op to the chronofold.
    ///
    /// The op is turned away, and the chronofold left as it is, where the
    /// log holds its timestamp already, where its timestamp is ahead of the
    /// log, and where the log does not hold what it refers to. Otherwise its
    /// change is appended and woven into the causal order.
    ///
    /// An insert that refers to nothing is no op of a chronofold.
    pub fn apply<V: IntoLocalValue<A, T>>(&mut self, op: Op<A, V>) -> (r: Result<
        (),
        ChronofoldError<A, V>,
    >)
        requires
            old(self).wf(),
            old(self)@.has_room(1),
            !(op.payload matches OpPayload::Insert(None, _)),
        ensures
            final(self).wf(),
            match old(self)@.verdict(op.id, op.payload.spec_reference()) {
                Verdict::Existing => r == Err::<(), ChronofoldError<A, V>>(
                    ChronofoldError::ExistingTimestamp(op),
                ) && *final(self) == *old(self),
                Verdict::Future => r == Err::<(), ChronofoldError<A, V>>(
                    ChronofoldError::FutureTimestamp(op),
                ) && *final(self) == *old(self),
                Verdict::Unknown => r == Err::<(), ChronofoldError<A, V>>(
                    ChronofoldError::UnknownReference(op),
                ) && *final(self) == *old(self),
                Verdict::Known(reference) => r == Ok::<(), ChronofoldError<A, V>>(())
                    && final(self)@ == old(self)@.change_applied(
                    op.id,
                    reference,
                    op.payload.local_change(old(self)),
                ) && old(self)@.appended(
                    final(self)@,
                    op.id,
                    reference,
                    op.payload.local_change(old(self)),
                ),
            },
    {
        if self.log_index(&op.id).is_some() {
            return Err(ChronofoldError::ExistingTimestamp(op));
        }
        if op.id.idx.0 > self.log.len() {
            return Err(ChronofoldError::FutureTimestamp(op));
        }
        proof {
            self@.lemma_log_index_none(op.id);
        }
        let id = op.id;
        let (reference, change) = match op.payload {
            OpPayload::Root => (None, Change::Root),
            OpPayload::Insert(Some(target), value) => match self.log_index(&target) {
                Some(reference) => {
                    proof {
                        self@.lemma_log_index_some(target);
                    }
                    (Some(reference), Change::Insert(value.into_local_value(&*self)))
                },
                None => {
                    return Err(
                        ChronofoldError::UnknownReference(Op::insert(id, Some(target), value)),
                    );
                },
            },
            OpPayload::Insert(None, value) => {
                (None, Change::Insert(value.into_local_value(&*self)))
            },
            OpPayload::Delete(target) => match self.log_index(&target) {
                Some(reference) => {
                    proof {
                        self@.lemma_log_index_some(target);
                    }
                    (Some(reference), Change::Delete)
                },
                None => {
                    return Err(ChronofoldError::UnknownReference(Op::delete(id, target)));
                },
            },
        };
        self.apply_change(id, reference, change);
        Ok(())
    }
}

impl<A: Author + Default, T> Default for Chronofold<A, T> {
    /// Constructs a new, empty chronofold whose root is by the default
    /// author.
    fn default() -> (r: Self)
        ensures
            r.wf(),
            exists|author: A|
                call_ensures(A::default, (), author) && r@ == Model::<A, T>::initial(author),
    {
        let author = A::default();
        Self::new(author)
    }
}

} // verus!
