//! Editing a chronofold as one author.
use vstd::prelude::*;

use crate::change::Change;
use crate::distributed::{Author, FromLocalValue, Op, Timestamp};
use crate::index::{AuthorIndex, LocalIndex};
use crate::model::{selected, Bound, IndexRange};
use crate::Chronofold;

verus! {

/// An editing session tied to one author.
///
/// A session appends changes to the log of the chronofold that it borrows,
/// each with the next free log index as its timestamp. It offers what one
/// knows from a vector: pushing, inserting, removing, splicing.
pub struct Session<'a, A: Author, T> {
    pub chronofold: &'a mut Chronofold<A, T>,
    pub author: A,
    pub first_index: LocalIndex,
}

/// The changes that insert `values`, one for each.
pub open spec fn inserts<T>(values: Seq<T>) -> Seq<Change<T>> {
    values.map_values(|value: T| Change::Insert(value))
}

impl<'a, A: Author, T> Session<'a, A, T> {
    /// Creates an editing session for a single author.
    pub fn new(author: A, chronofold: &'a mut Chronofold<A, T>) -> (r: Self)
        ensures
            r.author == author,
            r.first_index.0 == old(chronofold)@.len(),
            *r.chronofold == *old(chronofold),
            *final(r.chronofold) == *final(chronofold),
    {
        let first_index = chronofold.next_log_index();
        Self { chronofold, author, first_index }
    }

    fn apply_changes(&mut self, reference: LocalIndex, changes: Vec<Change<T>>) -> (r: Option<
        LocalIndex,
    >)
        requires
            old(self).chronofold.wf(),
            old(self).chronofold@.admits_run(reference.0 as int, changes@),
        ensures
            final(self).chronofold.wf(),
            final(self).author == old(self).author,
            final(self).first_index == old(self).first_index,
            *final(final(self).chronofold) == *final(old(self).chronofold),
            final(self).chronofold@ == old(self).chronofold@.local_applied(
                old(self).author,
                reference.0 as int,
                changes@,
            ),
            r == (if changes.len() > 0 {
                Some(LocalIndex((old(self).chronofold@.len() + changes.len() - 1) as usize))
            } else {
                None
            }),
    {
        self.chronofold.apply_local_changes(self.author, reference, changes)
    }

    fn apply_change(&mut self, reference: LocalIndex, change: Change<T>) -> (r: LocalIndex)
        requires
            old(self).chronofold.wf(),
            old(self).chronofold@.admits_run(reference.0 as int, seq![change]),
        ensures
            final(self).chronofold.wf(),
            final(self).author == old(self).author,
            final(self).first_index == old(self).first_index,
            *final(final(self).chronofold) == *final(old(self).chronofold),
            final(self).chronofold@ == old(self).chronofold@.local_applied(
                old(self).author,
                reference.0 as int,
                seq![change],
            ),
            r.0 == old(self).chronofold@.len(),
    {
        let mut changes = Vec::new();
        changes.push(change);
        proof {
            assert(changes@ =~= seq![change]);
        }
        match self.apply_changes(reference, changes) {
            Some(index) => index,
            None => reference,
        }
    }

    /// Inserts an element after the entry with log index `index` and
    /// returns the new element's log index.
    pub fn insert_after(&mut self, index: LocalIndex, value: T) -> (r: LocalIndex)
        requires
            old(self).chronofold.wf(),
            old(self).chronofold@.has_room(1),
            index.0 < old(self).chronofold@.len(),
        ensures
            final(self).chronofold.wf(),
            final(self).author == old(self).author,
            final(self).first_index == old(self).first_index,
            *final(final(self).chronofold) == *final(old(self).chronofold),
            final(self).chronofold@ == old(self).chronofold@.local_applied(
                old(self).author,
                index.0 as int,
                seq![Change::Insert(value)],
            ),
            r.0 == old(self).chronofold@.len(),
    {
        self.apply_change(index, Change::Insert(value))
    }

    /// Removes the element with log index `index` from the chronofold.
    ///
    /// The log keeps the element: a tombstone for it is appended.
    pub fn remove(&mut self, index: LocalIndex)
        requires
            old(self).chronofold.wf(),
            old(self).chronofold@.has_room(1),
            index.0 < old(self).chronofold@.len(),
        ensures
            final(self).chronofold.wf(),
            final(self).author == old(self).author,
            final(self).first_index == old(self).first_index,
            *final(final(self).chronofold) == *final(old(self).chronofold),
            final(self).chronofold@ == old(self).chronofold@.local_applied(
                old(self).author,
                index.0 as int,
                seq![Change::<T>::Delete],
            ),
    {
        self.apply_change(index, Change::Delete);
    }

    /// Prepends an element to the chronofold and returns the new element's
    /// log index.
    pub fn push_front(&mut self, value: T) -> (r: LocalIndex)
        requires
            old(self).chronofold.wf(),
            old(self).chronofold@.has_room(1),
        ensures
            final(self).chronofold.wf(),
            final(self).author == old(self).author,
            final(self).first_index == old(self).first_index,
            *final(final(self).chronofold) == *final(old(self).chronofold),
            final(self).chronofold@ == old(self).chronofold@.local_applied(
                old(self).author,
                0,
                seq![Change::Insert(value)],
            ),
            r.0 == old(self).chronofold@.len(),
    {
        let root = self.chronofold.root;
        self.insert_after(root, value)
    }

    /// Appends an element to the back of the chronofold and returns the new
    /// element's log index.
    pub fn push_back(&mut self, value: T) -> (r: LocalIndex)
        requires
            old(self).chronofold.wf(),
            old(self).chronofold@.has_room(1),
        ensures
            final(self).chronofold.wf(),
            final(self).author == old(self).author,
            final(self).first_index == old(self).first_index,
            *final(final(self).chronofold) == *final(old(self).chronofold),
            final(self).chronofold@ == old(self).chronofold@.local_applied(
                old(self).author,
                old(self).chronofold@.back(),
                seq![Change::Insert(value)],
            ),
            r.0 == old(self).chronofold@.len(),
    {
        let index = self.chronofold.last_element();
        self.insert_after(index, value)
    }

    /// Appends a tombstone for each of `targets`, one after the other.
    fn remove_all(&mut self, targets: Vec<LocalIndex>)
        requires
            old(self).chronofold.wf(),
            old(self).chronofold@.has_room(targets.len() as int),
            forall|k: int|
                0 <= k < targets.len() ==> (#[trigger] targets[k]).0 < old(self).chronofold@.len(),
        ensures
            final(self).chronofold.wf(),
            final(self).author == old(self).author,
            final(self).first_index == old(self).first_index,
            *final(final(self).chronofold) == *final(old(self).chronofold),
            final(self).chronofold@ == old(self).chronofold@.removed_all(
                old(self).author,
                targets@.map_values(|i: LocalIndex| i.0 as int),
            ),
            final(self).chronofold@.len() == old(self).chronofold@.len() + targets.len(),
    {
        let ghost all = targets@.map_values(|i: LocalIndex| i.0 as int);
        let mut done: usize = 0;
        proof {
            assert(all.skip(0) =~= all);
        }
        while done < targets.len()
            invariant
                done <= targets.len(),
                all == targets@.map_values(|i: LocalIndex| i.0 as int),
                self.chronofold.wf(),
                self.author == old(self).author,
                self.first_index == old(self).first_index,
                *final(self.chronofold) == *final(old(self).chronofold),
                old(self).chronofold@.has_room(targets.len() as int),
                self.chronofold@.len() == old(self).chronofold@.len() + done,
                forall|k: int|
                    0 <= k < targets.len() ==> (#[trigger] targets[k]).0 < old(
                        self,
                    ).chronofold@.len(),
                self.chronofold@.removed_all(self.author, all.skip(done as int)) == old(
                    self,
                ).chronofold@.removed_all(old(self).author, all),
            decreases targets.len() - done,
        {
            proof {
                let rest = all.skip(done as int);
                assert(rest[0] == targets[done as int].0);
                assert(rest.drop_first() =~= all.skip(done + 1));
            }
            self.remove(targets[done]);
            done += 1;
        }
    }

    /// Clears the chronofold, removing all elements.
    pub fn clear(&mut self)
        requires
            old(self).chronofold.wf(),
            old(self).chronofold@.has_room(
                old(self).chronofold@.elements(IndexRange::full()).len() as int,
            ),
        ensures
            final(self).chronofold.wf(),
            final(self).author == old(self).author,
            final(self).first_index == old(self).first_index,
            *final(final(self).chronofold) == *final(old(self).chronofold),
            final(self).chronofold@ == old(self).chronofold@.removed_all(
                old(self).author,
                old(self).chronofold@.elements(IndexRange::full()),
            ),
    {
        let indices = self.chronofold.element_indices(IndexRange::full());
        self.remove_all(indices);
    }

    /// Extends the chronofold with `values`, and returns the log index of
    /// the last inserted element, if any.
    ///
    /// The values go behind the last entry of the chain that the last log
    /// entry lies in.
    pub fn extend(&mut self, values: Vec<T>) -> (r: Option<LocalIndex>)
        requires
            old(self).chronofold.wf(),
            old(self).chronofold@.has_room(values.len() as int),
        ensures
            final(self).chronofold.wf(),
            final(self).author == old(self).author,
            final(self).first_index == old(self).first_index,
            *final(final(self).chronofold) == *final(old(self).chronofold),
            final(self).chronofold@ == old(self).chronofold@.local_applied(
                old(self).author,
                old(self).chronofold@.splice_anchor(old(self).chronofold@.end_range().start),
                inserts(values@),
            ),
            r == (if values.len() > 0 {
                Some(LocalIndex((old(self).chronofold@.len() + values.len() - 1) as usize))
            } else {
                None
            }),
    {
        let oob = LocalIndex(self.chronofold.log.len());
        proof {
            let model = self.chronofold@;
            let range = model.end_range();
            assert(model.causal_range(range) =~= Seq::<int>::empty());
            assert(model.elements(range) =~= Seq::<int>::empty());
        }
        self.splice(IndexRange { start: Bound::Included(oob), end: Bound::Excluded(oob) }, values)
    }

    /// Replaces the elements of `range` by `values`, and returns the log
    /// index of the last inserted element, if any.
    ///
    /// A tombstone is appended for each element of the range. The values
    /// go behind the entry before the start of the range.
    pub fn splice(&mut self, range: IndexRange, values: Vec<T>) -> (r: Option<LocalIndex>)
        requires
            old(self).chronofold.wf(),
            old(self).chronofold@.has_room(
                old(self).chronofold@.elements(range).len() + values.len(),
            ),
            range.start matches Bound::Excluded(index) ==> index.0 < old(self).chronofold@.len(),
        ensures
            final(self).chronofold.wf(),
            final(self).author == old(self).author,
            final(self).first_index == old(self).first_index,
            *final(final(self).chronofold) == *final(old(self).chronofold),
            final(self).chronofold@ == old(self).chronofold@.removed_all(
                old(self).author,
                old(self).chronofold@.elements(range),
            ).local_applied(
                old(self).author,
                old(self).chronofold@.splice_anchor(range.start),
                inserts(values@),
            ),
            r == (if values.len() > 0 {
                Some(
                    LocalIndex(
                        (old(self).chronofold@.len() + old(self).chronofold@.elements(range).len()
                            + values.len() - 1) as usize,
                    ),
                )
            } else {
                None
            }),
    {
        let before = match range.start {
            Bound::Unbounded => None,
            Bound::Included(idx) => self.chronofold.index_before(idx),
            Bound::Excluded(idx) => Some(idx),
        };
        let last_idx = match before {
            Some(idx) => idx,
            None => self.chronofold.root,
        };
        let to_remove = self.chronofold.element_indices(range);
        self.remove_all(to_remove);
        let mut changes: Vec<Change<T>> = Vec::new();
        let ghost all = values@;
        proof {
            assert(changes@ =~= inserts(all.take(0)));
        }
        for value in it: values
            invariant
                it.seq() == all,
                changes@ == inserts(all.take(it.index() as int)),
        {
            changes.push(Change::Insert(value));
            proof {
                let k = it.index() as int;
                assert(all.take(k + 1) =~= all.take(k).push(all[k]));
                assert(changes@ =~= inserts(all.take(k + 1)));
            }
        }
        proof {
            assert(all.take(all.len() as int) =~= all);
        }
        self.apply_changes(last_idx, changes)
    }

    /// Returns the ops that were created in this session, in log order.
    pub fn iter_ops<'b, V: FromLocalValue<'b, A, T>>(&'b self) -> (r: Vec<Op<A, V>>)
        requires
            self.chronofold.wf(),
        ensures
            ({
                let cfold = *old(self.chronofold);
                let own = selected(
                    self.first_index.0 as int,
                    cfold@.len(),
                    |i: int| cfold@.authored_by(self.author, i),
                );
                &&& r.len() == own.len()
                &&& forall|k: int| 0 <= k < r.len() ==> #[trigger] r[k] == cfold.op_at::<V>(own[k])
            }),
    {
        let cfold = &*self.chronofold;
        let mut ops = cfold.iter_ops::<V>(IndexRange::from(self.first_index));
        let mut own: Vec<Op<A, V>> = Vec::new();
        let ghost keep = |i: int| cfold@.authored_by(self.author, i);
        let ghost from = self.first_index.0 as int;
        loop
            invariant
                cfold.wf(),
                ops.wf(),
                ops.chronofold() == *cfold,
                ops.first() <= ops.last() == cfold@.len(),
                from <= cfold@.len() ==> from <= ops.first(),
                from > cfold@.len() ==> ops.first() == cfold@.len(),
                keep == (|i: int| cfold@.authored_by(self.author, i)),
                own.len() == selected(from, ops.first(), keep).len(),
                forall|k: int|
                    0 <= k < own.len() ==> #[trigger] own[k] == cfold.op_at::<V>(
                        selected(from, ops.first(), keep)[k],
                    ),
            ensures
                ops.first() >= cfold@.len(),
            decreases ops.last() - ops.first(),
        {
            let ghost at = ops.first();
            match ops.next() {
                Some(op) => {
                    proof {
                        crate::distributed::lemma_author_number_identifies(
                            op.id.author,
                            self.author,
                        );
                    }
                    let mine = op.id.author.as_usize() == self.author.as_usize();
                    proof {
                        assert(mine == keep(at));
                    }
                    if mine {
                        own.push(op);
                    }
                },
                None => {
                    break ;
                },
            }
        }
        own
    }

    /// Starts a new chain with a root of its own, and returns the root's
    /// log index.
    pub fn create_root(&mut self) -> (r: LocalIndex)
        requires
            old(self).chronofold.wf(),
            old(self).chronofold@.has_room(1),
        ensures
            final(self).chronofold.wf(),
            final(self).author == old(self).author,
            final(self).first_index == old(self).first_index,
            *final(final(self).chronofold) == *final(old(self).chronofold),
            final(self).chronofold@ == old(self).chronofold@.change_applied(
                Timestamp {
                    idx: AuthorIndex(old(self).chronofold@.len() as usize),
                    author: old(self).author,
                },
                None,
                Change::Root,
            ),
            r.0 == old(self).chronofold@.len(),
    {
        let new_index = AuthorIndex(self.chronofold.log.len());
        let id = Timestamp::new(new_index, self.author);
        proof {
            let model = self.chronofold@;
            assert forall|i: int| 0 <= i < model.len() implies #[trigger] model.timestamp(i)
                != id by {
                model.lemma_timestamp_behind(i);
            }
        }
        self.chronofold.apply_change(id, None, Change::Root)
    }
}

impl<A: Author, T> Chronofold<A, T> {
    /// The log indices of the elements of a range, in causal order.
    pub(crate) fn element_indices(&self, range: IndexRange) -> (r: Vec<LocalIndex>)
        requires
            self.wf(),
        ensures
            r@.map_values(|i: LocalIndex| i.0 as int) == self@.elements(range),
            forall|k: int| 0 <= k < r.len() ==> (#[trigger] r[k]).0 < self@.len(),
    {
        let mut iter = self.iter_range(range);
        let mut indices: Vec<LocalIndex> = Vec::new();
        let ghost all = self@.elements(range);
        proof {
            assert(all.skip(0) =~= all);
        }
        loop
            invariant
                self.wf(),
                iter.wf(),
                iter.chronofold() == *self,
                indices.len() <= all.len(),
                self@.visible(iter.pending()) == all.skip(indices.len() as int),
                indices@.map_values(|i: LocalIndex| i.0 as int) == all.take(indices.len() as int),
                forall|k: int| 0 <= k < indices.len() ==> (#[trigger] indices[k]).0 < self@.len(),
            ensures
                indices.len() == all.len(),
            decreases all.len() - indices.len(),
        {
            let ghost count = indices.len() as int;
            let ghost collected = indices@.map_values(|i: LocalIndex| i.0 as int);
            match iter.next() {
                Some((_, index)) => {
                    proof {
                        let rest = all.skip(count);
                        assert(rest[0] == all[count]);
                        assert(rest.drop_first() =~= all.skip(count + 1));
                    }
                    indices.push(index);
                    proof {
                        assert(indices@.map_values(|i: LocalIndex| i.0 as int)
                            =~= collected.push(index.0 as int));
                        assert(all.take(count + 1) =~= all.take(count).push(all[count]));
                    }
                },
                None => {
                    break ;
                },
            }
        }
        proof {
            assert(all.take(all.len() as int) =~= all);
        }
        indices
    }

    /// The log index of the last element, or the primary root where there
    /// is no element.
    pub(crate) fn last_element(&self) -> (r: LocalIndex)
        requires
            self.wf(),
        ensures
            r.0 == self@.back(),
            r.0 < self@.len(),
    {
        let mut iter = self.iter();
        let mut last = self.root;
        let ghost all = self@.elements(IndexRange::full());
        let ghost mut seen: int = 0;
        proof {
            assert(all.skip(0) =~= all);
        }
        loop
            invariant
                self.wf(),
                iter.wf(),
                iter.chronofold() == *self,
                0 <= seen <= all.len(),
                self@.visible(iter.pending()) == all.skip(seen),
                last.0 < self@.len(),
                last.0 == (if seen > 0 {
                    all[seen - 1]
                } else {
                    0
                }),
            ensures
                seen == all.len(),
            decreases all.len() - seen,
        {
            match iter.next() {
                Some((_, index)) => {
                    proof {
                        let rest = all.skip(seen);
                        assert(rest[0] == all[seen]);
                        assert(rest.drop_first() =~= all.skip(seen + 1));
                        seen = seen + 1;
                    }
                    last = index;
                },
                None => {
                    break ;
                },
            }
        }
        last
    }

    /// Creates an editing session for a single author.
    pub fn session(&mut self, author: A) -> (r: Session<'_, A, T>)
        ensures
            r.author == author,
            r.first_index.0 == old(self)@.len(),
            *r.chronofold == *old(self),
            *final(r.chronofold) == *final(self),
    {
        Session::new(author, self)
    }
}

} // verus!
