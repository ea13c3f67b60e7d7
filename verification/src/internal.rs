//! Appending to a chronofold: where a change goes, and how it is recorded.
use vstd::prelude::*;

use crate::change::Change;
use crate::costructures::{spec_next_index, spec_run_opened};
use crate::distributed::{Author, Timestamp};
use crate::index::{AuthorIndex, IndexShift, LocalIndex};
use crate::model::{position, Bound, IndexRange};
use crate::Chronofold;

verus! {

impl<A: Author, T> Chronofold<A, T> {
    /// The log index that the next change will get.
    pub fn next_log_index(&self) -> (r: LocalIndex)
        ensures
            r.0 == self@.len(),
    {
        LocalIndex(self.log.len())
    }

    /// Finds the entry behind which a change is woven into the causal
    /// order.
    ///
    /// A root refers to nothing and an insert to an entry: other
    /// combinations are not changes of a chronofold.
    pub fn find_predecessor(
        &self,
        id: Timestamp<A>,
        reference: Option<LocalIndex>,
        change: &Change<T>,
    ) -> (r: Option<LocalIndex>)
        requires
            self.wf(),
            reference.is_some() ==> reference.unwrap().0 < self@.len(),
            *change is Root ==> reference.is_none(),
            *change is Insert ==> reference.is_some(),
        ensures
            position(r) == self@.predecessor(id, position(reference), *change),
            r.is_some() ==> r.unwrap().0 < self@.len(),
    {
        match change {
            Change::Delete => reference,
            Change::Root => None,
            Change::Insert(_) => {
                let target = match reference {
                    Some(target) => target,
                    None => {
                        return None;
                    },
                };
                let mut iter = self.iter_log_indices_causal_range(
                    IndexRange { start: Bound::Included(target), end: Bound::Unbounded },
                );
                let ghost full = self@.causal_from(target.0 as int);
                let ghost mut visited = Seq::<int>::empty();
                let mut last: Option<LocalIndex> = None;
                proof {
                    assert(visited + iter.remaining() =~= full);
                }
                loop
                    invariant
                        self.wf(),
                        iter.wf(),
                        iter.chronofold() == *self,
                        visited + iter.remaining() == full,
                        position(last) == self@.last_preempting(visited, target.0 as int, id),
                        last.is_some() ==> last.unwrap().0 < self@.len(),
                    ensures
                        iter.remaining().len() == 0,
                    decreases iter.remaining().len(),
                {
                    let ghost before = iter.remaining();
                    match iter.next() {
                        None => {
                            break ;
                        },
                        Some((entry, idx)) => {
                            let sibling = match self.get_reference(&idx) {
                                Some(parent) => parent.0 == target.0,
                                None => false,
                            };
                            let preempts = sibling && (entry.is_delete() || match self.timestamp(
                                idx,
                            ) {
                                Some(stamp) => stamp.is_after(&id),
                                None => false,
                            });
                            proof {
                                let longer = visited.push(idx.0 as int);
                                assert(longer.drop_last() =~= visited);
                                assert(longer + iter.remaining() =~= full) by {
                                    assert(before =~= seq![idx.0 as int] + iter.remaining());
                                }
                                assert(preempts == self@.preempts(
                                    idx.0 as int,
                                    target.0 as int,
                                    id,
                                ));
                                visited = longer;
                            }
                            if preempts {
                                last = Some(idx);
                            }
                        },
                    }
                }
                proof {
                    assert(visited =~= full);
                }
                match last {
                    None => Some(target),
                    Some(idx) => {
                        let subtree = self.iter_subtree(idx);
                        if subtree.len() > 0 {
                            proof {
                                let mapped = subtree@.map_values(|i: LocalIndex| i.0 as int);
                                assert(mapped[mapped.len() - 1] == subtree[subtree.len() - 1].0);
                            }
                            Some(subtree[subtree.len() - 1])
                        } else {
                            None
                        }
                    },
                }
            },
        }
    }

    /// Finds the last tombstone of `reference` among the entries that
    /// follow it in causal order.
    pub fn find_last_delete(&self, reference: LocalIndex) -> (r: Option<LocalIndex>)
        requires
            self.wf(),
        ensures
            position(r) == self@.find_last_delete(reference.0 as int),
            r.is_some() ==> r.unwrap().0 < self@.len(),
    {
        let mut iter = self.iter_log_indices_causal_range(
            IndexRange { start: Bound::Excluded(reference), end: Bound::Unbounded },
        );
        let ghost full = self@.causal(self@.index_after(reference.0 as int), None);
        let ghost mut visited = Seq::<int>::empty();
        let mut last: Option<LocalIndex> = None;
        proof {
            if reference.0 < self.log.len() {
                self@.lemma_successor_no_root(reference.0 as int);
            }
            assert(visited + iter.remaining() =~= full);
        }
        loop
            invariant
                self.wf(),
                iter.wf(),
                iter.chronofold() == *self,
                visited + iter.remaining() == full,
                position(last) == self@.last_deleting(visited, reference.0 as int),
                last.is_some() ==> last.unwrap().0 < self@.len(),
            ensures
                iter.remaining().len() == 0,
            decreases iter.remaining().len(),
        {
            let ghost before = iter.remaining();
            match iter.next() {
                None => {
                    break ;
                },
                Some((entry, idx)) => {
                    let deletes = entry.is_delete() && match self.get_reference(&idx) {
                        Some(parent) => parent.0 == reference.0,
                        None => false,
                    };
                    proof {
                        let longer = visited.push(idx.0 as int);
                        assert(longer.drop_last() =~= visited);
                        assert(longer + iter.remaining() =~= full) by {
                            assert(before =~= seq![idx.0 as int] + iter.remaining());
                        }
                        assert(deletes == self@.deletes(idx.0 as int, reference.0 as int));
                        visited = longer;
                    }
                    if deletes {
                        last = Some(idx);
                    }
                },
            }
        }
        proof {
            assert(visited =~= full);
        }
        last
    }

    /// Appends a change with timestamp `id` that refers to `reference`,
    /// weaves it into the causal order behind its predecessor, and returns
    /// its log index.
    pub fn apply_change(
        &mut self,
        id: Timestamp<A>,
        reference: Option<LocalIndex>,
        change: Change<T>,
    ) -> (r: LocalIndex)
        requires
            old(self).wf(),
            old(self)@.admits(id, position(reference), change),
        ensures
            final(self).wf(),
            final(self)@ == old(self)@.change_applied(id, position(reference), change),
            old(self)@.appended(final(self)@, id, position(reference), change),
            r.0 == old(self)@.len(),
    {
        let predecessor = self.find_predecessor(id, reference, &change);
        let new_index = LocalIndex(self.log.len());
        let next_index = match predecessor {
            Some(idx) => {
                let next_index = self.costructures.get_next_index(&idx);
                self.costructures.set_next_index(idx, Some(new_index));
                next_index
            },
            None => None,
        };
        self.log.push(change);
        self.costructures.set_next_index(new_index, next_index);
        self.costructures.set_author(new_index, id.author);
        self.costructures.set_index_shift(new_index, IndexShift(new_index.0 - id.idx.0));
        self.costructures.set_reference(new_index, reference);
        self.version.inc(&id);
        proof {
            old(self)@.lemma_change_applied_wf(id, position(reference), change);
            old(self)@.lemma_change_applied_appended(id, position(reference), change);
            assert(self@.packed == old(self)@.change_applied(
                id,
                position(reference),
                change,
            ).packed);
        }
        new_index
    }

    /// Appends consecutive local changes by `author` in one run behind
    /// `reference`, and returns the log index of the last one, if any.
    ///
    /// Local changes are cheap to record. The timestamp of each is its log
    /// index and the author. The first change refers to `reference`, each
    /// later one to the change before it. The run goes behind the last
    /// tombstone of `reference`, or behind `reference` itself, without a
    /// search among siblings. Only its first and its last entry are written
    /// to the streams.
    pub fn apply_local_changes(
        &mut self,
        author: A,
        reference: LocalIndex,
        changes: Vec<Change<T>>,
    ) -> (r: Option<LocalIndex>)
        requires
            old(self).wf(),
            old(self)@.admits_run(reference.0 as int, changes@),
        ensures
            final(self).wf(),
            final(self)@ == old(self)@.local_applied(author, reference.0 as int, changes@),
            old(self)@.run_appended(final(self)@, author, reference.0 as int, changes@),
            r == (if changes.len() > 0 {
                Some(LocalIndex((old(self)@.len() + changes.len() - 1) as usize))
            } else {
                None
            }),
    {
        let mut last_id: Option<Timestamp<A>> = None;
        let mut last_next_index: Option<LocalIndex> = None;
        let start = match self.find_last_delete(reference) {
            Some(tombstone) => tombstone,
            None => reference,
        };
        let mut predecessor = start;
        let ghost all = changes@;
        let ghost before = self@;
        let ghost opened = spec_run_opened(
            before.packed,
            LocalIndex(before.len() as usize),
            start,
            reference,
            author.spec_as_usize(),
        );
        proof {
            before.lemma_local_applied_wf(author, reference.0 as int, all);
            before.lemma_local_applied_appended(author, reference.0 as int, all);
            before.lemma_local_predecessor_in_log(reference.0 as int);
            assert(self.log@ =~= before.log + all.take(0));
        }
        for change in it: changes
            invariant
                self.root == old(self).root,
                self.version == old(self).version,
                before == old(self)@,
                before.has_room(all.len() as int),
                it.seq() == all,
                start.0 < before.len(),
                self.log@ == before.log + all.take(it.index() as int),
                it.index() == 0 ==> self.costructures@ == before.packed && last_id.is_none()
                    && predecessor == start,
                opened == spec_run_opened(
                    before.packed,
                    LocalIndex(before.len() as usize),
                    start,
                    reference,
                    author.spec_as_usize(),
                ),
                it.index() > 0 ==> self.costructures@ == opened,
                it.index() > 0 ==> predecessor.0 == before.len() + it.index() - 1,
                it.index() > 0 ==> last_id == Some(
                    Timestamp { idx: AuthorIndex(predecessor.0), author },
                ),
                it.index() > 0 ==> last_next_index == spec_next_index(before.packed, start),
        {
            let new_index = LocalIndex(self.log.len());
            if last_id.is_none() {
                last_next_index = self.costructures.get_next_index(&predecessor);
                self.costructures.set_next_index(predecessor, Some(new_index));
                self.log.push(change);
                self.costructures.set_author(new_index, author);
                self.costructures.set_index_shift(new_index, IndexShift(0));
                self.costructures.set_reference(new_index, Some(reference));
            } else {
                self.log.push(change);
            }
            last_id = Some(Timestamp::new(AuthorIndex(new_index.0), author));
            predecessor = new_index;
            proof {
                let k = it.index() as int;
                assert(all.take(k + 1) =~= all.take(k).push(all[k]));
                assert(self.log@ =~= before.log + all.take(k + 1));
            }
        }
        proof {
            assert(all.take(all.len() as int) =~= all);
        }
        match last_id {
            Some(id) => {
                self.costructures.set_next_index(LocalIndex(id.idx.0), last_next_index);
                self.version.inc(&id);
                Some(LocalIndex(id.idx.0))
            },
            None => None,
        }
    }
}

} // verus!
