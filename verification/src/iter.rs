//! Walking a chronofold: in causal order, over its elements, over its ops.
use std::collections::HashSet;
use std::marker::PhantomData;
use vstd::prelude::*;

use crate::change::Change;
use crate::distributed::{Author, FromLocalValue, Op, OpPayload};
use crate::index::LocalIndex;
use crate::model::{position, Bound, IndexRange};
use crate::Chronofold;

verus! {

/// A walk over log entries in causal order.
///
/// The walk follows the successors from its current entry up to the end
/// of the chain, or up to the first entry that is left out.
pub struct CausalIter<'a, A: Author, T> {
    pub(crate) cfold: &'a Chronofold<A, T>,
    pub(crate) current: Option<LocalIndex>,
    pub(crate) first_excluded: Option<LocalIndex>,
}

impl<'a, A: Author, T> CausalIter<'a, A, T> {
    /// The chronofold that is walked.
    pub open(crate) spec fn chronofold(&self) -> Chronofold<A, T> {
        *self.cfold
    }

    /// Whether the walk is over a well-formed chronofold.
    pub open(crate) spec fn wf(&self) -> bool {
        self.cfold.wf()
    }

    /// The log indices that the walk has yet to visit, in causal order.
    pub open(crate) spec fn remaining(&self) -> Seq<int> {
        self.cfold@.causal(position(self.current), position(self.first_excluded))
    }

    /// Visits the next entry: returns the change and its log index, and
    /// `None` when the walk is over.
    pub fn next(&mut self) -> (r: Option<(&'a Change<T>, LocalIndex)>)
        requires
            old(self).wf(),
        ensures
            final(self).wf(),
            final(self).chronofold() == old(self).chronofold(),
            match r {
                Some((change, index)) => {
                    &&& old(self).remaining().len() > 0
                    &&& index.0 == old(self).remaining()[0]
                    &&& index.0 < old(self).chronofold()@.len()
                    &&& *change == old(self).chronofold()@.log[index.0 as int]
                    &&& final(self).remaining() == old(self).remaining().drop_first()
                },
                None => old(self).remaining().len() == 0 && final(self).remaining().len() == 0,
            },
    {
        let cfold = self.cfold;
        match self.current {
            Some(current) => {
                let excluded = match self.first_excluded {
                    Some(stop) => stop.0 == current.0,
                    None => false,
                };
                if !excluded && current.0 < cfold.log.len() {
                    proof {
                        cfold@.lemma_causal_step(
                            current.0 as int,
                            position(self.first_excluded),
                        );
                        assert(cfold@.entry_ok(current.0 as int));
                    }
                    self.current = cfold.index_after(current);
                    proof {
                        let before = old(self).remaining();
                        assert(before.drop_first() =~= self.remaining());
                    }
                    Some((&cfold.log[current.0], current))
                } else {
                    self.current = None;
                    None
                }
            },
            None => None,
        }
    }
}

/// Whether the change of a log entry is a tombstone.
pub fn entry_is_delete<T>(entry: &(&Change<T>, LocalIndex)) -> (b: bool)
    ensures
        b == (*entry.0 is Delete),
{
    entry.0.is_delete()
}

/// A walk over the elements of a chronofold in causal order.
///
/// An element is an insert that no tombstone follows directly.
pub struct Iter<'a, A: Author, T> {
    pub(crate) cfold: &'a Chronofold<A, T>,
    pub(crate) entries: Vec<(&'a Change<T>, LocalIndex)>,
    pub(crate) position: usize,
    pub(crate) current: Option<(&'a Change<T>, LocalIndex)>,
}

impl<'a, A: Author, T> Iter<'a, A, T> {
    /// The chronofold that is walked.
    pub open(crate) spec fn chronofold(&self) -> Chronofold<A, T> {
        *self.cfold
    }

    /// Whether `entry` is an entry of the chronofold with its change.
    pub open(crate) spec fn holds(&self, entry: (&Change<T>, LocalIndex)) -> bool {
        entry.1.0 < self.cfold@.len() && *entry.0 == self.cfold@.log[entry.1.0 as int]
    }

    /// Whether the walk is over a well-formed chronofold and in step with
    /// it.
    pub open(crate) spec fn wf(&self) -> bool {
        &&& self.cfold.wf()
        &&& self.position <= self.entries.len()
        &&& forall|k: int| 0 <= k < self.entries.len() ==> self.holds(#[trigger] self.entries[k])
        &&& self.current.is_some() ==> self.holds(self.current.unwrap())
        &&& self.current.is_none() ==> self.position == self.entries.len()
    }

    /// The log indices that the walk has yet to look at, in causal order.
    pub open(crate) spec fn pending(&self) -> Seq<int> {
        match self.current {
            Some(entry) => seq![entry.1.0 as int] + self.entries@.skip(
                self.position as int,
            ).map_values(|e: (&Change<T>, LocalIndex)| e.1.0 as int),
            None => Seq::empty(),
        }
    }

    /// Visits the next element: returns the value and its log index, and
    /// `None` when the walk is over.
    pub fn next(&mut self) -> (r: Option<(&'a T, LocalIndex)>)
        requires
            old(self).wf(),
        ensures
            final(self).wf(),
            final(self).chronofold() == old(self).chronofold(),
            ({
                let model = old(self).chronofold()@;
                let elements = model.visible(old(self).pending());
                match r {
                    Some((value, index)) => {
                        &&& elements.len() > 0
                        &&& index.0 == elements[0]
                        &&& index.0 < model.len()
                        &&& model.log[index.0 as int] == Change::Insert(*value)
                        &&& model.visible(final(self).pending()) == elements.drop_first()
                    },
                    None => elements.len() == 0 && final(self).pending().len() == 0,
                }
            }),
    {
        let cfold = self.cfold;
        loop
            invariant
                self.wf(),
                self.cfold == cfold,
                self.chronofold() == old(self).chronofold(),
                cfold@.visible(self.pending()) == cfold@.visible(old(self).pending()),
            decreases self.pending().len(),
        {
            let ghost before = self.pending();
            let ghost start = self.position;
            let (skipped, found) = skip_while(
                &self.entries,
                &mut self.position,
                entry_is_delete::<T>,
            );
            let next = match found {
                Some(entry) => Some(*entry),
                None => None,
            };
            let current = self.current;
            self.current = next;
            match current {
                None => {
                    return None;
                },
                Some((change, idx)) => {
                    proof {
                        let indices = self.entries@.map_values(
                            |e: (&Change<T>, LocalIndex)| e.1.0 as int,
                        );
                        assert(before =~= seq![idx.0 as int] + indices.skip(start as int));
                        assert forall|j: int| 1 <= j <= skipped implies cfold@.log[#[trigger] before[j]] is Delete by {
                            assert(self.holds(self.entries[start + j - 1]));
                        }
                        if next.is_some() {
                            assert(self.holds(self.entries[start + skipped]));
                        }
                        assert(self.pending() =~= before.skip(1 + skipped));
                        cfold@.lemma_visible_skip(before, skipped as int);
                    }
                    if skipped == 0 {
                        match change {
                            Change::Insert(value) => {
                                proof {
                                    let whole = cfold@.visible(before);
                                    assert(whole.drop_first() =~= cfold@.visible(self.pending()));
                                }
                                return Some((value, idx));
                            },
                            _ => {},
                        }
                    }
                    proof {
                        assert(Seq::<int>::empty() + cfold@.visible(self.pending())
                            =~= cfold@.visible(self.pending()));
                    }
                },
            }
        }
    }
}

/// A walk over the ops that stand for the entries of a chronofold, in log
/// order.
pub struct Ops<'a, A: Author, T, V> {
    pub(crate) cfold: &'a Chronofold<A, T>,
    pub(crate) next_index: usize,
    pub(crate) end: usize,
    pub(crate) _op_value: PhantomData<V>,
}

impl<'a, A: Author, T, V: FromLocalValue<'a, A, T>> Ops<'a, A, T, V> {
    /// The chronofold that is walked.
    pub open(crate) spec fn chronofold(&self) -> Chronofold<A, T> {
        *self.cfold
    }

    /// Whether the walk is over a well-formed chronofold and within its
    /// log.
    pub open(crate) spec fn wf(&self) -> bool {
        self.cfold.wf() && self.end <= self.cfold@.len()
    }

    /// The log index of the next op.
    pub open(crate) spec fn first(&self) -> int {
        self.next_index as int
    }

    /// The log index at which the walk ends.
    pub open(crate) spec fn last(&self) -> int {
        self.end as int
    }

    /// Visits the next entry and returns the op that stands for it, and
    /// `None` when the walk is over.
    pub fn next(&mut self) -> (r: Option<Op<A, V>>)
        requires
            old(self).wf(),
        ensures
            final(self).wf(),
            final(self).chronofold() == old(self).chronofold(),
            final(self).last() == old(self).last(),
            match r {
                Some(op) => {
                    &&& old(self).first() < old(self).last()
                    &&& op == old(self).chronofold().op_at::<V>(old(self).first())
                    &&& final(self).first() == old(self).first() + 1
                },
                None => old(self).first() >= old(self).last() && final(self).first() == old(
                    self,
                ).first(),
            },
    {
        let cfold = self.cfold;
        if self.next_index >= self.end {
            return None;
        }
        let idx = LocalIndex(self.next_index);
        self.next_index += 1;
        proof {
            assert(cfold@.entry_ok(idx.0 as int));
        }
        let id = match cfold.timestamp(idx) {
            Some(id) => id,
            None => {
                return None;
            },
        };
        let reference = match cfold.get_reference(&idx) {
            Some(target) => cfold.timestamp(target),
            None => None,
        };
        let payload = match &cfold.log[idx.0] {
            Change::Root => OpPayload::Root,
            Change::Insert(value) => OpPayload::Insert(
                reference,
                V::from_local_value(value, cfold),
            ),
            Change::Delete => match reference {
                Some(target) => OpPayload::Delete(target),
                None => {
                    return None;
                },
            },
        };
        Some(Op::new(id, payload))
    }
}

impl<A: Author, T> Chronofold<A, T> {
    /// Returns a walk over the log entries of a range, in causal order.
    ///
    /// The range is read in causal order: it begins at its start, or
    /// behind the primary root, and goes to the end of the chain or up to
    /// its end. A root at the beginning is stepped over.
    pub fn iter_log_indices_causal_range(&self, range: IndexRange) -> (r: CausalIter<'_, A, T>)
        requires
            self.wf(),
        ensures
            r.wf(),
            r.chronofold() == *self,
            r.remaining() == self@.causal_range(range),
    {
        let mut current = match range.start {
            Bound::Unbounded => self.index_after(self.root),
            Bound::Included(idx) => Some(idx),
            Bound::Excluded(idx) => self.index_after(idx),
        };
        match current {
            Some(idx) => {
                let at_root = match self.get(idx) {
                    Some(change) => change.is_root(),
                    None => false,
                };
                if at_root {
                    current = self.index_after(idx);
                }
            },
            None => {},
        }
        let first_excluded = match range.end {
            Bound::Unbounded => None,
            Bound::Included(idx) => self.index_after(idx),
            Bound::Excluded(idx) => Some(idx),
        };
        CausalIter { cfold: self, current, first_excluded }
    }

    /// Returns a walk over the elements of a range, in causal order.
    pub fn iter_range(&self, range: IndexRange) -> (r: Iter<'_, A, T>)
        requires
            self.wf(),
        ensures
            r.wf(),
            r.chronofold() == *self,
            r.pending() == self@.causal_range(range),
    {
        let mut causal_iter = self.iter_log_indices_causal_range(range);
        let current = causal_iter.next();
        let mut entries: Vec<(&Change<T>, LocalIndex)> = Vec::new();
        let ghost rest = causal_iter.remaining();
        proof {
            assert(entries@.map_values(|e: (&Change<T>, LocalIndex)| e.1.0 as int)
                + causal_iter.remaining() =~= rest);
        }
        loop
            invariant
                self.wf(),
                causal_iter.wf(),
                causal_iter.chronofold() == *self,
                entries@.map_values(|e: (&Change<T>, LocalIndex)| e.1.0 as int)
                    + causal_iter.remaining() == rest,
                forall|k: int|
                    0 <= k < entries.len() ==> (#[trigger] entries[k]).1.0 < self@.len()
                        && *entries[k].0 == self@.log[entries[k].1.0 as int],
            ensures
                causal_iter.remaining().len() == 0,
            decreases causal_iter.remaining().len(),
        {
            let ghost before = causal_iter.remaining();
            let ghost collected = entries@.map_values(|e: (&Change<T>, LocalIndex)| e.1.0 as int);
            match causal_iter.next() {
                Some(entry) => {
                    entries.push(entry);
                    proof {
                        assert(before =~= seq![entry.1.0 as int] + causal_iter.remaining());
                        assert(entries@.map_values(|e: (&Change<T>, LocalIndex)| e.1.0 as int)
                            =~= collected.push(entry.1.0 as int));
                        assert(collected.push(entry.1.0 as int) + causal_iter.remaining()
                            =~= rest);
                    }
                },
                None => {
                    break ;
                },
            }
        }
        let iter = Iter { cfold: self, entries, position: 0, current };
        proof {
            let indices = iter.entries@.map_values(|e: (&Change<T>, LocalIndex)| e.1.0 as int);
            assert(indices =~= rest);
            assert(iter.entries@.skip(0) =~= iter.entries@);
            let whole = self@.causal_range(range);
            if current.is_some() {
                assert(whole =~= seq![current.unwrap().1.0 as int] + rest);
            } else {
                assert(rest.len() == 0);
            }
        }
        iter
    }

    /// Returns a walk over all elements, in causal order.
    pub fn iter(&self) -> (r: Iter<'_, A, T>)
        requires
            self.wf(),
        ensures
            r.wf(),
            r.chronofold() == *self,
            r.pending() == self@.causal_range(IndexRange::full()),
    {
        self.iter_range(IndexRange::full())
    }

    /// Returns the elements in causal order.
    pub fn iter_elements(&self) -> (r: Vec<&T>)
        requires
            self.wf(),
        ensures
            r.len() == self@.elements(IndexRange::full()).len(),
            forall|k: int|
                0 <= k < r.len() ==> self@.log[self@.elements(IndexRange::full())[k]]
                    == Change::Insert(*#[trigger] r[k]),
    {
        let mut iter = self.iter();
        let mut elements: Vec<&T> = Vec::new();
        let ghost all = self@.elements(IndexRange::full());
        proof {
            assert(all.skip(0) =~= all);
        }
        loop
            invariant
                self.wf(),
                iter.wf(),
                iter.chronofold() == *self,
                elements.len() <= all.len(),
                self@.visible(iter.pending()) == all.skip(elements.len() as int),
                forall|k: int|
                    0 <= k < elements.len() ==> self@.log[all[k]] == Change::Insert(
                        *#[trigger] elements[k],
                    ),
            ensures
                elements.len() == all.len(),
            decreases all.len() - elements.len(),
        {
            match iter.next() {
                Some((value, _)) => {
                    proof {
                        let rest = all.skip(elements.len() as int);
                        assert(rest[0] == all[elements.len() as int]);
                        assert(rest.drop_first() =~= all.skip(elements.len() + 1));
                    }
                    elements.push(value);
                },
                None => {
                    break ;
                },
            }
        }
        elements
    }

    /// Returns the changes in log order.
    pub fn iter_changes(&self) -> (r: &[Change<T>])
        ensures
            r@ == self@.log,
    {
        self.log.as_slice()
    }

    /// The op that stands for the entry at `i`: it carries the timestamp
    /// of the entry, and refers to the timestamp of the entry that the
    /// entry refers to.
    pub open(crate) spec fn op_at<'a, V: FromLocalValue<'a, A, T>>(&self, i: int) -> Op<A, V> {
        Op {
            id: self@.timestamp(i),
            payload: match self@.log[i] {
                Change::Root => OpPayload::Root,
                Change::Insert(value) => OpPayload::Insert(
                    self@.reference_timestamp(i),
                    V::of_local_value(&value, self),
                ),
                Change::Delete => OpPayload::Delete(self@.reference_timestamp(i).unwrap()),
            },
        }
    }

    /// Returns a walk over the ops of a range of log indices, in log
    /// order.
    ///
    /// The walk visits the entries whose log indices lie in the range and
    /// in the log.
    pub fn iter_ops<'a, V: FromLocalValue<'a, A, T>>(&'a self, range: IndexRange) -> (r: Ops<
        'a,
        A,
        T,
        V,
    >)
        requires
            self.wf(),
        ensures
            r.wf(),
            r.chronofold() == *self,
            r.first() == self@.ops_first(range.start),
            r.last() == self@.ops_end(range.end),
    {
        let oob = self.log.len();
        let start = match range.start {
            Bound::Unbounded => 0,
            Bound::Included(idx) => if idx.0 < oob {
                idx.0
            } else {
                oob
            },
            Bound::Excluded(idx) => if idx.0 < oob {
                idx.0 + 1
            } else {
                oob
            },
        };
        let end = match range.end {
            Bound::Unbounded => oob,
            Bound::Included(idx) => if idx.0 < oob {
                idx.0 + 1
            } else {
                oob
            },
            Bound::Excluded(idx) => if idx.0 < oob {
                idx.0
            } else {
                oob
            },
        };
        Ops { cfold: self, next_index: start, end, _op_value: PhantomData }
    }

    /// Returns the subtree of `root`: the entry itself and all entries
    /// that descend from it by reference, in causal order.
    ///
    /// The walk goes from `root` to the end of its chain and keeps what
    /// refers to an entry that it has kept before.
    pub fn iter_subtree(&self, root: LocalIndex) -> (r: Vec<LocalIndex>)
        requires
            self.wf(),
        ensures
            r@.map_values(|i: LocalIndex| i.0 as int) == self@.subtree(root.0 as int),
            forall|k: int| 0 <= k < r.len() ==> (#[trigger] r[k]).0 < self@.len(),
    {
        let mut members: HashSet<usize> = HashSet::new();
        let mut subtree: Vec<LocalIndex> = Vec::new();
        let mut iter = self.iter_log_indices_causal_range(
            IndexRange { start: Bound::Included(root), end: Bound::Unbounded },
        );
        let ghost full = self@.causal_from(root.0 as int);
        let ghost mut visited = Seq::<int>::empty();
        proof {
            assert(visited + iter.remaining() =~= full);
            assert(subtree@.map_values(|i: LocalIndex| i.0 as int) =~= self@.subtree_of(
                visited,
                root.0 as int,
            ));
        }
        loop
            invariant
                self.wf(),
                iter.wf(),
                iter.chronofold() == *self,
                visited + iter.remaining() == full,
                subtree@.map_values(|i: LocalIndex| i.0 as int) == self@.subtree_of(
                    visited,
                    root.0 as int,
                ),
                forall|x: usize|
                    members@.contains(x) <==> self@.subtree_of(visited, root.0 as int).contains(
                        x as int,
                    ),
                forall|k: int| 0 <= k < subtree.len() ==> (#[trigger] subtree[k]).0 < self@.len(),
            ensures
                iter.remaining().len() == 0,
            decreases iter.remaining().len(),
        {
            let ghost before = iter.remaining();
            match iter.next() {
                None => {
                    break ;
                },
                Some((_, idx)) => {
                    let joins = idx.0 == root.0 || match self.get_reference(&idx) {
                        Some(reference) => members.contains(&reference.0),
                        None => false,
                    };
                    let ghost found = self@.subtree_of(visited, root.0 as int);
                    proof {
                        let longer = visited.push(idx.0 as int);
                        assert(longer.drop_last() =~= visited);
                        assert(longer + iter.remaining() =~= full) by {
                            assert(before =~= seq![idx.0 as int] + iter.remaining());
                        }
                        assert(joins == self@.joins_subtree(found, idx.0 as int, root.0 as int));
                    }
                    if joins {
                        members.insert(idx.0);
                        subtree.push(idx);
                        proof {
                            let grown = found.push(idx.0 as int);
                            assert(subtree@.map_values(|i: LocalIndex| i.0 as int) =~= grown);
                            assert forall|x: usize| members@.contains(x) <==> grown.contains(
                                x as int,
                            ) by {
                                if grown.contains(x as int) {
                                    let k = choose|k: int| 0 <= k < grown.len() && grown[k] == x;
                                    if k < found.len() {
                                        assert(found[k] == x);
                                    }
                                }
                                if found.contains(x as int) {
                                    let k = choose|k: int| 0 <= k < found.len() && found[k] == x;
                                    assert(grown[k] == x);
                                }
                                if x == idx.0 {
                                    assert(grown[grown.len() - 1] == x);
                                }
                            }
                        }
                    }
                    proof {
                        visited = visited.push(idx.0 as int);
                    }
                },
            }
        }
        proof {
            assert(visited =~= full);
        }
        subtree
    }
}

/// Skips the items from `position` on for which `predicate` holds.
///
/// Returns how many items were skipped, and the first item for which
/// `predicate` does not hold, if there is one. `position` is moved behind
/// that item, or to the end.
pub fn skip_while<'a, T, P: Fn(&T) -> bool>(
    items: &'a Vec<T>,
    position: &mut usize,
    predicate: P,
) -> (r: (usize, Option<&'a T>))
    requires
        *old(position) <= items.len(),
        forall|i: int| 0 <= i < items.len() ==> call_requires(predicate, (&#[trigger] items[i],)),
    ensures
        *old(position) + r.0 <= items.len(),
        forall|i: int|
            *old(position) <= i < *old(position) + r.0 ==> call_ensures(
                predicate,
                (&#[trigger] items[i],),
                true,
            ),
        match r.1 {
            Some(item) => {
                &&& *old(position) + r.0 < items.len()
                &&& *item == items[*old(position) + r.0]
                &&& call_ensures(predicate, (item,), false)
                &&& *final(position) == *old(position) + r.0 + 1
            },
            None => *old(position) + r.0 == items.len() && *final(position) == items.len(),
        },
{
    let mut skipped: usize = 0;
    loop
        invariant
            *position == *old(position) + skipped,
            *position <= items.len(),
            forall|i: int| 0 <= i < items.len() ==> call_requires(predicate, (&#[trigger] items[i],)),
            forall|i: int|
                *old(position) <= i < *position ==> call_ensures(
                    predicate,
                    (&#[trigger] items[i],),
                    true,
                ),
        decreases items.len() - *position,
    {
        if *position >= items.len() {
            return (skipped, None);
        }
        let item = &items[*position];
        *position += 1;
        if !predicate(item) {
            return (skipped, Some(item));
        }
        skipped += 1;
    }
}

} // verus!
