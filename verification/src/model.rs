//! The mathematical model of a chronofold.
//!
//! The model holds what a replica stores: the log, the packed map of the
//! four secondary streams and the version. Everything else (the
//! successor and the reference of an entry, its timestamp, the causal
//! order, where a new entry is woven in) is read off these three.
use vstd::prelude::*;

use crate::change::Change;
use crate::costructures::{
    defaults_elided, key_within, spec_author, spec_entry_written, spec_index_shift, spec_next_index,
    spec_reference, spec_run_written, INDEX_LIMIT,
};
use crate::distributed::{Author, Timestamp};
use crate::index::{AuthorIndex, IndexShift, LocalIndex};
use crate::version::version_inc;

verus! {

/// One end of a range of log indices.
#[derive(PartialEq, Eq, Structural, Clone, Copy, Debug)]
pub enum Bound {
    Included(LocalIndex),
    Excluded(LocalIndex),
    Unbounded,
}

/// A range of log indices, given by its two ends.
#[derive(PartialEq, Eq, Structural, Clone, Copy, Debug)]
pub struct IndexRange {
    pub start: Bound,
    pub end: Bound,
}

/// Turns an index of the packed streams into a position of the model.
pub open spec fn position(index: Option<LocalIndex>) -> Option<int> {
    match index {
        Some(i) => Some(i.0 as int),
        None => None,
    }
}

/// Turns a position of the model into an index of the packed streams.
pub open spec fn local_index(position: Option<int>) -> Option<LocalIndex> {
    match position {
        Some(i) => Some(LocalIndex(i as usize)),
        None => None,
    }
}

impl IndexRange {
    /// The range of all log indices.
    pub open spec fn spec_full() -> IndexRange {
        IndexRange { start: Bound::Unbounded, end: Bound::Unbounded }
    }

    /// The range of all log indices.
    #[verifier::when_used_as_spec(spec_full)]
    pub fn full() -> (r: IndexRange)
        ensures
            r == Self::spec_full(),
    {
        IndexRange { start: Bound::Unbounded, end: Bound::Unbounded }
    }

    /// The range from `start` on, `start` included.
    pub open spec fn spec_from(start: LocalIndex) -> IndexRange {
        IndexRange { start: Bound::Included(start), end: Bound::Unbounded }
    }

    /// The range from `start` on, `start` included.
    #[verifier::when_used_as_spec(spec_from)]
    pub fn from(start: LocalIndex) -> (r: IndexRange)
        ensures
            r == Self::spec_from(start),
    {
        IndexRange { start: Bound::Included(start), end: Bound::Unbounded }
    }
}

/// The integers from `from` up to `to`, `to` left out, for which `keep`
/// holds, in ascending order.
pub open spec fn selected(from: int, to: int, keep: spec_fn(int) -> bool) -> Seq<int>
    decreases to - from,
{
    if to <= from {
        Seq::empty()
    } else if keep(to - 1) {
        selected(from, to - 1, keep).push(to - 1)
    } else {
        selected(from, to - 1, keep)
    }
}

/// What a replica makes of an operation before it applies it.
pub enum Verdict {
    /// The log holds an entry with the operation's timestamp.
    Existing,
    /// The index of the operation's timestamp lies beyond the end of the
    /// log.
    Future,
    /// The log holds no entry with the timestamp that the operation refers
    /// to.
    Unknown,
    /// The operation can be applied; it refers to the entry at this log
    /// index, if to any.
    Known(Option<int>),
}

/// What a replica stores.
#[verifier::reject_recursive_types(A)]
pub struct Model<A, T> {
    /// The changes, in the order in which this replica appended them.
    pub log: Seq<Change<T>>,
    /// The four secondary streams, packed.
    pub packed: Map<u64, usize>,
    /// The highest index seen of each author.
    pub version: Map<A, AuthorIndex>,
}

impl<A: Author, T> Model<A, T> {
    /// The number of log entries.
    pub open spec fn len(self) -> int {
        self.log.len() as int
    }

    /// The successor of entry `i` in causal order.
    pub open spec fn next(self, i: int) -> Option<int> {
        position(spec_next_index(self.packed, LocalIndex(i as usize)))
    }

    /// The entry that entry `i` was attached to.
    pub open spec fn reference(self, i: int) -> Option<int> {
        position(spec_reference(self.packed, LocalIndex(i as usize)))
    }

    /// The author of entry `i`.
    pub open spec fn author(self, i: int) -> Option<A> {
        spec_author::<A>(self.packed, LocalIndex(i as usize))
    }

    /// How far entry `i` lies behind its place in its author's own log.
    pub open spec fn shift(self, i: int) -> Option<IndexShift> {
        spec_index_shift(self.packed, LocalIndex(i as usize))
    }

    /// The timestamp of entry `i`: its log index less its shift, and its
    /// author.
    pub open spec fn timestamp(self, i: int) -> Timestamp<A> {
        Timestamp {
            idx: AuthorIndex((i - self.shift(i).unwrap().0) as usize),
            author: self.author(i).unwrap(),
        }
    }

    /// The first entry at or after `from` that carries `timestamp`.
    pub open spec fn first_with_timestamp(self, timestamp: Timestamp<A>, from: int) -> Option<int>
        decreases self.len() - from,
    {
        if from < 0 || from >= self.len() {
            None
        } else if self.timestamp(from) == timestamp {
            Some(from)
        } else {
            self.first_with_timestamp(timestamp, from + 1)
        }
    }

    /// The log index of the entry that carries `timestamp`. The search
    /// starts at the timestamp's own index, before which the entry cannot
    /// lie.
    pub open spec fn log_index(self, timestamp: Timestamp<A>) -> Option<int> {
        self.first_with_timestamp(timestamp, timestamp.idx.0 as int)
    }

    /// What the replica makes of an operation with timestamp `id` that
    /// refers to `reference`. A timestamp that the log holds is turned
    /// away first, then one that is ahead of the log, then a reference that
    /// the log does not hold.
    pub open spec fn verdict(self, id: Timestamp<A>, reference: Option<Timestamp<A>>) -> Verdict {
        if self.log_index(id).is_some() {
            Verdict::Existing
        } else if id.idx.0 > self.len() {
            Verdict::Future
        } else {
            match reference {
                Some(target) => match self.log_index(target) {
                    Some(r) => Verdict::Known(Some(r)),
                    None => Verdict::Unknown,
                },
                None => Verdict::Known(None),
            }
        }
    }

    /// The successor of `i`, and none for an index outside the log.
    pub open spec fn index_after(self, i: int) -> Option<int> {
        if 0 <= i < self.len() {
            self.next(i)
        } else {
            None
        }
    }

    /// The entries from `cur` on, following successors, up to the end of
    /// the chain or to `stop`, which is left out. At most `fuel` entries.
    pub open spec fn walk(self, cur: Option<int>, stop: Option<int>, fuel: nat) -> Seq<int>
        decreases fuel,
    {
        if fuel == 0 || cur.is_none() || cur == stop || !(0 <= cur.unwrap() < self.len()) {
            Seq::empty()
        } else {
            seq![cur.unwrap()] + self.walk(self.next(cur.unwrap()), stop, (fuel - 1) as nat)
        }
    }

    /// The entries from `cur` on in causal order, up to the end of the
    /// chain or to `stop`, which is left out.
    pub open spec fn causal(self, cur: Option<int>, stop: Option<int>) -> Seq<int> {
        self.walk(cur, stop, self.log.len())
    }

    /// Steps over `cur` where it is a root.
    pub open spec fn skip_root(self, cur: Option<int>) -> Option<int> {
        match cur {
            Some(i) => if 0 <= i < self.len() && self.log[i] is Root {
                self.next(i)
            } else {
                cur
            },
            None => None,
        }
    }

    /// Where a causal walk over a range begins. A root at the beginning
    /// is stepped over.
    pub open spec fn range_first(self, start: Bound) -> Option<int> {
        self.skip_root(
            match start {
                Bound::Unbounded => self.index_after(0),
                Bound::Included(i) => Some(i.0 as int),
                Bound::Excluded(i) => self.index_after(i.0 as int),
            },
        )
    }

    /// The first entry that a causal walk over a range leaves out.
    pub open spec fn range_stop(self, end: Bound) -> Option<int> {
        match end {
            Bound::Unbounded => None,
            Bound::Included(i) => self.index_after(i.0 as int),
            Bound::Excluded(i) => Some(i.0 as int),
        }
    }

    /// The entries of a range, in causal order.
    pub open spec fn causal_range(self, range: IndexRange) -> Seq<int> {
        self.causal(self.range_first(range.start), self.range_stop(range.end))
    }

    /// The entries from `i` to the end of its chain, in causal order; a
    /// root at `i` is stepped over.
    pub open spec fn causal_from(self, i: int) -> Seq<int> {
        self.causal(self.skip_root(Some(i)), None)
    }

    /// Whether entry `x` belongs to the subtree of `root`, given the
    /// members found before it in causal order.
    pub open spec fn joins_subtree(self, members: Seq<int>, x: int, root: int) -> bool {
        x == root || (self.reference(x).is_some() && members.contains(
            self.reference(x).unwrap(),
        ))
    }

    /// The members of the subtree of `root` among the entries `s`, which
    /// are in causal order: `root` itself and every entry that refers to
    /// an earlier member.
    pub open spec fn subtree_of(self, s: Seq<int>, root: int) -> Seq<int>
        decreases s.len(),
    {
        if s.len() == 0 {
            Seq::empty()
        } else {
            let before = self.subtree_of(s.drop_last(), root);
            if self.joins_subtree(before, s.last(), root) {
                before.push(s.last())
            } else {
                before
            }
        }
    }

    /// The subtree of `root`: the entry and all entries that descend from
    /// it by reference, in causal order.
    pub open spec fn subtree(self, root: int) -> Seq<int> {
        self.subtree_of(self.causal_from(root), root)
    }

    /// Whether entry `q`, attached to `reference` as the new entry will
    /// be, has to stay ahead of an entry with timestamp `id`: tombstones
    /// always do, and so do entries with a greater timestamp.
    pub open spec fn preempts(self, q: int, reference: int, id: Timestamp<A>) -> bool {
        self.reference(q) == Some(reference) && (self.log[q] is Delete || self.timestamp(
            q,
        ).spec_gt(id))
    }

    /// The last entry of `s` that preempts an entry with timestamp `id`
    /// attached to `reference`.
    pub open spec fn last_preempting(self, s: Seq<int>, reference: int, id: Timestamp<A>) -> Option<
        int,
    >
        decreases s.len(),
    {
        if s.len() == 0 {
            None
        } else if self.preempts(s.last(), reference, id) {
            Some(s.last())
        } else {
            self.last_preempting(s.drop_last(), reference, id)
        }
    }

    /// The entry after which a new entry is woven into the causal order.
    ///
    /// A tombstone goes directly behind its target. A root starts a chain
    /// of its own. An insert goes behind the subtree of the last sibling
    /// that preempts it, and directly behind its reference where no
    /// sibling does.
    pub open spec fn predecessor(
        self,
        id: Timestamp<A>,
        reference: Option<int>,
        change: Change<T>,
    ) -> Option<int> {
        if change is Delete {
            reference
        } else if reference.is_none() {
            None
        } else {
            let r = reference.unwrap();
            match self.last_preempting(self.causal_from(r), r, id) {
                None => Some(r),
                Some(q) => if self.subtree(q).len() > 0 {
                    Some(self.subtree(q).last())
                } else {
                    None
                },
            }
        }
    }

    /// The model after a change with timestamp `id`, attached to
    /// `reference`, was appended and woven in behind its predecessor.
    pub open spec fn change_applied(
        self,
        id: Timestamp<A>,
        reference: Option<int>,
        change: Change<T>,
    ) -> Self {
        Model {
            log: self.log.push(change),
            packed: spec_entry_written(
                self.packed,
                LocalIndex(self.log.len() as usize),
                local_index(self.predecessor(id, reference, change)),
                id.author.spec_as_usize(),
                IndexShift((self.log.len() - id.idx.0) as usize),
                local_index(reference),
            ),
            version: version_inc(self.version, id),
        }
    }

    /// Whether entry `q` is a tombstone of `reference`.
    pub open spec fn deletes(self, q: int, reference: int) -> bool {
        self.log[q] is Delete && self.reference(q) == Some(reference)
    }

    /// The last entry of `s` that is a tombstone of `reference`.
    pub open spec fn last_deleting(self, s: Seq<int>, reference: int) -> Option<int>
        decreases s.len(),
    {
        if s.len() == 0 {
            None
        } else if self.deletes(s.last(), reference) {
            Some(s.last())
        } else {
            self.last_deleting(s.drop_last(), reference)
        }
    }

    /// The last tombstone of `reference` among the entries that follow it
    /// in causal order.
    pub open spec fn find_last_delete(self, reference: int) -> Option<int> {
        self.last_deleting(self.causal(self.index_after(reference), None), reference)
    }

    /// The entry behind which local changes attached to `reference` are
    /// woven in: its last tombstone, or the entry itself.
    pub open spec fn local_predecessor(self, reference: int) -> int {
        match self.find_last_delete(reference) {
            Some(d) => d,
            None => reference,
        }
    }

    /// The model after `author` appended `changes` in one run behind
    /// `reference`.
    ///
    /// The run is woven in behind the local predecessor of `reference`.
    /// Its first entry refers to `reference`, each later one to the entry
    /// before it. The timestamp of each entry is its log index and the
    /// author.
    pub open spec fn local_applied(self, author: A, reference: int, changes: Seq<Change<T>>) -> Self {
        if changes.len() == 0 {
            self
        } else {
            let last = LocalIndex((self.log.len() + changes.len() - 1) as usize);
            Model {
                log: self.log + changes,
                packed: spec_run_written(
                    self.packed,
                    LocalIndex(self.log.len() as usize),
                    last,
                    LocalIndex(self.local_predecessor(reference) as usize),
                    LocalIndex(reference as usize),
                    author.spec_as_usize(),
                ),
                version: version_inc(
                    self.version,
                    Timestamp { idx: AuthorIndex(last.0), author },
                ),
            }
        }
    }

    /// Whether the entry at position `k` of `s` is a visible element: an
    /// insert that no tombstone follows directly.
    pub open spec fn visible_at(self, s: Seq<int>, k: int) -> bool {
        self.log[s[k]] is Insert && !(k + 1 < s.len() && self.log[s[k + 1]] is Delete)
    }

    /// The visible elements among the entries `s`, which are in causal
    /// order.
    pub open spec fn visible(self, s: Seq<int>) -> Seq<int>
        decreases s.len(),
    {
        if s.len() == 0 {
            Seq::empty()
        } else if self.visible_at(s, 0) {
            seq![s[0]] + self.visible(s.drop_first())
        } else {
            self.visible(s.drop_first())
        }
    }

    /// The visible elements of a range, in causal order.
    pub open spec fn elements(self, range: IndexRange) -> Seq<int> {
        self.visible(self.causal_range(range))
    }

    /// The entry before `i` in causal order; a root is its own. Asked for
    /// the index behind the log, this is the last entry of the chain that
    /// the last log entry lies in.
    ///
    /// The walk starts at the reference of `i`, so it finds nothing where
    /// `i` directly follows a root.
    pub open spec fn index_before(self, i: int) -> Option<int> {
        if 0 <= i < self.len() && self.log[i] is Root {
            Some(i)
        } else if 0 <= i <= self.len() {
            match self.reference(i) {
                Some(r) => {
                    let s = self.causal_range(
                        IndexRange {
                            start: Bound::Included(LocalIndex(r as usize)),
                            end: Bound::Excluded(LocalIndex(i as usize)),
                        },
                    );
                    if s.len() > 0 {
                        Some(s.last())
                    } else {
                        None
                    }
                },
                None => None,
            }
        } else {
            None
        }
    }

    /// The first log index of a range of ops, in log order: behind an
    /// excluded start it is the next log index. It is never beyond the
    /// end of the log.
    pub open spec fn ops_first(self, start: Bound) -> int {
        let bound = match start {
            Bound::Unbounded => 0,
            Bound::Included(i) => i.0 as int,
            Bound::Excluded(i) => i.0 + 1,
        };
        if bound < self.len() {
            bound
        } else {
            self.len()
        }
    }

    /// The log index at which a range of ops ends, in log order; it is not
    /// part of the range. Behind an included end it is the next log index.
    /// It is never beyond the end of the log.
    pub open spec fn ops_end(self, end: Bound) -> int {
        let bound = match end {
            Bound::Unbounded => self.len(),
            Bound::Included(i) => i.0 + 1,
            Bound::Excluded(i) => i.0 as int,
        };
        if bound < self.len() {
            bound
        } else {
            self.len()
        }
    }

    /// The timestamp of the entry that entry `i` refers to.
    pub open spec fn reference_timestamp(self, i: int) -> Option<Timestamp<A>> {
        match self.reference(i) {
            Some(r) => Some(self.timestamp(r)),
            None => None,
        }
    }

    /// Whether a replica at `version` has not seen the entry at `i`: it
    /// does not know the author, or has seen less of the author.
    pub open spec fn newer_than(self, version: Map<A, AuthorIndex>, i: int) -> bool {
        let timestamp = self.timestamp(i);
        !version.contains_key(timestamp.author) || timestamp.idx.0
            > version[timestamp.author].0
    }

    /// Whether the entry at `i` is by `author`.
    pub open spec fn authored_by(self, author: A, i: int) -> bool {
        self.timestamp(i).author == author
    }

    /// The element that a session appends behind when it pushes to the
    /// back: the last element, or the primary root where there is none.
    pub open spec fn back(self) -> int {
        let elements = self.elements(IndexRange::full());
        if elements.len() > 0 {
            elements.last()
        } else {
            0
        }
    }

    /// The entry behind which a session puts what replaces a range: the
    /// entry before the start of the range, or the primary root where
    /// there is none.
    pub open spec fn splice_anchor(self, start: Bound) -> int {
        match start {
            Bound::Unbounded => 0,
            Bound::Included(i) => match self.index_before(i.0 as int) {
                Some(before) => before,
                None => 0,
            },
            Bound::Excluded(i) => i.0 as int,
        }
    }

    /// The empty range behind the last log entry.
    pub open spec fn end_range(self) -> IndexRange {
        IndexRange {
            start: Bound::Included(LocalIndex(self.len() as usize)),
            end: Bound::Excluded(LocalIndex(self.len() as usize)),
        }
    }

    /// The model after `author` appended a tombstone for each of
    /// `targets`, one after the other.
    pub open spec fn removed_all(self, author: A, targets: Seq<int>) -> Self
        decreases targets.len(),
    {
        if targets.len() == 0 {
            self
        } else {
            self.local_applied(author, targets[0], seq![Change::Delete]).removed_all(
                author,
                targets.drop_first(),
            )
        }
    }

    /// Whether all stored keys belong to entries of the log.
    pub open spec fn keys_bounded(self) -> bool {
        forall|key: u64| #[trigger] self.packed.contains_key(key) ==> key_within(key, self.len())
    }

    /// What holds of every entry on its own: its shift is not beyond its
    /// index, its reference lies before it and is missing exactly for a
    /// root, its successor is an entry, and the version has seen it.
    pub open spec fn entry_ok(self, i: int) -> bool {
        &&& self.shift(i).is_some() && self.shift(i).unwrap().0 <= i
        &&& self.author(i).is_some()
        &&& match self.reference(i) {
            Some(r) => 0 <= r < i && !(self.log[i] is Root),
            None => self.log[i] is Root,
        }
        &&& match self.next(i) {
            Some(m) => 0 <= m < self.len(),
            None => true,
        }
        &&& self.version.contains_key(self.author(i).unwrap())
        &&& self.version[self.author(i).unwrap()].0 >= self.timestamp(i).idx.0
    }

    /// Whether entry `i` is by `author` and carries the index that the
    /// version holds for that author.
    pub open spec fn attains(self, author: A, i: int) -> bool {
        self.timestamp(i) == (Timestamp { idx: self.version[author], author })
    }

    /// Whether what the version holds for `author` is the index of an
    /// entry by that author.
    pub open spec fn version_attained(self, author: A) -> bool {
        exists|i: int| 0 <= i < self.len() && #[trigger] self.attains(author, i)
    }

    /// Whether the entry at position `k` of the weave is followed by its
    /// successor. Where it has none its chain ends, and what follows in
    /// the weave is the root of another chain.
    pub open spec fn linked(self, weave: Seq<int>, k: int) -> bool {
        match self.next(weave[k]) {
            Some(m) => k + 1 < self.len() && weave[k + 1] == m && !(self.log[m] is Root),
            None => k + 1 < self.len() ==> self.log[weave[k + 1]] is Root,
        }
    }

    /// Whether `weave` lists every entry once, chain after chain in causal
    /// order, the chain of the first root first, and `place` gives the
    /// position in it of every entry.
    pub open spec fn woven(self, weave: Seq<int>, place: Seq<int>) -> bool {
        &&& weave.len() == self.len()
        &&& place.len() == self.len()
        &&& forall|k: int|
            0 <= k < self.len() ==> 0 <= #[trigger] weave[k] < self.len() && place[weave[k]] == k
        &&& forall|i: int|
            0 <= i < self.len() ==> 0 <= #[trigger] place[i] < self.len() && weave[place[i]] == i
        &&& weave[0] == 0
        &&& forall|k: int| 0 <= k < self.len() ==> #[trigger] self.linked(weave, k)
    }

    /// The invariant of a chronofold.
    ///
    /// The log starts with a root and fits the packed keys. Every stored
    /// key belongs to an entry, and no stored offset is a default. Every entry has an author and a shift, a
    /// reference before it unless it is a root, and a timestamp that no
    /// other entry has and that the version has seen. The version holds
    /// for an author the index of one of the author's entries, so the
    /// greatest. The successors form chains without cycles that together
    /// hold every entry once.
    pub open spec fn wf(self) -> bool {
        &&& 0 < self.len() < INDEX_LIMIT
        &&& self.len() <= usize::MAX
        &&& self.log[0] is Root
        &&& self.keys_bounded()
        &&& defaults_elided(self.packed)
        &&& forall|i: int| 0 <= i < self.len() ==> #[trigger] self.entry_ok(i)
        &&& forall|i: int, j: int|
            0 <= i < j < self.len() ==> #[trigger] self.timestamp(i) != #[trigger] self.timestamp(
                j,
            )
        &&& forall|author: A| #[trigger]
            self.version.contains_key(author) ==> self.version_attained(author)
        &&& exists|weave: Seq<int>, place: Seq<int>| self.woven(weave, place)
    }
}

} // verus!
