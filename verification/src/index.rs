//! Indices into the log, and the offsets between them.
use vstd::prelude::*;

use crate::distributed::Author;
use crate::model::{position, Bound, IndexRange};
use crate::Chronofold;

verus! {

/// An index in the log of a chronofold.
///
/// Log indices are subjective: the same operation may sit at different
/// indices on different replicas.
#[derive(PartialEq, Eq, Structural, PartialOrd, Ord, Hash, Clone, Copy, Debug)]
pub struct LocalIndex(pub usize);

/// An index in the log of one author: the position an operation had in the
/// log of the replica that created it.
#[derive(PartialEq, Eq, Structural, PartialOrd, Ord, Hash, Clone, Copy, Debug)]
pub struct AuthorIndex(pub usize);

/// The distance between a log index and the author index of the entry
/// stored there.
#[derive(PartialEq, Eq, Structural, PartialOrd, Ord, Hash, Clone, Copy, Debug)]
pub struct IndexShift(pub usize);

/// Common surface of the index types.
pub trait LogIndex: Copy + Sized {
    /// The position as a number.
    spec fn spec_index(&self) -> usize;

    /// Two indices at the same position are the same index.
    proof fn lemma_index_determines(a: &Self, b: &Self)
        ensures
            a.spec_index() == b.spec_index() ==> *a == *b,
    ;

    fn index(&self) -> (r: usize)
        ensures
            r == self.spec_index(),
    ;

    /// Replaces `self` by `other` if `other` is further along.
    fn take_max(&mut self, other: &Self)
        ensures
            *final(self) == (if old(self).spec_index() < other.spec_index() {
                *other
            } else {
                *old(self)
            }),
    {
        if self.index() < other.index() {
            *self = *other;
        }
    }
}

impl LogIndex for LocalIndex {
    open spec fn spec_index(&self) -> usize {
        self.0
    }

    proof fn lemma_index_determines(a: &Self, b: &Self) {
    }

    fn index(&self) -> (r: usize) {
        self.0
    }
}

impl LogIndex for AuthorIndex {
    open spec fn spec_index(&self) -> usize {
        self.0
    }

    proof fn lemma_index_determines(a: &Self, b: &Self) {
    }

    fn index(&self) -> (r: usize) {
        self.0
    }
}

/// An offset between keys: what a key has to be moved by to reach its
/// value.
pub trait Offset<K>: Sized {
    /// The offset that a key has where nothing else is said.
    spec fn spec_default() -> Self;

    /// Whether `value` can be moved by this offset.
    spec fn adds(&self, value: &K) -> bool;

    /// `value` moved by this offset.
    spec fn spec_add(&self, value: &K) -> K;

    /// Whether the offset from `b` to `a` can be taken.
    spec fn subs(a: &K, b: &K) -> bool;

    /// The offset from `b` to `a`.
    spec fn spec_sub(a: &K, b: &K) -> Self;

    /// Moving a key by the offset from it to another key gives the other
    /// key.
    proof fn lemma_sub_then_add(a: &K, b: &K)
        requires
            Self::subs(a, b),
        ensures
            Self::spec_sub(a, b).adds(b),
            Self::spec_sub(a, b).spec_add(b) == *a,
    ;

    fn default_offset() -> (r: Self)
        ensures
            r == Self::spec_default(),
    ;

    fn add(&self, value: &K) -> (r: K)
        requires
            self.adds(value),
        ensures
            r == self.spec_add(value),
    ;

    fn sub(a: &K, b: &K) -> (r: Self)
        requires
            Self::subs(a, b),
        ensures
            r == Self::spec_sub(a, b),
    ;
}

/// The offset from a log index to its successor in causal order. The
/// default is the next log index.
#[derive(PartialEq, Eq, Structural, PartialOrd, Ord, Hash, Clone, Copy, Debug)]
pub struct RelativeNextIndex(pub isize);

impl Default for RelativeNextIndex {
    fn default() -> (r: Self)
        ensures
            r == RelativeNextIndex(1),
    {
        RelativeNextIndex(1)
    }
}

impl Offset<LocalIndex> for RelativeNextIndex {
    open spec fn spec_default() -> Self {
        RelativeNextIndex(1)
    }

    open spec fn adds(&self, value: &LocalIndex) -> bool {
        value.0 <= isize::MAX && 0 <= value.0 + self.0 <= isize::MAX
    }

    open spec fn spec_add(&self, value: &LocalIndex) -> LocalIndex {
        LocalIndex((value.0 + self.0) as usize)
    }

    open spec fn subs(a: &LocalIndex, b: &LocalIndex) -> bool {
        a.0 <= isize::MAX && b.0 <= isize::MAX
    }

    open spec fn spec_sub(a: &LocalIndex, b: &LocalIndex) -> Self {
        RelativeNextIndex((a.0 - b.0) as isize)
    }

    proof fn lemma_sub_then_add(a: &LocalIndex, b: &LocalIndex) {
    }

    fn default_offset() -> (r: Self) {
        RelativeNextIndex(1)
    }

    fn add(&self, value: &LocalIndex) -> (r: LocalIndex) {
        LocalIndex((value.0 as isize + self.0) as usize)
    }

    fn sub(a: &LocalIndex, b: &LocalIndex) -> (r: Self) {
        RelativeNextIndex(a.0 as isize - b.0 as isize)
    }
}

/// The offset from a log index to the entry it refers to. The default is
/// the previous log index.
#[derive(PartialEq, Eq, Structural, PartialOrd, Ord, Hash, Clone, Copy, Debug)]
pub struct RelativeReference(pub isize);

impl Default for RelativeReference {
    fn default() -> (r: Self)
        ensures
            r == RelativeReference(-1isize),
    {
        RelativeReference(-1)
    }
}

impl Offset<LocalIndex> for RelativeReference {
    open spec fn spec_default() -> Self {
        RelativeReference(-1isize)
    }

    open spec fn adds(&self, value: &LocalIndex) -> bool {
        value.0 <= isize::MAX && 0 <= value.0 + self.0 <= isize::MAX
    }

    open spec fn spec_add(&self, value: &LocalIndex) -> LocalIndex {
        LocalIndex((value.0 + self.0) as usize)
    }

    open spec fn subs(a: &LocalIndex, b: &LocalIndex) -> bool {
        a.0 <= isize::MAX && b.0 <= isize::MAX
    }

    open spec fn spec_sub(a: &LocalIndex, b: &LocalIndex) -> Self {
        RelativeReference((a.0 - b.0) as isize)
    }

    proof fn lemma_sub_then_add(a: &LocalIndex, b: &LocalIndex) {
    }

    fn default_offset() -> (r: Self) {
        RelativeReference(-1)
    }

    fn add(&self, value: &LocalIndex) -> (r: LocalIndex) {
        LocalIndex((value.0 as isize + self.0) as usize)
    }

    fn sub(a: &LocalIndex, b: &LocalIndex) -> (r: Self) {
        RelativeReference(a.0 as isize - b.0 as isize)
    }
}

impl<A: Author, T> Chronofold<A, T> {
    /// Returns the index of the last log entry (in log order).
    pub fn last_index(&self) -> (r: Option<LocalIndex>)
        ensures
            r == (if self@.len() > 0 {
                Some(LocalIndex((self@.len() - 1) as usize))
            } else {
                None
            }),
    {
        if self.log.len() > 0 {
            Some(LocalIndex(self.log.len() - 1))
        } else {
            None
        }
    }

    /// Returns the previous log index (causal order); a root is its own.
    ///
    /// The walk to `index` starts at the entry that `index` refers to. It
    /// finds nothing, and `None` is returned, where `index` directly follows
    /// a root, and where `index` is out of bounds. For the index behind the
    /// log the last entry of the chain of the last log entry is returned.
    pub fn index_before(&self, index: LocalIndex) -> (r: Option<LocalIndex>)
        requires
            self.wf(),
        ensures
            position(r) == self@.index_before(index.0 as int),
            r.is_some() ==> r.unwrap().0 < self@.len(),
    {
        let at_root = match self.get(index) {
            Some(change) => change.is_root(),
            None => false,
        };
        if at_root {
            return Some(index);
        }
        if index.0 > self.log.len() {
            return None;
        }
        match self.get_reference(&index) {
            Some(reference) => {
                let mut iter = self.iter_log_indices_causal_range(
                    IndexRange { start: Bound::Included(reference), end: Bound::Excluded(index) },
                );
                let ghost full = iter.remaining();
                let ghost mut visited = Seq::<int>::empty();
                let mut last: Option<LocalIndex> = None;
                proof {
                    assert(visited + iter.remaining() =~= full);
                }
                loop
                    invariant
                        iter.wf(),
                        iter.chronofold() == *self,
                        visited + iter.remaining() == full,
                        match last {
                            Some(found) => visited.len() > 0 && visited.last() == found.0
                                && found.0 < self@.len(),
                            None => visited.len() == 0,
                        },
                    ensures
                        iter.remaining().len() == 0,
                    decreases iter.remaining().len(),
                {
                    let ghost before = iter.remaining();
                    match iter.next() {
                        Some((_, idx)) => {
                            proof {
                                let longer = visited.push(idx.0 as int);
                                assert(longer + iter.remaining() =~= full) by {
                                    assert(before =~= seq![idx.0 as int] + iter.remaining());
                                }
                                visited = longer;
                            }
                            last = Some(idx);
                        },
                        None => {
                            break ;
                        },
                    }
                }
                proof {
                    assert(visited =~= full);
                }
                last
            },
            None => None,
        }
    }

    /// Returns the next log index (causal order).
    ///
    /// Returns `None` where `index` is the last of its chain, and where it
    /// is out of bounds.
    pub fn index_after(&self, index: LocalIndex) -> (r: Option<LocalIndex>)
        requires
            self.wf(),
        ensures
            position(r) == self@.index_after(index.0 as int),
            r.is_some() ==> r.unwrap().0 < self@.len(),
    {
        if index.0 < self.log.len() {
            proof {
                assert(self@.entry_ok(index.0 as int));
            }
            self.get_next_index(&index)
        } else {
            None
        }
    }
}

} // verus!
