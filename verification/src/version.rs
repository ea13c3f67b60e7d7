//! The version of a chronofold: a vector clock.
use std::cmp::Ordering;
use vstd::prelude::*;

use crate::distributed::{lemma_author_number_identifies, Author, FromLocalValue, Op, Timestamp};
use crate::index::{AuthorIndex, LogIndex};
use crate::model::{selected, IndexRange};
use crate::Chronofold;

verus! {

/// The version after `timestamp` was seen: its author's entry becomes the
/// greater of what it was and the timestamp's index.
pub open spec fn version_inc<A>(version: Map<A, AuthorIndex>, timestamp: Timestamp<A>) -> Map<
    A,
    AuthorIndex,
> {
    if version.contains_key(timestamp.author) && version[timestamp.author].0
        >= timestamp.idx.0 {
        version
    } else {
        version.insert(timestamp.author, timestamp.idx)
    }
}

/// Whether `a` has seen, of every author that `b` knows, at least as much
/// as `b` has.
pub open spec fn dominates<A>(a: Map<A, AuthorIndex>, b: Map<A, AuthorIndex>) -> bool {
    forall|author: A| #[trigger]
        b.contains_key(author) ==> a.contains_key(author) && a[author].0 >= b[author].0
}

/// The partial order of versions. Versions of which neither has seen all
/// that the other has are not comparable.
pub open spec fn version_order<A>(a: Map<A, AuthorIndex>, b: Map<A, AuthorIndex>) -> Option<
    Ordering,
> {
    if a == b {
        Some(Ordering::Equal)
    } else if dominates(a, b) {
        Some(Ordering::Greater)
    } else if dominates(b, a) {
        Some(Ordering::Less)
    } else {
        None
    }
}

/// A version never goes back: after a timestamp was seen, the version has
/// seen of every author at least what it had seen before, and of the
/// timestamp's author at least the timestamp's index.
pub proof fn law_version_grows<A>(version: Map<A, AuthorIndex>, timestamp: Timestamp<A>)
    ensures
        dominates(version_inc(version, timestamp), version),
        version_inc(version, timestamp).contains_key(timestamp.author),
        version_inc(version, timestamp)[timestamp.author].0 >= timestamp.idx.0,
{
}

/// Whether the entries are in ascending order of their authors' numbers,
/// no author twice.
pub open spec fn ascending<A: Author>(entries: Seq<Timestamp<A>>) -> bool {
    forall|i: int, j: int|
        0 <= i < j < entries.len() ==> entries[i].author.spec_as_usize()
            < entries[j].author.spec_as_usize()
}

/// The map from authors to indices that a sequence of entries stands for.
pub open spec fn entries_map<A: Author>(entries: Seq<Timestamp<A>>) -> Map<A, AuthorIndex> {
    Map::new(
        |author: A| exists|i: int| 0 <= i < entries.len() && entries[i].author == author,
        |author: A|
            entries[choose|i: int| 0 <= i < entries.len() && entries[i].author == author].idx,
    )
}

/// In ascending entries each author's index is the one stored with it.
pub proof fn lemma_entries_map_at<A: Author>(entries: Seq<Timestamp<A>>, i: int)
    requires
        ascending(entries),
        0 <= i < entries.len(),
    ensures
        entries_map(entries).contains_key(entries[i].author),
        entries_map(entries)[entries[i].author] == entries[i].idx,
{
    let author = entries[i].author;
    let chosen = choose|k: int| 0 <= k < entries.len() && entries[k].author == author;
    if chosen < i {
        assert(entries[chosen].author.spec_as_usize() < entries[i].author.spec_as_usize());
    } else if i < chosen {
        assert(entries[i].author.spec_as_usize() < entries[chosen].author.spec_as_usize());
    }
}

/// Ascending entries that stand for the same map are the same entries.
pub proof fn lemma_entries_determined<A: Author>(a: Seq<Timestamp<A>>, b: Seq<Timestamp<A>>)
    requires
        ascending(a),
        ascending(b),
        entries_map(a) == entries_map(b),
    ensures
        a == b,
    decreases a.len(),
{
    if a.len() == 0 {
        if b.len() > 0 {
            lemma_entries_map_at(b, 0);
            assert(entries_map(a).contains_key(b[0].author));
        }
        assert(a =~= b);
    } else {
        lemma_entries_map_at(a, 0);
        assert(entries_map(b).contains_key(a[0].author));
        let j = choose|j: int| 0 <= j < b.len() && b[j].author == a[0].author;
        lemma_entries_map_at(b, 0);
        assert(entries_map(a).contains_key(b[0].author));
        let i = choose|i: int| 0 <= i < a.len() && a[i].author == b[0].author;
        if j > 0 {
            assert(b[0].author.spec_as_usize() < b[j].author.spec_as_usize());
            if i > 0 {
                assert(a[0].author.spec_as_usize() < a[i].author.spec_as_usize());
            }
        }
        assert(j == 0);
        lemma_entries_map_at(b, 0);
        assert(a[0] == b[0]);
        let ta = a.drop_first();
        let tb = b.drop_first();
        assert(ascending(ta)) by {
            assert forall|i: int, j: int| 0 <= i < j < ta.len() implies ta[i].author.spec_as_usize()
                < ta[j].author.spec_as_usize() by {
                assert(ta[i] == a[i + 1] && ta[j] == a[j + 1]);
            }
        }
        assert(ascending(tb)) by {
            assert forall|i: int, j: int| 0 <= i < j < tb.len() implies tb[i].author.spec_as_usize()
                < tb[j].author.spec_as_usize() by {
                assert(tb[i] == b[i + 1] && tb[j] == b[j + 1]);
            }
        }
        assert forall|author: A| #[trigger]
            entries_map(ta).contains_key(author) == entries_map(tb).contains_key(author) by {
            if entries_map(ta).contains_key(author) {
                let k = choose|k: int| 0 <= k < ta.len() && ta[k].author == author;
                lemma_entries_map_at(a, k + 1);
                assert(a[0].author.spec_as_usize() < a[k + 1].author.spec_as_usize());
                assert(entries_map(b).contains_key(author));
                let m = choose|m: int| 0 <= m < b.len() && b[m].author == author;
                assert(m > 0);
                assert(tb[m - 1].author == author);
            }
            if entries_map(tb).contains_key(author) {
                let k = choose|k: int| 0 <= k < tb.len() && tb[k].author == author;
                lemma_entries_map_at(b, k + 1);
                assert(b[0].author.spec_as_usize() < b[k + 1].author.spec_as_usize());
                assert(entries_map(a).contains_key(author));
                let m = choose|m: int| 0 <= m < a.len() && a[m].author == author;
                assert(m > 0);
                assert(ta[m - 1].author == author);
            }
        }
        assert forall|author: A| #[trigger]
            entries_map(ta).contains_key(author) implies entries_map(ta)[author] == entries_map(
            tb,
        )[author] by {
            let k = choose|k: int| 0 <= k < ta.len() && ta[k].author == author;
            lemma_entries_map_at(ta, k);
            lemma_entries_map_at(a, k + 1);
            let m = choose|m: int| 0 <= m < tb.len() && tb[m].author == author;
            lemma_entries_map_at(tb, m);
            lemma_entries_map_at(b, m + 1);
        }
        assert(entries_map(ta) =~= entries_map(tb));
        lemma_entries_determined(ta, tb);
        assert(a =~= seq![a[0]] + ta);
        assert(b =~= seq![b[0]] + tb);
    }
}

/// A vector clock: for each known author the highest index seen of it.
#[derive(Debug)]
pub struct Version<A: Author> {
    log_indices: Vec<Timestamp<A>>,
}

impl<A: Author> View for Version<A> {
    type V = Map<A, AuthorIndex>;

    /// The highest index seen, by author.
    closed spec fn view(&self) -> Map<A, AuthorIndex> {
        entries_map(self.log_indices@)
    }
}

impl<A: Author> Version<A> {
    #[verifier::type_invariant]
    spec fn in_order(&self) -> bool {
        ascending(self.log_indices@)
    }

    /// The entries of the clock, in ascending order of their authors'
    /// numbers.
    pub closed spec fn entries(&self) -> Seq<Timestamp<A>> {
        self.log_indices@
    }

    /// Constructs a new, empty version.
    pub fn new() -> (r: Self)
        ensures
            r@ == Map::<A, AuthorIndex>::empty(),
    {
        let r = Version { log_indices: Vec::new() };
        assert(r@ =~= Map::<A, AuthorIndex>::empty());
        r
    }

    /// Where `author` is stored, or where it would have to be inserted.
    fn search(&self, author: &A) -> (r: Result<usize, usize>)
        ensures
            match r {
                Ok(i) => i < self.log_indices.len() && self.log_indices[i as int].author
                    == *author,
                Err(i) => {
                    &&& i <= self.log_indices.len()
                    &&& forall|j: int|
                        0 <= j < i ==> self.log_indices[j].author.spec_as_usize()
                            < author.spec_as_usize()
                    &&& forall|j: int|
                        i <= j < self.log_indices.len()
                            ==> self.log_indices[j].author.spec_as_usize()
                            > author.spec_as_usize()
                },
            },
    {
        proof {
            use_type_invariant(self);
        }
        let key = author.as_usize();
        let mut lo: usize = 0;
        let mut hi: usize = self.log_indices.len();
        while lo < hi
            invariant
                lo <= hi <= self.log_indices.len(),
                key == author.spec_as_usize(),
                ascending(self.log_indices@),
                forall|j: int| 0 <= j < lo ==> self.log_indices[j].author.spec_as_usize() < key,
                forall|j: int|
                    hi <= j < self.log_indices.len()
                        ==> self.log_indices[j].author.spec_as_usize() > key,
            decreases hi - lo,
        {
            let mid = lo + (hi - lo) / 2;
            let probe = self.log_indices[mid].author.as_usize();
            if probe == key {
                proof {
                    lemma_author_number_identifies(self.log_indices[mid as int].author, *author);
                }
                return Ok(mid);
            } else if probe < key {
                lo = mid + 1;
            } else {
                hi = mid;
            }
        }
        Err(lo)
    }

    /// Increments the version using a timestamp.
    pub fn inc(&mut self, timestamp: &Timestamp<A>)
        ensures
            final(self)@ == version_inc(old(self)@, *timestamp),
    {
        proof {
            use_type_invariant(&*self);
        }
        let ghost before = self.log_indices@;
        match self.search(&timestamp.author) {
            Ok(idx) => {
                let mut entry = self.log_indices[idx];
                entry.idx.take_max(&timestamp.idx);
                let mut entries: Vec<Timestamp<A>> = Vec::new();
                std::mem::swap(&mut self.log_indices, &mut entries);
                entries[idx] = entry;
                self.log_indices = entries;
                proof {
                    let after = self.log_indices@;
                    lemma_entries_map_at(before, idx as int);
                    assert forall|author: A| #[trigger]
                        entries_map(after).contains_key(author) == version_inc(
                            entries_map(before),
                            *timestamp,
                        ).contains_key(author) by {
                        if entries_map(after).contains_key(author) {
                            let k = choose|k: int|
                                0 <= k < after.len() && after[k].author == author;
                            assert(before[k].author == author);
                        }
                        if entries_map(before).contains_key(author) {
                            let k = choose|k: int|
                                0 <= k < before.len() && before[k].author == author;
                            assert(after[k].author == author);
                        }
                    }
                    assert forall|author: A| #[trigger]
                        entries_map(after).contains_key(author) implies entries_map(
                        after,
                    )[author] == version_inc(entries_map(before), *timestamp)[author] by {
                        let k = choose|k: int| 0 <= k < after.len() && after[k].author == author;
                        lemma_entries_map_at(after, k);
                        lemma_entries_map_at(before, k);
                    }
                    assert(entries_map(after) =~= version_inc(entries_map(before), *timestamp));
                }
            },
            Err(idx) => {
                let mut entries: Vec<Timestamp<A>> = Vec::new();
                std::mem::swap(&mut self.log_indices, &mut entries);
                entries.insert(idx, *timestamp);
                self.log_indices = entries;
                proof {
                    let after = self.log_indices@;
                    assert(after == before.insert(idx as int, *timestamp));
                    assert(ascending(after)) by {
                        assert forall|i: int, j: int| 0 <= i < j < after.len() implies after[i].author.spec_as_usize()
                            < after[j].author.spec_as_usize() by {
                            if i < idx && j > idx {
                                assert(after[i] == before[i]);
                                assert(after[j] == before[j - 1]);
                            }
                        }
                    }
                    assert(!entries_map(before).contains_key(timestamp.author)) by {
                        if entries_map(before).contains_key(timestamp.author) {
                            let k = choose|k: int|
                                0 <= k < before.len() && before[k].author == timestamp.author;
                            assert(k < idx || k >= idx);
                        }
                    }
                    assert forall|author: A| #[trigger]
                        entries_map(after).contains_key(author) == version_inc(
                            entries_map(before),
                            *timestamp,
                        ).contains_key(author) by {
                        if entries_map(after).contains_key(author) {
                            let k = choose|k: int|
                                0 <= k < after.len() && after[k].author == author;
                            if k < idx {
                                assert(before[k].author == author);
                            } else if k > idx {
                                assert(before[k - 1].author == author);
                            }
                        }
                        if entries_map(before).contains_key(author) {
                            let k = choose|k: int|
                                0 <= k < before.len() && before[k].author == author;
                            if k < idx {
                                assert(after[k].author == author);
                            } else {
                                assert(after[k + 1].author == author);
                            }
                        }
                        if author == timestamp.author {
                            assert(after[idx as int].author == author);
                        }
                    }
                    assert forall|author: A| #[trigger]
                        entries_map(after).contains_key(author) implies entries_map(
                        after,
                    )[author] == version_inc(entries_map(before), *timestamp)[author] by {
                        let k = choose|k: int| 0 <= k < after.len() && after[k].author == author;
                        lemma_entries_map_at(after, k);
                        if k < idx {
                            lemma_entries_map_at(before, k);
                        } else if k > idx {
                            lemma_entries_map_at(before, k - 1);
                        }
                    }
                    assert(entries_map(after) =~= version_inc(entries_map(before), *timestamp));
                }
            },
        };
    }

    /// Returns the timestamps in this version, one for each known author,
    /// in ascending order of the authors' numbers.
    pub fn iter(&self) -> (r: Vec<Timestamp<A>>)
        ensures
            r@ == self.entries(),
            ascending(r@),
            entries_map(r@) == self@,
    {
        proof {
            use_type_invariant(self);
        }
        let mut r: Vec<Timestamp<A>> = Vec::new();
        let mut i: usize = 0;
        while i < self.log_indices.len()
            invariant
                i <= self.log_indices.len(),
                r@ == self.log_indices@.take(i as int),
            decreases self.log_indices.len() - i,
        {
            r.push(self.log_indices[i]);
            i += 1;
            assert(r@ =~= self.log_indices@.take(i as int));
        }
        assert(r@ =~= self.log_indices@);
        r
    }

    /// Returns the highest index seen of `author`.
    pub fn get(&self, author: &A) -> (r: Option<AuthorIndex>)
        ensures
            r == (if self@.contains_key(*author) {
                Some(self@[*author])
            } else {
                None
            }),
    {
        proof {
            use_type_invariant(self);
        }
        match self.search(author) {
            Ok(idx) => {
                proof {
                    lemma_entries_map_at(self.log_indices@, idx as int);
                }
                Some(self.log_indices[idx].idx)
            },
            Err(idx) => {
                proof {
                    if self@.contains_key(*author) {
                        let k = choose|k: int|
                            0 <= k < self.log_indices.len() && self.log_indices[k].author
                                == *author;
                        assert(k < idx || k >= idx);
                    }
                }
                None
            },
        }
    }
}

impl<A: Author> Clone for Version<A> {
    fn clone(&self) -> (r: Self)
        ensures
            r@ == self@,
            r.entries() == self.entries(),
    {
        Version { log_indices: self.iter() }
    }
}

impl<A: Author> Version<A> {
    /// Whether this version has seen, of every author that `other` knows,
    /// at least as much as `other` has.
    pub fn covers(&self, other: &Self) -> (r: bool)
        ensures
            r == dominates(self@, other@),
    {
        proof {
            use_type_invariant(self);
            use_type_invariant(other);
        }
        let mut i: usize = 0;
        while i < other.log_indices.len()
            invariant
                i <= other.log_indices.len(),
                ascending(other.log_indices@),
                forall|k: int|
                    0 <= k < i ==> self@.contains_key(#[trigger] other.log_indices[k].author)
                        && self@[other.log_indices[k].author].0 >= other.log_indices[k].idx.0,
            decreases other.log_indices.len() - i,
        {
            let entry = other.log_indices[i];
            proof {
                lemma_entries_map_at(other.log_indices@, i as int);
            }
            let seen = match self.get(&entry.author) {
                Some(index) => index.0 >= entry.idx.0,
                None => false,
            };
            if !seen {
                return false;
            }
            i += 1;
        }
        proof {
            assert forall|author: A| #[trigger] other@.contains_key(author) implies self@.contains_key(
                author,
            ) && self@[author].0 >= other@[author].0 by {
                let k = choose|k: int|
                    0 <= k < other.log_indices.len() && other.log_indices[k].author == author;
                lemma_entries_map_at(other.log_indices@, k);
            }
        }
        true
    }
}

impl<A: Author> PartialEq for Version<A> {
    fn eq(&self, other: &Self) -> (r: bool) {
        proof {
            use_type_invariant(self);
            use_type_invariant(other);
            if self@ == other@ {
                lemma_entries_determined(self.log_indices@, other.log_indices@);
            }
        }
        if self.log_indices.len() != other.log_indices.len() {
            return false;
        }
        let mut i: usize = 0;
        while i < self.log_indices.len()
            invariant
                i <= self.log_indices.len(),
                self.log_indices.len() == other.log_indices.len(),
                self@ == other@ ==> self.log_indices@ == other.log_indices@,
                forall|k: int| 0 <= k < i ==> self.log_indices[k] == other.log_indices[k],
            decreases self.log_indices.len() - i,
        {
            if !self.log_indices[i].same(&other.log_indices[i]) {
                return false;
            }
            i += 1;
        }
        proof {
            assert(self.log_indices@ =~= other.log_indices@);
        }
        true
    }
}

impl<A: Author> vstd::std_specs::cmp::PartialEqSpecImpl for Version<A> {
    open spec fn obeys_eq_spec() -> bool {
        true
    }

    /// Versions are equal where they have seen the same.
    open spec fn eq_spec(&self, other: &Self) -> bool {
        self@ == other@
    }
}

impl<A: Author> Eq for Version<A> {

}

impl<A: Author> PartialOrd for Version<A> {
    fn partial_cmp(&self, other: &Self) -> (r: Option<Ordering>) {
        if self.eq(other) {
            Some(Ordering::Equal)
        } else if self.covers(other) {
            Some(Ordering::Greater)
        } else if other.covers(self) {
            Some(Ordering::Less)
        } else {
            None
        }
    }
}

impl<A: Author> vstd::std_specs::cmp::PartialOrdSpecImpl for Version<A> {
    open spec fn obeys_partial_cmp_spec() -> bool {
        true
    }

    /// Versions are ordered by what they have seen.
    open spec fn partial_cmp_spec(&self, other: &Self) -> Option<Ordering> {
        version_order(self@, other@)
    }
}

impl<A: Author> Default for Version<A> {
    fn default() -> (r: Self)
        ensures
            r@ == Map::<A, AuthorIndex>::empty(),
    {
        Version::new()
    }
}

impl<A: Author, T> Chronofold<A, T> {
    /// Returns a vector clock representing the version of this chronofold.
    pub fn version(&self) -> (r: &Version<A>)
        ensures
            r@ == self@.version,
    {
        &self.version
    }

    /// Returns the ops that a replica at `version` has not seen, in log
    /// order: those of authors it does not know, and those with an index
    /// beyond what it has seen of their author.
    pub fn iter_newer_ops<'a, V: FromLocalValue<'a, A, T>>(
        &'a self,
        version: &Version<A>,
    ) -> (r: Vec<Op<A, V>>)
        requires
            self.wf(),
        ensures
            ({
                let newer = selected(
                    0,
                    self@.len(),
                    |i: int| self@.newer_than(version@, i),
                );
                &&& r.len() == newer.len()
                &&& forall|k: int|
                    0 <= k < r.len() ==> #[trigger] r[k] == self.op_at::<V>(newer[k])
            }),
    {
        let mut ops = self.iter_ops::<V>(IndexRange::full());
        let mut newer: Vec<Op<A, V>> = Vec::new();
        let ghost keep = |i: int| self@.newer_than(version@, i);
        loop
            invariant
                self.wf(),
                ops.wf(),
                ops.chronofold() == *self,
                0 <= ops.first() <= ops.last() == self@.len(),
                keep == (|i: int| self@.newer_than(version@, i)),
                newer.len() == selected(0, ops.first(), keep).len(),
                forall|k: int|
                    0 <= k < newer.len() ==> #[trigger] newer[k] == self.op_at::<V>(
                        selected(0, ops.first(), keep)[k],
                    ),
            ensures
                ops.first() == self@.len(),
            decreases ops.last() - ops.first(),
        {
            let ghost at = ops.first();
            match ops.next() {
                Some(op) => {
                    let unseen = match version.get(&op.id.author) {
                        Some(seen) => op.id.idx.0 > seen.0,
                        None => true,
                    };
                    proof {
                        assert(unseen == keep(at));
                    }
                    if unseen {
                        newer.push(op);
                    }
                },
                None => {
                    break ;
                },
            }
        }
        newer
    }
}

} // verus!
