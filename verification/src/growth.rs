//! How a chronofold grows: what appending entries does to the streams, and
//! that it keeps the invariant.
use vstd::prelude::*;

use crate::change::Change;
use crate::costructures::{defaults_elided, spec_entry_written, INDEX_LIMIT};
use crate::distributed::{Author, Timestamp};
use crate::index::{AuthorIndex, IndexShift, LocalIndex};
use crate::model::{local_index, Model};
use crate::packing::{lemma_entry_written, lemma_run_written};
use crate::version::{dominates, version_inc};

verus! {

/// The weave after a run of `c` entries, the first of them at log index
/// `n`, was woven in behind the entry at place `k`.
pub open spec fn weave_with_run(weave: Seq<int>, k: int, n: int, c: int) -> Seq<int> {
    Seq::new(
        (n + c) as nat,
        |j: int|
            if j <= k {
                weave[j]
            } else if j <= k + c {
                n + (j - k - 1)
            } else {
                weave[j - c]
            },
    )
}

/// The places in the weave after a run of `c` entries, the first of them
/// at log index `n`, was woven in behind the entry at place `k`.
pub open spec fn place_with_run(place: Seq<int>, k: int, n: int, c: int) -> Seq<int> {
    Seq::new(
        (n + c) as nat,
        |i: int|
            if i >= n {
                k + 1 + (i - n)
            } else if place[i] <= k {
                place[i]
            } else {
                place[i] + c
            },
    )
}

impl<A: Author, T> Model<A, T> {
    /// The model of a new chronofold: a log that holds a root by `author`
    /// and nothing else.
    pub open spec fn initial(author: A) -> Self {
        Model {
            log: seq![Change::Root],
            packed: spec_entry_written(
                Map::empty(),
                LocalIndex(0),
                None,
                author.spec_as_usize(),
                IndexShift(0),
                None,
            ),
            version: version_inc(Map::empty(), Timestamp { idx: AuthorIndex(0), author }),
        }
    }

    /// A new chronofold meets the invariant, and its root carries the
    /// timestamp of index zero by its author.
    pub proof fn lemma_initial_wf(author: A)
        ensures
            Self::initial(author).wf(),
            Self::initial(author).timestamp(0) == (Timestamp { idx: AuthorIndex(0), author }),
    {
        let new = Self::initial(author);
        A::lemma_round_trip(author);
        lemma_entry_written(
            Map::empty(),
            LocalIndex(0),
            None,
            author.spec_as_usize(),
            IndexShift(0),
            None,
        );
        assert(new.entry_ok(0));
        assert forall|other: A| #[trigger] new.version.contains_key(other) implies new.version_attained(
            other,
        ) by {
            assert(new.attains(other, 0));
        }
        let weave = seq![0int];
        assert(new.linked(weave, 0));
        assert(new.woven(weave, weave));
    }

    /// Where the version held the index of an entry for every author it
    /// knew, it does so after an entry was appended and its timestamp
    /// seen.
    pub proof fn lemma_version_attained(self, new: Self, stamp: Timestamp<A>, at: int)
        requires
            forall|author: A| #[trigger]
                self.version.contains_key(author) ==> self.version_attained(author),
            new.version == version_inc(self.version, stamp),
            forall|i: int| 0 <= i < self.len() ==> #[trigger] new.timestamp(i) == self.timestamp(i),
            self.len() <= at < new.len(),
            new.timestamp(at) == stamp,
        ensures
            forall|author: A| #[trigger]
                new.version.contains_key(author) ==> new.version_attained(author),
    {
        assert forall|author: A| #[trigger] new.version.contains_key(author) implies new.version_attained(
            author,
        ) by {
            if new.version[author] == stamp.idx && author == stamp.author {
                assert(new.attains(author, at));
            } else {
                assert(self.version.contains_key(author));
                assert(self.version_attained(author));
                let i = choose|i: int| 0 <= i < self.len() && #[trigger] self.attains(author, i);
                assert(new.timestamp(i) == self.timestamp(i));
                assert(new.attains(author, i));
            }
        }
    }

    /// Whether `new` is `self` with a run of `c` entries, none of them a
    /// root, woven in behind entry `p`: `p` is followed by the run, and the
    /// run by what followed `p`.
    pub open spec fn grown_by_run(self, new: Self, p: int, c: int) -> bool {
        let n = self.len();
        &&& c >= 1
        &&& 0 <= p < n
        &&& new.len() == n + c
        &&& forall|i: int| 0 <= i < n ==> #[trigger] new.log[i] == self.log[i]
        &&& forall|i: int| n <= i < n + c ==> !(#[trigger] new.log[i] is Root)
        &&& forall|i: int| 0 <= i < n && i != p ==> #[trigger] new.next(i) == self.next(i)
        &&& new.next(p) == Some(n)
        &&& forall|i: int| n <= i < n + c - 1 ==> #[trigger] new.next(i) == Some(i + 1)
        &&& new.next(n + c - 1) == self.next(p)
    }

    /// Whether `new` is `self` with one more entry, a root, that starts a
    /// chain of its own.
    pub open spec fn grown_by_root(self, new: Self) -> bool {
        let n = self.len();
        &&& new.len() == n + 1
        &&& forall|i: int| 0 <= i < n ==> #[trigger] new.log[i] == self.log[i]
        &&& new.log[n] is Root
        &&& forall|i: int| 0 <= i < n ==> #[trigger] new.next(i) == self.next(i)
        &&& new.next(n).is_none()
    }

    /// A run woven in behind an entry takes its place in the weave behind
    /// that entry.
    pub proof fn lemma_woven_after_run(
        self,
        new: Self,
        p: int,
        c: int,
        weave: Seq<int>,
        place: Seq<int>,
    )
        requires
            self.woven(weave, place),
            self.grown_by_run(new, p, c),
        ensures
            new.woven(
                weave_with_run(weave, place[p], self.len(), c),
                place_with_run(place, place[p], self.len(), c),
            ),
    {
        let n = self.len();
        let k = place[p];
        assert(weave[k] == p);
        let w = weave_with_run(weave, k, n, c);
        let q = place_with_run(place, k, n, c);
        assert forall|j: int| 0 <= j < new.len() implies 0 <= #[trigger] w[j] < new.len()
            && q[w[j]] == j by {
            if j <= k {
                assert(place[weave[j]] == j);
            } else if j <= k + c {
            } else {
                assert(place[weave[j - c]] == j - c);
            }
        }
        assert forall|i: int| 0 <= i < new.len() implies 0 <= #[trigger] q[i] < new.len()
            && w[q[i]] == i by {
            if i < n {
                assert(weave[place[i]] == i);
            }
        }
        assert forall|j: int| 0 <= j < new.len() implies #[trigger] new.linked(w, j) by {
            if j < k {
                let x = weave[j];
                assert(place[x] == j);
                assert(self.linked(weave, j));
                assert(new.next(x) == self.next(x));
                assert(0 <= weave[j + 1] < n);
                assert(new.log[weave[j + 1]] == self.log[weave[j + 1]]);
            } else if j == k {
                assert(!(new.log[n] is Root));
            } else if j < k + c {
                let x = n + (j - k - 1);
                assert(new.next(x) == Some(x + 1));
                assert(!(new.log[x + 1] is Root));
            } else if j == k + c {
                assert(self.linked(weave, k));
                if k + 1 < n {
                    assert(0 <= weave[k + 1] < n);
                    assert(new.log[weave[k + 1]] == self.log[weave[k + 1]]);
                }
            } else {
                let x = weave[j - c];
                assert(place[x] == j - c);
                assert(self.linked(weave, j - c));
                assert(new.next(x) == self.next(x));
                if j - c + 1 < n {
                    assert(0 <= weave[j - c + 1] < n);
                    assert(new.log[weave[j - c + 1]] == self.log[weave[j - c + 1]]);
                }
            }
        }
        assert(new.woven(w, q));
    }

    /// A new root takes its place at the end of the weave.
    pub proof fn lemma_woven_after_root(self, new: Self, weave: Seq<int>, place: Seq<int>)
        requires
            self.len() > 0,
            self.woven(weave, place),
            self.grown_by_root(new),
        ensures
            exists|w: Seq<int>, q: Seq<int>| new.woven(w, q),
    {
        let n = self.len();
        let w = weave.push(n);
        let q = place.push(n);
        assert forall|j: int| 0 <= j < new.len() implies 0 <= #[trigger] w[j] < new.len()
            && q[w[j]] == j by {
            if j < n {
                assert(place[weave[j]] == j);
            }
        }
        assert forall|i: int| 0 <= i < new.len() implies 0 <= #[trigger] q[i] < new.len()
            && w[q[i]] == i by {
            if i < n {
                assert(weave[place[i]] == i);
            }
        }
        assert forall|j: int| 0 <= j < new.len() implies #[trigger] new.linked(w, j) by {
            if j < n {
                let x = weave[j];
                assert(self.linked(weave, j));
                assert(new.next(x) == self.next(x));
                if j + 1 < n {
                    assert(0 <= weave[j + 1] < n);
                    assert(new.log[weave[j + 1]] == self.log[weave[j + 1]]);
                }
            }
        }
        assert(new.woven(w, q));
    }

    /// Whether the log has room for `count` more entries.
    pub open spec fn has_room(self, count: int) -> bool {
        self.len() + count < INDEX_LIMIT && self.len() + count <= usize::MAX
    }

    /// Whether a change with timestamp `id`, attached to `reference`, can
    /// be applied: there is room for it, its timestamp is new and not
    /// ahead of the log, and it refers to an entry unless it is a root.
    pub open spec fn admits(self, id: Timestamp<A>, reference: Option<int>, change: Change<T>) -> bool {
        &&& self.has_room(1)
        &&& id.idx.0 <= self.len()
        &&& forall|i: int| 0 <= i < self.len() ==> #[trigger] self.timestamp(i) != id
        &&& match reference {
            Some(r) => 0 <= r < self.len() && !(change is Root),
            None => change is Root,
        }
    }

    /// Whether the entries of `self` have in `new` the reference, author
    /// and shift that they have in `self`.
    pub open spec fn keeps_entries(self, new: Self) -> bool {
        &&& forall|i: int| 0 <= i < self.len() ==> #[trigger] new.reference(i) == self.reference(i)
        &&& forall|i: int| 0 <= i < self.len() ==> #[trigger] new.author(i) == self.author(i)
        &&& forall|i: int| 0 <= i < self.len() ==> #[trigger] new.shift(i) == self.shift(i)
    }

    /// What applying a change does to the streams: the new entry carries
    /// the timestamp and the reference it was given and takes over the
    /// successor of its predecessor, whose successor it becomes; nothing
    /// else changes of the entries before it.
    pub proof fn lemma_change_applied_streams(
        self,
        id: Timestamp<A>,
        reference: Option<int>,
        change: Change<T>,
    )
        requires
            self.has_room(1),
            self.keys_bounded(),
            id.idx.0 <= self.len(),
            reference.is_some() ==> 0 <= reference.unwrap() < self.len(),
            match self.predecessor(id, reference, change) {
                Some(p) => 0 <= p < self.len() && (self.next(p).is_some() ==> 0 <= self.next(
                    p,
                ).unwrap() < self.len()),
                None => true,
            },
        ensures
            ({
                let new = self.change_applied(id, reference, change);
                let n = self.len();
                let predecessor = self.predecessor(id, reference, change);
                &&& forall|i: int|
                    0 <= i < n && Some(i) != predecessor ==> #[trigger] new.next(i) == self.next(
                        i,
                    )
                &&& predecessor.is_some() ==> new.next(predecessor.unwrap()) == Some(n)
                &&& new.next(n) == (match predecessor {
                    Some(p) => self.next(p),
                    None => None,
                })
                &&& self.keeps_entries(new)
                &&& new.reference(n) == reference
                &&& new.author(n) == Some(id.author)
                &&& new.shift(n) == Some(IndexShift((n - id.idx.0) as usize))
                &&& new.timestamp(n) == id
                &&& new.keys_bounded()
                &&& defaults_elided(self.packed) ==> defaults_elided(new.packed)
            }),
    {
        let n = self.len();
        let new = self.change_applied(id, reference, change);
        let predecessor = self.predecessor(id, reference, change);
        A::lemma_round_trip(id.author);
        lemma_entry_written(
            self.packed,
            LocalIndex(n as usize),
            local_index(predecessor),
            id.author.spec_as_usize(),
            IndexShift((n - id.idx.0) as usize),
            local_index(reference),
        );
        assert forall|i: int| 0 <= i < n && Some(i) != predecessor implies #[trigger] new.next(i)
            == self.next(i) by {
            let j = i as usize;
            assert(Some(LocalIndex(j)) != local_index(predecessor));
        }
        assert forall|i: int| 0 <= i < n implies #[trigger] new.reference(i) == self.reference(
            i,
        ) by {
            let j = i as usize;
            assert(j < n);
        }
        assert forall|i: int| 0 <= i < n implies #[trigger] new.author(i) == self.author(i) by {
            let j = i as usize;
            assert(j < n);
        }
        assert forall|i: int| 0 <= i < n implies #[trigger] new.shift(i) == self.shift(i) by {
            let j = i as usize;
            assert(j < n);
        }
    }

    /// Applying a change that the model admits keeps the invariant.
    pub proof fn lemma_change_applied_wf(
        self,
        id: Timestamp<A>,
        reference: Option<int>,
        change: Change<T>,
    )
        requires
            self.wf(),
            self.admits(id, reference, change),
        ensures
            self.change_applied(id, reference, change).wf(),
    {
        let n = self.len();
        let new = self.change_applied(id, reference, change);
        let predecessor = self.predecessor(id, reference, change);
        self.lemma_predecessor_in_log(id, reference, change);
        if predecessor.is_some() {
            assert(self.entry_ok(predecessor.unwrap()));
        }
        self.lemma_change_applied_streams(id, reference, change);
        assert forall|i: int| 0 <= i < new.len() implies #[trigger] new.entry_ok(i) by {
            if i < n {
                assert(self.entry_ok(i));
                assert(new.shift(i) == self.shift(i));
                assert(new.author(i) == self.author(i));
                assert(new.reference(i) == self.reference(i));
                assert(new.log[i] == self.log[i]);
                if Some(i) != predecessor {
                    assert(new.next(i) == self.next(i));
                }
            } else {
                assert(new.log[n] == change);
            }
        }
        assert forall|i: int, j: int| 0 <= i < j < new.len() implies #[trigger] new.timestamp(i)
            != #[trigger] new.timestamp(j) by {
            assert(new.shift(i) == self.shift(i));
            assert(new.author(i) == self.author(i));
            if j < n {
                assert(new.shift(j) == self.shift(j));
                assert(new.author(j) == self.author(j));
                assert(self.timestamp(i) != self.timestamp(j));
            } else {
                assert(self.timestamp(i) != id);
            }
        }
        assert forall|i: int| 0 <= i < n implies #[trigger] new.timestamp(i) == self.timestamp(
            i,
        ) by {
            assert(new.shift(i) == self.shift(i));
            assert(new.author(i) == self.author(i));
        }
        self.lemma_version_attained(new, id, n);
        self.lemma_weave_exists();
        let (weave, place) = self.some_weave();
        match predecessor {
            Some(p) => {
                assert(self.grown_by_run(new, p, 1));
                self.lemma_woven_after_run(new, p, 1, weave, place);
            },
            None => {
                assert(self.grown_by_root(new));
                self.lemma_woven_after_root(new, weave, place);
            },
        }
    }

    /// Whether `author` can append `changes` in one run behind
    /// `reference`: there is room for them, the reference is an entry, and
    /// no change is a root.
    pub open spec fn admits_run(self, reference: int, changes: Seq<Change<T>>) -> bool {
        &&& self.has_room(changes.len() as int)
        &&& 0 <= reference < self.len()
        &&& forall|j: int| 0 <= j < changes.len() ==> !(#[trigger] changes[j] is Root)
    }

    /// What a local run does to the streams: its entries carry their own
    /// log indices as timestamps, the first refers to the reference and
    /// each later one to the entry before it, the run is woven in behind
    /// the local predecessor, and nothing else changes of the entries
    /// before it.
    pub proof fn lemma_local_applied_streams(
        self,
        author: A,
        reference: int,
        changes: Seq<Change<T>>,
    )
        requires
            self.wf(),
            self.admits_run(reference, changes),
            changes.len() > 0,
        ensures
            ({
                let new = self.local_applied(author, reference, changes);
                let n = self.len();
                let c = changes.len() as int;
                let predecessor = self.local_predecessor(reference);
                &&& 0 <= predecessor < n
                &&& self.grown_by_run(new, predecessor, c)
                &&& self.keeps_entries(new)
                &&& new.reference(n) == Some(reference)
                &&& forall|i: int| n < i < n + c ==> #[trigger] new.reference(i) == Some(i - 1)
                &&& forall|i: int| n <= i < n + c ==> #[trigger] new.author(i) == Some(author)
                &&& forall|i: int|
                    n <= i < n + c ==> #[trigger] new.shift(i) == Some(IndexShift(0))
                &&& new.keys_bounded()
                &&& defaults_elided(new.packed)
            }),
    {
        let n = self.len();
        let c = changes.len() as int;
        let new = self.local_applied(author, reference, changes);
        let predecessor = self.local_predecessor(reference);
        self.lemma_local_predecessor_in_log(reference);
        assert(self.entry_ok(predecessor));
        A::lemma_round_trip(author);
        let first = LocalIndex(n as usize);
        let last = LocalIndex((n + c - 1) as usize);
        lemma_run_written(
            self.packed,
            first,
            last,
            LocalIndex(predecessor as usize),
            LocalIndex(reference as usize),
            author.spec_as_usize(),
        );
        assert forall|i: int| 0 <= i < n && i != predecessor implies #[trigger] new.next(i)
            == self.next(i) by {
            let j = i as usize;
            assert(Some(LocalIndex(j)) != Some(LocalIndex(predecessor as usize)));
        }
        assert forall|i: int| 0 <= i < n implies #[trigger] new.reference(i) == self.reference(
            i,
        ) by {
            let j = i as usize;
            assert(j < n);
        }
        assert forall|i: int| 0 <= i < n implies #[trigger] new.author(i) == self.author(i) by {
            let j = i as usize;
            assert(j < n);
        }
        assert forall|i: int| 0 <= i < n implies #[trigger] new.shift(i) == self.shift(i) by {
            let j = i as usize;
            assert(j < n);
        }
        assert forall|i: int| n <= i < n + c - 1 implies #[trigger] new.next(i) == Some(
            i + 1,
        ) by {
            let j = i as usize;
            assert(first.0 <= j < last.0);
        }
        assert forall|i: int| n < i < n + c implies #[trigger] new.reference(i) == Some(
            i - 1,
        ) by {
            let j = i as usize;
            assert(first.0 < j <= last.0);
        }
        assert forall|i: int| n <= i < n + c implies #[trigger] new.author(i) == Some(author) by {
            let j = i as usize;
            assert(first.0 <= j <= last.0);
        }
        assert forall|i: int| n <= i < n + c implies #[trigger] new.shift(i) == Some(
            IndexShift(0),
        ) by {
            let j = i as usize;
            assert(first.0 <= j <= last.0);
        }
        assert forall|i: int| 0 <= i < n implies #[trigger] new.log[i] == self.log[i] by {}
        assert forall|i: int| n <= i < n + c implies !(#[trigger] new.log[i] is Root) by {
            assert(new.log[i] == changes[i - n]);
        }
    }

    /// A local run that the model admits keeps the invariant.
    pub proof fn lemma_local_applied_wf(self, author: A, reference: int, changes: Seq<Change<T>>)
        requires
            self.wf(),
            self.admits_run(reference, changes),
        ensures
            self.local_applied(author, reference, changes).wf(),
    {
        if changes.len() > 0 {
            let n = self.len();
            let c = changes.len() as int;
            let new = self.local_applied(author, reference, changes);
            let predecessor = self.local_predecessor(reference);
            self.lemma_local_applied_streams(author, reference, changes);
            assert forall|i: int| 0 <= i < new.len() implies #[trigger] new.entry_ok(i) by {
                if i < n {
                    assert(self.entry_ok(i));
                    assert(new.shift(i) == self.shift(i));
                    assert(new.author(i) == self.author(i));
                    assert(new.reference(i) == self.reference(i));
                    assert(new.log[i] == self.log[i]);
                    if i != predecessor {
                        assert(new.next(i) == self.next(i));
                    }
                } else {
                    assert(new.shift(i) == Some(IndexShift(0)));
                    assert(new.author(i) == Some(author));
                    assert(!(new.log[i] is Root));
                    if i > n {
                        assert(new.reference(i) == Some(i - 1));
                    }
                    if i < n + c - 1 {
                        assert(new.next(i) == Some(i + 1));
                    } else {
                        assert(self.entry_ok(predecessor));
                    }
                }
            }
            assert forall|i: int, j: int| 0 <= i < j < new.len() implies #[trigger] new.timestamp(
                i,
            ) != #[trigger] new.timestamp(j) by {
                if j < n {
                    assert(new.shift(i) == self.shift(i));
                    assert(new.author(i) == self.author(i));
                    assert(new.shift(j) == self.shift(j));
                    assert(new.author(j) == self.author(j));
                    assert(self.timestamp(i) != self.timestamp(j));
                } else {
                    assert(new.shift(j) == Some(IndexShift(0)));
                    if i < n {
                        assert(self.entry_ok(i));
                        assert(new.shift(i) == self.shift(i));
                    } else {
                        assert(new.shift(i) == Some(IndexShift(0)));
                    }
                }
            }
            assert forall|i: int| 0 <= i < n implies #[trigger] new.timestamp(i)
                == self.timestamp(i) by {
                assert(new.shift(i) == self.shift(i));
                assert(new.author(i) == self.author(i));
            }
            let last = n + c - 1;
            assert(new.shift(last) == Some(IndexShift(0)));
            assert(new.author(last) == Some(author));
            self.lemma_version_attained(
                new,
                Timestamp { idx: AuthorIndex(last as usize), author },
                last,
            );
            self.lemma_weave_exists();
            let (weave, place) = self.some_weave();
            self.lemma_woven_after_run(new, predecessor, c, weave, place);
        }
    }

    /// Whether `new` is this chronofold with one more entry, which holds
    /// `change` with timestamp `id` and refers to `reference`.
    ///
    /// The entries that were there keep their change, reference, author,
    /// shift and timestamp, and their successor but for the predecessor of
    /// the new entry, whose successor the new entry becomes and whose
    /// former successor it takes over. The timestamp is found at the new
    /// entry, and the version has seen it and nothing less than before.
    pub open spec fn appended(
        self,
        new: Self,
        id: Timestamp<A>,
        reference: Option<int>,
        change: Change<T>,
    ) -> bool {
        let n = self.len();
        let predecessor = self.predecessor(id, reference, change);
        &&& new.len() == n + 1
        &&& new.log == self.log.push(change)
        &&& self.keeps_entries(new)
        &&& forall|i: int| 0 <= i < n ==> #[trigger] new.timestamp(i) == self.timestamp(i)
        &&& forall|i: int|
            0 <= i < n && Some(i) != predecessor ==> #[trigger] new.next(i) == self.next(i)
        &&& predecessor.is_some() ==> new.next(predecessor.unwrap()) == Some(n) && new.next(n)
            == self.next(predecessor.unwrap())
        &&& predecessor.is_none() ==> new.next(n).is_none()
        &&& new.timestamp(n) == id
        &&& new.reference(n) == reference
        &&& new.log_index(id) == Some(n)
        &&& new.version == version_inc(self.version, id)
        &&& new.version.contains_key(id.author)
        &&& new.version[id.author].0 >= id.idx.0
        &&& dominates(new.version, self.version)
    }

    /// Applying a change that the model admits appends it.
    pub proof fn lemma_change_applied_appended(
        self,
        id: Timestamp<A>,
        reference: Option<int>,
        change: Change<T>,
    )
        requires
            self.wf(),
            self.admits(id, reference, change),
        ensures
            self.appended(self.change_applied(id, reference, change), id, reference, change),
    {
        let n = self.len();
        let new = self.change_applied(id, reference, change);
        let predecessor = self.predecessor(id, reference, change);
        self.lemma_predecessor_in_log(id, reference, change);
        if predecessor.is_some() {
            assert(self.entry_ok(predecessor.unwrap()));
        }
        self.lemma_change_applied_streams(id, reference, change);
        self.lemma_change_applied_wf(id, reference, change);
        assert forall|i: int| 0 <= i < n implies #[trigger] new.timestamp(i) == self.timestamp(
            i,
        ) by {
            assert(new.shift(i) == self.shift(i));
            assert(new.author(i) == self.author(i));
        }
        new.lemma_log_index_of_timestamp(n);
    }

    /// Whether `new` is this chronofold with a run of `changes` by
    /// `author` appended behind `reference`.
    ///
    /// The entries that were there keep their change, reference, author,
    /// shift and timestamp, and their successor but for the local
    /// predecessor of the reference. Each entry of the run carries its log
    /// index and the author as its timestamp. The first refers to
    /// `reference`, each later one to the entry before it. The run follows
    /// the local predecessor, and what followed that follows the run.
    pub open spec fn run_appended(
        self,
        new: Self,
        author: A,
        reference: int,
        changes: Seq<Change<T>>,
    ) -> bool {
        let n = self.len();
        let c = changes.len() as int;
        let predecessor = self.local_predecessor(reference);
        &&& new.log == self.log + changes
        &&& self.keeps_entries(new)
        &&& forall|i: int| 0 <= i < n ==> #[trigger] new.timestamp(i) == self.timestamp(i)
        &&& forall|i: int| 0 <= i < n && i != predecessor ==> #[trigger] new.next(i) == self.next(i)
        &&& forall|i: int|
            n <= i < n + c ==> #[trigger] new.timestamp(i) == (Timestamp {
                idx: AuthorIndex(i as usize),
                author,
            })
        &&& forall|i: int| n < i < n + c ==> #[trigger] new.reference(i) == Some(i - 1)
        &&& forall|i: int| n <= i < n + c - 1 ==> #[trigger] new.next(i) == Some(i + 1)
        &&& c > 0 ==> {
            &&& new.reference(n) == Some(reference)
            &&& new.next(predecessor) == Some(n)
            &&& new.next(n + c - 1) == self.next(predecessor)
            &&& new.version == version_inc(
                self.version,
                Timestamp { idx: AuthorIndex((n + c - 1) as usize), author },
            )
            &&& new.version.contains_key(author)
            &&& new.version[author].0 >= n + c - 1
        }
        &&& c == 0 ==> new == self
        &&& dominates(new.version, self.version)
    }

    /// A local run that the model admits is appended.
    pub proof fn lemma_local_applied_appended(
        self,
        author: A,
        reference: int,
        changes: Seq<Change<T>>,
    )
        requires
            self.wf(),
            self.admits_run(reference, changes),
        ensures
            self.run_appended(
                self.local_applied(author, reference, changes),
                author,
                reference,
                changes,
            ),
    {
        let n = self.len();
        let new = self.local_applied(author, reference, changes);
        if changes.len() > 0 {
            self.lemma_local_applied_streams(author, reference, changes);
            assert forall|i: int| 0 <= i < n implies #[trigger] new.timestamp(i)
                == self.timestamp(i) by {
                assert(new.shift(i) == self.shift(i));
                assert(new.author(i) == self.author(i));
            }
            assert forall|i: int| n <= i < n + changes.len() implies #[trigger] new.timestamp(i) == (
            Timestamp { idx: AuthorIndex(i as usize), author }) by {
                assert(new.shift(i) == Some(IndexShift(0)));
                assert(new.author(i) == Some(author));
            }
        } else {
            assert(self.log + changes =~= self.log);
        }
    }
}

} // verus!
