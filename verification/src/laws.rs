//! What holds of every chronofold, whatever was applied to it.
use vstd::prelude::*;

use crate::change::Change;
use crate::costructures::defaults_elided;
use crate::distributed::{Author, Timestamp};
use crate::model::{Model, Verdict};

verus! {

impl<A: Author, T> Model<A, T> {
    /// An operation that is applied is accepted with a reference in the
    /// log: the model admits its change.
    pub proof fn lemma_known_is_admitted(
        self,
        id: Timestamp<A>,
        reference: Option<Timestamp<A>>,
        change: Change<T>,
    )
        requires
            self.wf(),
            self.has_room(1),
            self.verdict(id, reference) is Known,
            (change is Root) == reference.is_none(),
        ensures
            self.admits(id, self.verdict(id, reference)->Known_0, change),
    {
        self.lemma_log_index_none(id);
        if reference.is_some() {
            self.lemma_log_index_some(reference.unwrap());
        }
    }

    /// Applying is idempotent: once an operation was applied, the log
    /// holds its timestamp, so the same operation is turned away as
    /// existing from then on, which leaves the chronofold as it is.
    pub proof fn law_applied_op_exists(
        self,
        id: Timestamp<A>,
        reference: Option<Timestamp<A>>,
        change: Change<T>,
    )
        requires
            self.wf(),
            self.has_room(1),
            self.verdict(id, reference) is Known,
            (change is Root) == reference.is_none(),
        ensures
            self.change_applied(id, self.verdict(id, reference)->Known_0, change).verdict(
                id,
                reference,
            ) == Verdict::Existing,
    {
        let target = self.verdict(id, reference)->Known_0;
        let new = self.change_applied(id, target, change);
        self.lemma_known_is_admitted(id, reference, change);
        self.lemma_predecessor_in_log(id, target, change);
        if self.predecessor(id, target, change).is_some() {
            assert(self.entry_ok(self.predecessor(id, target, change).unwrap()));
        }
        self.lemma_change_applied_streams(id, target, change);
        new.lemma_first_with_timestamp(id, id.idx.0 as int);
        assert(new.timestamp(self.len()) == id);
    }

    /// The log only grows: applying a change appends one entry, and the
    /// entries that were there keep their change, reference, author,
    /// shift and timestamp.
    pub proof fn law_append_only(self, id: Timestamp<A>, reference: Option<int>, change: Change<T>)
        requires
            self.wf(),
            self.admits(id, reference, change),
        ensures
            ({
                let new = self.change_applied(id, reference, change);
                &&& new.len() == self.len() + 1
                &&& forall|i: int| 0 <= i < self.len() ==> #[trigger] new.log[i] == self.log[i]
                &&& self.keeps_entries(new)
                &&& forall|i: int|
                    0 <= i < self.len() ==> #[trigger] new.timestamp(i) == self.timestamp(i)
            }),
    {
        let new = self.change_applied(id, reference, change);
        self.lemma_predecessor_in_log(id, reference, change);
        if self.predecessor(id, reference, change).is_some() {
            assert(self.entry_ok(self.predecessor(id, reference, change).unwrap()));
        }
        self.lemma_change_applied_streams(id, reference, change);
        assert forall|i: int| 0 <= i < self.len() implies #[trigger] new.timestamp(i)
            == self.timestamp(i) by {
            assert(new.shift(i) == self.shift(i));
            assert(new.author(i) == self.author(i));
        }
    }

    /// The log only grows under local runs too: a run appends its
    /// changes, and the entries that were there keep their change,
    /// reference, author, shift and timestamp.
    pub proof fn law_append_only_run(self, author: A, reference: int, changes: Seq<Change<T>>)
        requires
            self.wf(),
            self.admits_run(reference, changes),
        ensures
            ({
                let new = self.local_applied(author, reference, changes);
                &&& new.log == self.log + changes
                &&& self.keeps_entries(new)
                &&& forall|i: int|
                    0 <= i < self.len() ==> #[trigger] new.timestamp(i) == self.timestamp(i)
            }),
    {
        let new = self.local_applied(author, reference, changes);
        if changes.len() > 0 {
            self.lemma_local_applied_streams(author, reference, changes);
            assert forall|i: int| 0 <= i < self.len() implies #[trigger] new.timestamp(i)
                == self.timestamp(i) by {
                assert(new.shift(i) == self.shift(i));
                assert(new.author(i) == self.author(i));
            }
        } else {
            assert(self.log + changes =~= self.log);
        }
    }

    /// The causal walk from any entry to any stop ends, and visits no
    /// entry twice.
    pub proof fn law_causal_walk_visits_once(self, from: Option<int>, stop: Option<int>)
        requires
            self.wf(),
        ensures
            self.causal(from, stop).no_duplicates(),
            self.causal(from, stop).len() <= self.len(),
            forall|k: int|
                0 <= k < self.causal(from, stop).len() ==> 0 <= #[trigger] self.causal(
                    from,
                    stop,
                )[k] < self.len(),
    {
        self.lemma_causal_no_duplicates(from, stop);
        self.lemma_walk_length(from, stop, self.log.len());
        self.lemma_causal_in_log(from, stop);
    }

    /// In a chronofold with one root, a walk from a place of the weave
    /// visits all that follows in the weave.
    pub proof fn lemma_single_chain(self, weave: Seq<int>, place: Seq<int>, k: int, fuel: nat)
        requires
            self.woven(weave, place),
            forall|i: int| 0 < i < self.len() ==> !(#[trigger] self.log[i] is Root),
            0 <= k < self.len(),
            fuel >= self.len() - k,
        ensures
            self.walk(Some(weave[k]), None, fuel).len() == self.len() - k,
        decreases self.len() - k,
    {
        let c = weave[k];
        assert(self.linked(weave, k));
        assert(place[weave[0]] == 0);
        assert(self.walk(Some(c), None, fuel) == seq![c] + self.walk(
            self.next(c),
            None,
            (fuel - 1) as nat,
        ));
        if k + 1 < self.len() {
            assert(place[weave[k + 1]] == k + 1);
            if self.next(c).is_none() {
                assert(self.log[weave[k + 1]] is Root);
                assert(weave[k + 1] == 0);
            }
            self.lemma_single_chain(weave, place, k + 1, (fuel - 1) as nat);
        } else {
            assert(self.walk(None, None, (fuel - 1) as nat) == Seq::<int>::empty());
        }
    }

    /// In a chronofold with one root, the causal walk from the root
    /// visits every entry of the log, and each one once.
    pub proof fn law_causal_walk_visits_all(self)
        requires
            self.wf(),
            forall|i: int| 0 < i < self.len() ==> !(#[trigger] self.log[i] is Root),
        ensures
            self.causal(Some(0), None).len() == self.len(),
            self.causal(Some(0), None).no_duplicates(),
            forall|i: int| 0 <= i < self.len() ==> self.causal(Some(0), None).contains(i),
    {
        self.lemma_weave_exists();
        let (weave, place) = self.some_weave();
        let walk = self.causal(Some(0), None);
        self.lemma_single_chain(weave, place, 0, self.log.len());
        self.lemma_walk_follows_weave(weave, place, 0, None, self.log.len());
        self.lemma_causal_no_duplicates(Some(0), None);
        assert(place[weave[0]] == 0);
        assert forall|i: int| 0 <= i < self.len() implies walk.contains(i) by {
            assert(weave[place[i]] == i);
            assert(walk[place[i]] == i);
        }
    }

    /// Timestamps and log indices determine each other: the entry
    /// found for the timestamp of an entry is that entry.
    pub proof fn law_log_index_inverts_timestamp(self, i: int)
        requires
            self.wf(),
            0 <= i < self.len(),
        ensures
            self.log_index(self.timestamp(i)) == Some(i),
            self.timestamp(self.log_index(self.timestamp(i)).unwrap()) == self.timestamp(i),
    {
        self.lemma_log_index_of_timestamp(i);
    }

    /// The packed streams are compact: a successor or a reference that is
    /// the default for its index is not stored, so chronofolds that hold
    /// the same successors and references hold them in the same way.
    pub proof fn law_defaults_not_stored(self)
        requires
            self.wf(),
        ensures
            defaults_elided(self.packed),
    {
    }

    /// The version has seen every entry of the log: it knows the author
    /// of each, and an index of that author that is not below the
    /// entry's.
    pub proof fn law_version_has_seen(self, i: int)
        requires
            self.wf(),
            0 <= i < self.len(),
        ensures
            self.version.contains_key(self.timestamp(i).author),
            self.version[self.timestamp(i).author].0 >= self.timestamp(i).idx.0,
    {
        assert(self.entry_ok(i));
    }
}

} // verus!
