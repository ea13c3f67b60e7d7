//! Where a new entry is woven in: lemmas on siblings, subtrees and
//! predecessors.
use vstd::prelude::*;

use crate::change::Change;
use crate::distributed::{Author, Timestamp};
use crate::model::Model;

verus! {

impl<A: Author, T> Model<A, T> {
    /// The last preempting entry of a sequence is one of its entries and
    /// preempts; where there is none, no entry of the sequence preempts.
    pub proof fn lemma_last_preempting(self, s: Seq<int>, reference: int, id: Timestamp<A>)
        ensures
            match self.last_preempting(s, reference, id) {
                Some(q) => s.contains(q) && self.preempts(q, reference, id),
                None => forall|k: int| 0 <= k < s.len() ==> !self.preempts(#[trigger] s[k], reference, id),
            },
        decreases s.len(),
    {
        if s.len() == 0 {
        } else if self.preempts(s.last(), reference, id) {
            assert(s[s.len() - 1] == s.last());
        } else {
            let front = s.drop_last();
            self.lemma_last_preempting(front, reference, id);
            match self.last_preempting(front, reference, id) {
                Some(q) => {
                    let k = choose|k: int| 0 <= k < front.len() && front[k] == q;
                    assert(s[k] == q);
                },
                None => {
                    assert forall|k: int| 0 <= k < s.len() implies !self.preempts(
                        #[trigger] s[k],
                        reference,
                        id,
                    ) by {
                        if k < s.len() - 1 {
                            assert(front[k] == s[k]);
                        }
                    }
                },
            }
        }
    }

    /// The last tombstone of a sequence is one of its entries and a
    /// tombstone of the reference.
    pub proof fn lemma_last_deleting(self, s: Seq<int>, reference: int)
        ensures
            match self.last_deleting(s, reference) {
                Some(q) => s.contains(q) && self.deletes(q, reference),
                None => forall|k: int| 0 <= k < s.len() ==> !self.deletes(#[trigger] s[k], reference),
            },
        decreases s.len(),
    {
        if s.len() == 0 {
        } else if self.deletes(s.last(), reference) {
            assert(s[s.len() - 1] == s.last());
        } else {
            let front = s.drop_last();
            self.lemma_last_deleting(front, reference);
            match self.last_deleting(front, reference) {
                Some(q) => {
                    let k = choose|k: int| 0 <= k < front.len() && front[k] == q;
                    assert(s[k] == q);
                },
                None => {
                    assert forall|k: int| 0 <= k < s.len() implies !self.deletes(
                        #[trigger] s[k],
                        reference,
                    ) by {
                        if k < s.len() - 1 {
                            assert(front[k] == s[k]);
                        }
                    }
                },
            }
        }
    }

    /// The members of a subtree among some entries are among those
    /// entries.
    pub proof fn lemma_subtree_of_members(self, s: Seq<int>, root: int)
        ensures
            forall|k: int|
                0 <= k < self.subtree_of(s, root).len() ==> s.contains(
                    #[trigger] self.subtree_of(s, root)[k],
                ),
        decreases s.len(),
    {
        if s.len() == 0 {
        } else {
            let front = s.drop_last();
            let before = self.subtree_of(front, root);
            self.lemma_subtree_of_members(front, root);
            assert forall|k: int| 0 <= k < self.subtree_of(s, root).len() implies s.contains(
                #[trigger] self.subtree_of(s, root)[k],
            ) by {
                if k < before.len() {
                    let x = before[k];
                    assert(front.contains(x));
                    let j = choose|j: int| 0 <= j < front.len() && front[j] == x;
                    assert(s[j] == x);
                } else {
                    assert(s[s.len() - 1] == s.last());
                }
            }
        }
    }

    /// The subtree of an entry among entries that hold it holds it too.
    pub proof fn lemma_subtree_of_holds_root(self, s: Seq<int>, root: int)
        requires
            s.contains(root),
        ensures
            self.subtree_of(s, root).contains(root),
        decreases s.len(),
    {
        let front = s.drop_last();
        let before = self.subtree_of(front, root);
        if s.last() == root {
            let after = before.push(root);
            assert(after[after.len() - 1] == root);
        } else {
            let k = choose|k: int| 0 <= k < s.len() && s[k] == root;
            assert(front[k] == root);
            self.lemma_subtree_of_holds_root(front, root);
            let j = choose|j: int| 0 <= j < before.len() && before[j] == root;
            assert(self.subtree_of(s, root)[j] == root);
        }
    }

    /// The causal order from an entry that is no root begins with the
    /// entry.
    pub proof fn lemma_causal_from_begins(self, i: int)
        requires
            0 <= i < self.len(),
            !(self.log[i] is Root),
        ensures
            self.causal_from(i).len() > 0,
            self.causal_from(i)[0] == i,
    {
        assert(self.walk(Some(i), None, self.log.len()) == seq![i] + self.walk(
            self.next(i),
            None,
            (self.log.len() - 1) as nat,
        ));
    }

    /// The subtree of an entry that is no root is not empty, and its
    /// members are entries of the log.
    pub proof fn lemma_subtree_in_log(self, root: int)
        requires
            0 <= root < self.len(),
            !(self.log[root] is Root),
        ensures
            self.subtree(root).len() > 0,
            forall|k: int|
                0 <= k < self.subtree(root).len() ==> 0 <= #[trigger] self.subtree(root)[k]
                    < self.len(),
    {
        let s = self.causal_from(root);
        self.lemma_causal_from_begins(root);
        assert(s.contains(root));
        self.lemma_subtree_of_holds_root(s, root);
        self.lemma_subtree_of_members(s, root);
        self.lemma_causal_in_log(self.skip_root(Some(root)), None);
        assert forall|k: int| 0 <= k < self.subtree(root).len() implies 0 <= #[trigger] self.subtree(
            root,
        )[k] < self.len() by {
            let x = self.subtree(root)[k];
            assert(s.contains(x));
            let j = choose|j: int| 0 <= j < s.len() && s[j] == x;
            assert(0 <= s[j] < self.len());
        }
    }

    /// A change that refers to an entry has a predecessor in the log; a
    /// change that refers to nothing has none.
    pub proof fn lemma_predecessor_in_log(
        self,
        id: Timestamp<A>,
        reference: Option<int>,
        change: Change<T>,
    )
        requires
            self.wf(),
            match reference {
                Some(r) => 0 <= r < self.len(),
                None => !(change is Delete),
            },
        ensures
            match self.predecessor(id, reference, change) {
                Some(p) => reference.is_some() && 0 <= p < self.len(),
                None => reference.is_none(),
            },
    {
        if change is Delete {
        } else if reference.is_none() {
        } else {
            let r = reference.unwrap();
            let s = self.causal_from(r);
            self.lemma_last_preempting(s, r, id);
            match self.last_preempting(s, r, id) {
                None => {},
                Some(q) => {
                    self.lemma_causal_in_log(self.skip_root(Some(r)), None);
                    let j = choose|j: int| 0 <= j < s.len() && s[j] == q;
                    assert(0 <= s[j] < self.len());
                    assert(self.entry_ok(q));
                    self.lemma_subtree_in_log(q);
                    let t = self.subtree(q);
                    assert(0 <= t[t.len() - 1] < self.len());
                },
            }
        }
    }

    /// The local predecessor of an entry is an entry.
    pub proof fn lemma_local_predecessor_in_log(self, reference: int)
        requires
            0 <= reference < self.len(),
        ensures
            0 <= self.local_predecessor(reference) < self.len(),
    {
        let s = self.causal(self.index_after(reference), None);
        self.lemma_last_deleting(s, reference);
        match self.last_deleting(s, reference) {
            Some(d) => {
                self.lemma_causal_in_log(self.index_after(reference), None);
                let j = choose|j: int| 0 <= j < s.len() && s[j] == d;
                assert(0 <= s[j] < self.len());
            },
            None => {},
        }
    }
}

} // verus!
