//! Which entries are elements: lemmas on tombstones in causal order.
use vstd::prelude::*;

use crate::distributed::Author;
use crate::model::Model;

verus! {

impl<A: Author, T> Model<A, T> {
    /// Tombstones at the beginning of a sequence are no elements.
    pub proof fn lemma_visible_deletes(self, t: Seq<int>, m: int)
        requires
            0 <= m <= t.len(),
            forall|j: int| 0 <= j < m ==> self.log[#[trigger] t[j]] is Delete,
        ensures
            self.visible(t) == self.visible(t.skip(m)),
        decreases m,
    {
        if m == 0 {
            assert(t.skip(0) =~= t);
        } else {
            let rest = t.drop_first();
            assert(self.log[t[0]] is Delete);
            assert(!self.visible_at(t, 0));
            assert forall|j: int| 0 <= j < m - 1 implies self.log[#[trigger] rest[j]] is Delete by {
                assert(rest[j] == t[j + 1]);
            }
            self.lemma_visible_deletes(rest, m - 1);
            assert(rest.skip(m - 1) =~= t.skip(m));
        }
    }

    /// The first entry of a sequence is an element exactly if it is an
    /// insert that no tombstone follows; the tombstones that follow it are
    /// no elements.
    pub proof fn lemma_visible_skip(self, s: Seq<int>, m: int)
        requires
            0 <= m < s.len(),
            forall|j: int| 1 <= j <= m ==> self.log[#[trigger] s[j]] is Delete,
            1 + m < s.len() ==> !(self.log[s[1 + m]] is Delete),
        ensures
            self.visible(s) == (if m == 0 && self.log[s[0]] is Insert {
                seq![s[0]]
            } else {
                Seq::<int>::empty()
            }) + self.visible(s.skip(1 + m)),
    {
        let rest = s.drop_first();
        assert forall|j: int| 0 <= j < m implies self.log[#[trigger] rest[j]] is Delete by {
            assert(rest[j] == s[j + 1]);
        }
        self.lemma_visible_deletes(rest, m);
        assert(rest.skip(m) =~= s.skip(1 + m));
        if m > 0 {
            assert(self.log[s[1]] is Delete);
        }
        if self.visible_at(s, 0) {
            assert(self.visible(s) == seq![s[0]] + self.visible(rest));
        } else {
            assert(self.visible(s) == self.visible(rest));
            assert(Seq::<int>::empty() + self.visible(rest) =~= self.visible(rest));
        }
    }

    /// Every element of a sequence is one of its entries, and an insert.
    pub proof fn lemma_visible_members(self, s: Seq<int>)
        ensures
            forall|k: int|
                0 <= k < self.visible(s).len() ==> s.contains(#[trigger] self.visible(s)[k])
                    && self.log[self.visible(s)[k]] is Insert,
            self.visible(s).len() <= s.len(),
        decreases s.len(),
    {
        if s.len() > 0 {
            let rest = s.drop_first();
            self.lemma_visible_members(rest);
            let v = self.visible(s);
            let w = self.visible(rest);
            assert forall|k: int| 0 <= k < v.len() implies s.contains(#[trigger] v[k])
                && self.log[v[k]] is Insert by {
                if self.visible_at(s, 0) {
                    assert(v == seq![s[0]] + w);
                    if k == 0 {
                        assert(s[0] == v[0]);
                    } else {
                        assert(v[k] == w[k - 1]);
                        let j = choose|j: int| 0 <= j < rest.len() && rest[j] == w[k - 1];
                        assert(s[j + 1] == v[k]);
                    }
                } else {
                    assert(v == w);
                    let j = choose|j: int| 0 <= j < rest.len() && rest[j] == w[k];
                    assert(s[j + 1] == v[k]);
                }
            }
        }
    }
}

} // verus!
