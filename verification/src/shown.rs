//! What a tidy chronofold shows: the inserts without tombstone.
use vstd::prelude::*;

use crate::distributed::Author;
use crate::model::{IndexRange, Model};
use crate::order::{
    ahead_or_same, lemma_ahead_asymmetric, lemma_ahead_branch, lemma_between, Step,
};

verus! {

impl<A: Author, T> Model<A, T> {
    /// Whether the log holds a tombstone for entry `i`.
    pub open spec fn tombstoned(self, i: int) -> bool {
        exists|d: int| 0 <= d < self.len() && #[trigger] self.deletes(d, i)
    }

    /// Whether entry `i` is an insert without tombstone.
    pub open spec fn shown(self, i: int) -> bool {
        self.log[i] is Insert && !self.tombstoned(i)
    }

    /// In the canonical order a tombstone directly follows an insert
    /// exactly if the insert has a tombstone.
    pub proof fn lemma_tombstone_follows(self, weave: Seq<int>, place: Seq<int>, k: int)
        requires
            self.canonical_with(weave, place),
            0 <= k < self.len(),
            self.log[weave[k]] is Insert,
        ensures
            (k + 1 < self.len() && self.log[weave[k + 1]] is Delete) == self.tombstoned(weave[k]),
    {
        let x = weave[k];
        assert(place[x] == k);
        let tomb = Step::<A>::Tomb;
        if k + 1 < self.len() && self.log[weave[k + 1]] is Delete {
            let y = weave[k + 1];
            assert(place[y] == k + 1);
            assert(self.entry_ok(y));
            assert(self.entry_ok(0));
            assert(self.tidy_at(y));
            let r = self.reference(y).unwrap();
            assert(self.under(r, r));
            assert(self.under(y, r));
            self.lemma_under_behind(weave, place, y, r);
            self.lemma_path_shape(y);
            let common = self.path(r);
            assert(self.path(y) =~= common + seq![tomb]);
            if r != x {
                self.lemma_order_of_places(weave, place, r, x);
                self.lemma_order_of_places(weave, place, x, y);
                lemma_between(common, self.path(x), seq![tomb]);
                self.lemma_branch(x, r);
                let at = common.len() as int;
                let c = self.path(x)[at];
                self.lemma_path_stamps(x, at);
                let rest = self.path(x).skip(at + 1);
                lemma_ahead_branch(common, tomb, Seq::empty(), c, rest);
                assert(self.path(y) =~= common + seq![tomb] + Seq::<Step<A>>::empty());
                lemma_ahead_asymmetric(self.path(x), self.path(y));
            }
            assert(self.deletes(y, x));
        }
        if self.tombstoned(x) {
            let d = choose|d: int| 0 <= d < self.len() && #[trigger] self.deletes(d, x);
            assert(self.entry_ok(d));
            assert(self.under(x, x));
            assert(self.under(d, x));
            self.lemma_under_behind(weave, place, d, x);
            let z = weave[k + 1];
            assert(place[z] == k + 1);
            if !(self.log[z] is Delete) {
                let common = self.path(x);
                self.lemma_path_shape(d);
                assert(self.path(d) =~= common + seq![tomb]);
                self.lemma_order_of_places(weave, place, x, z);
                self.lemma_order_of_places(weave, place, z, d);
                lemma_between(common, self.path(z), seq![tomb]);
                self.lemma_branch(z, x);
                let at = common.len() as int;
                let c = self.path(z)[at];
                self.lemma_path_stamps(z, at);
                let rest = self.path(z).skip(at + 1);
                lemma_ahead_branch(common, tomb, Seq::empty(), c, rest);
                assert(self.path(d) =~= common + seq![tomb] + Seq::<Step<A>>::empty());
                lemma_ahead_asymmetric(self.path(z), self.path(d));
            }
        }
    }

    /// Behind the root of a tidy chronofold in canonical order, the
    /// entries that count as elements are the inserts without tombstone.
    pub proof fn lemma_visible_is_shown(self, weave: Seq<int>, place: Seq<int>, j: int)
        requires
            self.canonical_with(weave, place),
            0 <= j < self.len() - 1,
        ensures
            self.visible_at(weave.skip(1), j) == self.shown(weave[j + 1]),
    {
        let s = weave.skip(1);
        assert(s[j] == weave[j + 1]);
        if self.log[weave[j + 1]] is Insert {
            self.lemma_tombstone_follows(weave, place, j + 1);
            if j + 1 < s.len() {
                assert(s[j + 1] == weave[j + 2]);
            }
        }
    }

    /// An entry that counts as an element at its place is among the
    /// elements.
    pub proof fn lemma_visible_holds(self, s: Seq<int>, j: int)
        requires
            0 <= j < s.len(),
            self.visible_at(s, j),
        ensures
            self.visible(s).contains(s[j]),
        decreases s.len(),
    {
        let rest = s.drop_first();
        let shown_rest = self.visible(rest);
        if j == 0 {
            assert(self.visible(s)[0] == s[0]);
        } else {
            assert(rest[j - 1] == s[j]);
            if j < s.len() - 1 {
                assert(rest[j] == s[j + 1]);
            }
            assert(self.visible_at(rest, j - 1));
            self.lemma_visible_holds(rest, j - 1);
            let k = choose|k: int| 0 <= k < shown_rest.len() && shown_rest[k] == s[j];
            if self.visible_at(s, 0) {
                assert(self.visible(s)[k + 1] == s[j]);
            } else {
                assert(self.visible(s)[k] == s[j]);
            }
        }
    }

    /// Every element counts as an element at its place in the
    /// sequence.
    pub proof fn lemma_visible_from(self, s: Seq<int>, k: int)
        requires
            0 <= k < self.visible(s).len(),
        ensures
            exists|j: int| 0 <= j < s.len() && s[j] == self.visible(s)[k] && self.visible_at(s, j),
        decreases s.len(),
    {
        if s.len() > 0 {
            let rest = s.drop_first();
            let shown_rest = self.visible(rest);
            if self.visible_at(s, 0) && k == 0 {
                assert(s[0] == self.visible(s)[0]);
            } else {
                let m = if self.visible_at(s, 0) {
                    k - 1
                } else {
                    k
                };
                assert(self.visible(s)[k] == shown_rest[m]);
                self.lemma_visible_from(rest, m);
                let j = choose|j: int|
                    0 <= j < rest.len() && rest[j] == shown_rest[m] && self.visible_at(rest, j);
                assert(s[j + 1] == rest[j]);
                if j + 1 < rest.len() {
                    assert(rest[j + 1] == s[j + 2]);
                }
                assert(self.visible_at(s, j + 1));
            }
        }
    }

    /// The elements keep the order of the sequence that they are taken
    /// from: what holds of every two entries of the sequence, the earlier
    /// and the later, holds of every two elements.
    pub proof fn lemma_visible_keeps_order(self, s: Seq<int>, holds: spec_fn(int, int) -> bool)
        requires
            forall|i: int, j: int| 0 <= i < j < s.len() ==> holds(#[trigger] s[i], #[trigger] s[j]),
        ensures
            forall|a: int, b: int|
                0 <= a < b < self.visible(s).len() ==> holds(
                    #[trigger] self.visible(s)[a],
                    #[trigger] self.visible(s)[b],
                ),
        decreases s.len(),
    {
        if s.len() > 0 {
            let rest = s.drop_first();
            let shown_rest = self.visible(rest);
            assert forall|i: int, j: int| 0 <= i < j < rest.len() implies holds(
                #[trigger] rest[i],
                #[trigger] rest[j],
            ) by {
                assert(rest[i] == s[i + 1] && rest[j] == s[j + 1]);
            }
            self.lemma_visible_keeps_order(rest, holds);
            self.lemma_visible_members(rest);
            let whole = self.visible(s);
            assert forall|a: int, b: int| 0 <= a < b < whole.len() implies holds(
                #[trigger] whole[a],
                #[trigger] whole[b],
            ) by {
                if self.visible_at(s, 0) {
                    assert(whole == seq![s[0]] + shown_rest);
                    assert(whole[b] == shown_rest[b - 1]);
                    if a == 0 {
                        assert(rest.contains(shown_rest[b - 1]));
                        let j = choose|j: int| 0 <= j < rest.len() && rest[j] == shown_rest[b - 1];
                        assert(s[j + 1] == rest[j]);
                        assert(holds(s[0], s[j + 1]));
                    } else {
                        assert(whole[a] == shown_rest[a - 1]);
                    }
                } else {
                    assert(whole == shown_rest);
                }
            }
        }
    }

    /// The elements of a tidy chronofold in canonical order are the
    /// elements of its weave behind the root.
    pub proof fn lemma_elements_of_weave(self, weave: Seq<int>, place: Seq<int>)
        requires
            self.canonical_with(weave, place),
        ensures
            self.elements(IndexRange::full()) == self.visible(weave.skip(1)),
    {
        self.lemma_causal_from_weave(weave, place, 0);
        assert(weave[place[0]] == 0);
        assert(self.linked(weave, 0));
        assert(self.causal_range(IndexRange::full()) == self.causal_from(0));
    }

    /// In the canonical order of a tidy chronofold every entry is placed
    /// before the entries that follow it, and with a path that goes first
    /// or is the same.
    pub proof fn lemma_weave_in_order(self, weave: Seq<int>, place: Seq<int>)
        requires
            self.canonical_with(weave, place),
        ensures
            forall|i: int, j: int|
                0 <= i < j < self.len() - 1 ==> (#[trigger] weave.skip(1)[i]) != (
                #[trigger] weave.skip(1)[j]) && ahead_or_same(
                    self.path(weave.skip(1)[i]),
                    self.path(weave.skip(1)[j]),
                ),
    {
        let s = weave.skip(1);
        assert forall|i: int, j: int| 0 <= i < j < self.len() - 1 implies (#[trigger] s[i]) != (
        #[trigger] s[j]) && ahead_or_same(self.path(s[i]), self.path(s[j])) by {
            assert(s[i] == weave[i + 1] && s[j] == weave[j + 1]);
            assert(place[weave[i + 1]] == i + 1);
            assert(place[weave[j + 1]] == j + 1);
            assert(ahead_or_same(self.path(weave[i + 1]), self.path(weave[j + 1])));
        }
    }
}

} // verus!
