//! Changes keep the canonical order: where the placement puts an entry is
//! where its path belongs.
use vstd::prelude::*;

use crate::change::Change;
use crate::distributed::{Author, Timestamp};
use crate::model::Model;
use crate::order::{
    ahead, ahead_or_same, first, lemma_ahead_asymmetric, lemma_ahead_branch,
    lemma_ahead_extend_left, lemma_ahead_extend_right, lemma_ahead_of_extension,
    lemma_first_total, lemma_first_transitive, Step,
};

verus! {

impl<A: Author, T> Model<A, T> {
    /// Whether the chronofold is tidy, meets the invariant, and `weave` is
    /// its weave, in the order of the paths.
    pub open spec fn canonical_with(self, weave: Seq<int>, place: Seq<int>) -> bool {
        &&& self.wf()
        &&& self.tidy()
        &&& self.woven(weave, place)
        &&& self.sorted_by_path(weave)
    }

    /// Where the weave starts that follows entry `r`: the walk from a root
    /// steps over the root.
    pub open spec fn walk_start(self, place: Seq<int>, r: int) -> int {
        if r == 0 {
            1
        } else {
            place[r]
        }
    }

    /// A tidy chronofold has no root but its first entry.
    pub proof fn lemma_one_root(self)
        requires
            self.tidy(),
        ensures
            forall|i: int| 0 < i < self.len() ==> !(#[trigger] self.log[i] is Root),
    {
        assert forall|i: int| 0 < i < self.len() implies !(#[trigger] self.log[i] is Root) by {
            assert(self.tidy_at(i));
        }
    }

    /// The causal order from an entry is what follows in the weave.
    pub proof fn lemma_causal_from_weave(self, weave: Seq<int>, place: Seq<int>, r: int)
        requires
            self.canonical_with(weave, place),
            0 <= r < self.len(),
        ensures
            self.causal_from(r) == weave.skip(self.walk_start(place, r)),
            place[0] == 0,
            r != 0 ==> place[r] > 0,
    {
        self.lemma_one_root();
        self.lemma_plain_weave(weave, place, r);
        self.lemma_plain_weave(weave, place, 0);
        assert(weave[place[r]] == r);
        if r == 0 {
            self.lemma_causal_step(0, None);
            assert(weave.skip(0) =~= weave);
            assert(self.causal(self.next(0), None) =~= weave.skip(1)) by {
                let whole = self.causal(Some(0), None);
                let rest = self.causal(self.next(0), None);
                assert(whole == seq![0int] + rest);
                assert forall|k: int| 0 <= k < rest.len() implies rest[k] == weave.skip(1)[k] by {
                    assert(whole[k + 1] == rest[k]);
                }
            }
        } else {
            assert(!(self.log[r] is Root));
        }
    }

    /// The entry through which entry `x`, whose path continues that of
    /// `r`, refers to `r`.
    pub open spec fn branch(self, x: int, r: int) -> int {
        self.ancestor_at(x, self.path(r).len() as int + 1)
    }

    /// The branch of an entry whose path continues that of `r` refers to
    /// `r`, has the entry under it, and is reached from `r` by the step
    /// with which the path of the entry continues that of `r`.
    pub proof fn lemma_branch(self, x: int, r: int)
        requires
            self.wf(),
            self.tidy(),
            0 <= x < self.len(),
            0 <= r < self.len(),
            self.path(r).is_prefix_of(self.path(x)),
            x != r,
            !(self.log[r] is Delete),
        ensures
            ({
                let b = self.branch(x, r);
                let common = self.path(r);
                let k = common.len() as int;
                &&& 0 < b <= x
                &&& k < self.path(x).len()
                &&& self.reference(b) == Some(r)
                &&& self.step(b) == self.path(x)[k]
                &&& self.path(b) == common.push(self.path(x)[k])
                &&& self.under(x, b)
                &&& self.under(b, r)
                &&& self.path(x) == common + seq![self.path(x)[k]] + self.path(x).skip(k + 1)
            }),
    {
        let common = self.path(r);
        let long = self.path(x);
        let k = common.len() as int;
        self.lemma_path_shape(r);
        if common.len() == long.len() {
            assert(long.subrange(0, k) =~= long);
            self.lemma_path_identifies(r, x);
        }
        self.lemma_ancestor_at(x, k + 1);
        let b = self.branch(x, r);
        self.lemma_path_shape(b);
        assert(self.entry_ok(b));
        assert(self.entry_ok(0));
        assert(self.path(b) =~= common.push(long[k])) by {
            assert forall|i: int| 0 <= i < k implies long.take(k + 1)[i] == common[i] by {
                assert(common[i] == long.subrange(0, k)[i]);
            }
        }
        assert(self.path(b).last() == long[k]);
        if self.reference(b).is_none() {
            assert(self.path(b).len() == 1);
        } else {
            let parent = self.reference(b).unwrap();
            assert(self.tidy_at(b));
            assert(self.path(parent) =~= common) by {
                assert(self.path(b).drop_last() =~= self.path(parent));
                assert(common.push(long[k]).drop_last() =~= common);
            }
            self.lemma_path_identifies(parent, r);
            assert(self.under(r, r));
        }
        assert(long =~= common + seq![long[k]] + long.skip(k + 1));
    }

    /// An entry that refers to `r` preempts an insert with timestamp `id`
    /// exactly if its step goes before the step of the insert.
    pub proof fn lemma_preempts_is_first(self, b: int, r: int, id: Timestamp<A>)
        requires
            self.reference(b) == Some(r),
        ensures
            self.preempts(b, r, id) == first(self.step(b), Step::Stamp(id)),
    {
    }

    /// Where an insert is put behind a sibling's subtree, the sibling
    /// preempts it and follows what both refer to, and the predecessor is
    /// under the sibling.
    pub proof fn lemma_predecessor_behind_sibling(
        self,
        weave: Seq<int>,
        place: Seq<int>,
        id: Timestamp<A>,
        r: int,
        change: Change<T>,
    )
        requires
            self.canonical_with(weave, place),
            0 <= r < self.len(),
            change is Insert,
            self.last_preempting(self.causal_from(r), r, id).is_some(),
        ensures
            ({
                let q = self.last_preempting(self.causal_from(r), r, id).unwrap();
                let p = self.predecessor(id, Some(r), change);
                &&& 0 < q < self.len()
                &&& self.preempts(q, r, id)
                &&& p.is_some()
                &&& 0 <= p.unwrap() < self.len()
                &&& self.under(p.unwrap(), q)
                &&& self.under(q, r)
                &&& self.under(p.unwrap(), r)
                &&& place[p.unwrap()] >= place[q]
                &&& place[q] > place[r]
            }),
    {
        let s = self.causal_from(r);
        self.lemma_causal_from_weave(weave, place, r);
        self.lemma_last_preempting(s, r, id);
        let q = self.last_preempting(s, r, id).unwrap();
        let i = choose|i: int| 0 <= i < s.len() && s[i] == q;
        assert(s[i] == weave[self.walk_start(place, r) + i]);
        assert(self.entry_ok(q));
        assert(self.entry_ok(0));
        assert(self.tidy_at(q));
        self.lemma_causal_from_weave(weave, place, q);
        let sq = self.causal_from(q);
        self.lemma_subtree_in_log(q);
        self.lemma_subtree_sound(sq, q);
        let t = self.subtree(q);
        let p = t.last();
        assert(t[t.len() - 1] == p);
        self.lemma_subtree_of_members(sq, q);
        assert(sq.contains(t[t.len() - 1]));
        let j = choose|j: int| 0 <= j < sq.len() && sq[j] == p;
        assert(sq[j] == weave[place[q] + j]);
        assert(place[weave[place[q] + j]] == place[q] + j);
        assert(self.under(r, r));
        assert(self.under(q, r));
        self.lemma_under_transitive(p, q, r);
        self.lemma_under_behind(weave, place, q, r);
    }

    /// Where an insert is put behind a sibling's subtree, no entry under
    /// the sibling is placed behind the predecessor.
    pub proof fn lemma_predecessor_closes_subtree(
        self,
        weave: Seq<int>,
        place: Seq<int>,
        id: Timestamp<A>,
        r: int,
        change: Change<T>,
        x: int,
    )
        requires
            self.canonical_with(weave, place),
            0 <= r < self.len(),
            change is Insert,
            self.last_preempting(self.causal_from(r), r, id).is_some(),
            0 <= x < self.len(),
            self.under(x, self.last_preempting(self.causal_from(r), r, id).unwrap()),
        ensures
            place[x] <= place[self.predecessor(id, Some(r), change).unwrap()],
    {
        self.lemma_predecessor_behind_sibling(weave, place, id, r, change);
        let q = self.last_preempting(self.causal_from(r), r, id).unwrap();
        self.lemma_causal_from_weave(weave, place, q);
        let sq = weave.skip(place[q]);
        if x != q {
            self.lemma_under_behind(weave, place, x, q);
        }
        let j = place[x] - place[q];
        assert(weave[place[x]] == x);
        self.lemma_subtree_complete(weave, place, q, j);
        self.lemma_subtree_grows(sq, q, j + 1, x);
        assert(sq.no_duplicates()) by {
            assert forall|a: int, b: int| 0 <= a < sq.len() && 0 <= b < sq.len() && a != b implies sq[a]
                != sq[b] by {
                assert(place[weave[place[q] + a]] == place[q] + a);
                assert(place[weave[place[q] + b]] == place[q] + b);
            }
        }
        assert(sq[j] == x);
        self.lemma_subtree_last(sq, q, j);
        let k = choose|k: int| j <= k < sq.len() && sq[k] == self.subtree_of(sq, q).last();
        assert(place[weave[place[q] + k]] == place[q] + k);
    }

    /// A sibling that preempts an insert is not placed behind the last
    /// one that does.
    pub proof fn lemma_preempting_before_last(
        self,
        weave: Seq<int>,
        place: Seq<int>,
        id: Timestamp<A>,
        r: int,
        b: int,
    )
        requires
            self.canonical_with(weave, place),
            0 <= r < self.len(),
            0 <= b < self.len(),
            self.preempts(b, r, id),
        ensures
            self.last_preempting(self.causal_from(r), r, id).is_some(),
            place[b] <= place[self.last_preempting(self.causal_from(r), r, id).unwrap()],
    {
        let s = self.causal_from(r);
        self.lemma_causal_from_weave(weave, place, r);
        assert(self.entry_ok(b));
        assert(self.under(r, r));
        assert(self.under(b, r));
        self.lemma_under_behind(weave, place, b, r);
        let start = self.walk_start(place, r);
        let j = place[b] - start;
        assert(weave[place[b]] == b);
        assert(s[j] == b);
        self.lemma_last_preempting_last(s, r, id, j);
        let k = choose|k: int|
            j <= k < s.len() && s[k] == self.last_preempting(s, r, id).unwrap() && self.preempts(
                s[k],
                r,
                id,
            );
        assert(place[weave[start + k]] == start + k);
    }

    /// Whether a new entry can take the step `new_step`: the step of a
    /// tombstone, or that of a timestamp that no entry carries.
    pub open spec fn fresh(self, new_step: Step<A>) -> bool {
        match new_step {
            Step::Tomb => true,
            Step::Stamp(id) => forall|i: int|
                0 <= i < self.len() ==> #[trigger] self.timestamp(i) != id,
        }
    }

    /// How the path of an entry compares with the path of a new entry
    /// that refers to `r`: entries placed before `r` go first, `r` itself
    /// goes first, entries behind `r` whose paths do not continue that of
    /// `r` go last, and of the others those go first whose branch has the
    /// step that goes first. The tombstones of `r` have the path of a new
    /// tombstone.
    pub proof fn lemma_compare_with_new_child(
        self,
        weave: Seq<int>,
        place: Seq<int>,
        new_step: Step<A>,
        r: int,
        x: int,
    )
        requires
            self.canonical_with(weave, place),
            0 <= r < self.len(),
            0 <= x < self.len(),
            !(self.log[r] is Delete),
            self.fresh(new_step),
        ensures
            ({
                let new_path = self.path(r).push(new_step);
                let mine = self.path(x);
                let continues = self.path(r).is_prefix_of(mine);
                &&& place[x] <= place[r] ==> ahead(mine, new_path)
                &&& place[x] > place[r] ==> x != r
                &&& place[x] > place[r] && !continues ==> ahead(new_path, mine)
                    && !new_path.is_prefix_of(mine)
                &&& place[x] > place[r] && continues && self.step(self.branch(x, r)) == new_step
                    ==> mine == new_path && new_step is Tomb
                &&& place[x] > place[r] && continues && self.step(self.branch(x, r)) != new_step
                    ==> ahead(mine, new_path) == first(self.step(self.branch(x, r)), new_step)
                    && ahead(new_path, mine) == first(new_step, self.step(self.branch(x, r)))
                    && !new_path.is_prefix_of(mine)
            }),
    {
        let common = self.path(r);
        let new_path = common.push(new_step);
        let mine = self.path(x);
        assert(new_path =~= common + seq![new_step]);
        assert(weave[place[x]] == x);
        assert(weave[place[r]] == r);
        self.lemma_order_of_places(weave, place, x, r);
        self.lemma_order_of_places(weave, place, r, x);
        if x == r {
            lemma_ahead_of_extension(common, seq![new_step]);
        } else if place[x] < place[r] {
            if mine == common {
                self.lemma_path_identifies(r, x);
            }
            lemma_ahead_extend_right(mine, common, seq![new_step]);
        } else {
            if mine == common {
                self.lemma_path_identifies(r, x);
            }
            if common.is_prefix_of(mine) {
                self.lemma_branch(x, r);
                let b = self.branch(x, r);
                let c = self.step(b);
                let k = common.len() as int;
                let rest = mine.skip(k + 1);
                if c == new_step {
                    match new_step {
                        Step::Tomb => {
                            if rest.len() > 0 {
                                self.lemma_path_stamps(x, k);
                            }
                            assert(mine =~= new_path);
                        },
                        Step::Stamp(id) => {
                            assert(self.timestamp(b) != id);
                        },
                    }
                } else {
                    lemma_first_total(c, new_step);
                    lemma_ahead_branch(common, c, rest, new_step, Seq::empty());
                    lemma_ahead_branch(common, new_step, Seq::empty(), c, rest);
                    assert(new_path =~= common + seq![new_step] + Seq::<Step<A>>::empty());
                }
            } else {
                lemma_ahead_extend_left(common, mine, seq![new_step]);
            }
        }
    }

    /// Where the placement puts an insert is where its path belongs: the
    /// entries up to the predecessor go before the new path, the entries
    /// behind the predecessor go behind it.
    pub proof fn lemma_insert_placement(
        self,
        weave: Seq<int>,
        place: Seq<int>,
        id: Timestamp<A>,
        r: int,
        change: Change<T>,
        x: int,
    )
        requires
            self.canonical_with(weave, place),
            0 <= r < self.len(),
            !(self.log[r] is Delete),
            change is Insert,
            forall|i: int| 0 <= i < self.len() ==> #[trigger] self.timestamp(i) != id,
            0 <= x < self.len(),
        ensures
            ({
                let p = self.predecessor(id, Some(r), change);
                let new_path = self.path(r).push(Step::Stamp(id));
                &&& p.is_some()
                &&& 0 <= p.unwrap() < self.len()
                &&& place[x] <= place[p.unwrap()] ==> ahead(self.path(x), new_path)
                &&& place[x] > place[p.unwrap()] ==> ahead(new_path, self.path(x))
                    && !new_path.is_prefix_of(self.path(x))
            }),
    {
        let common = self.path(r);
        let new_step = Step::Stamp(id);
        let new_path = common.push(new_step);
        let mine = self.path(x);
        let s = self.causal_from(r);
        let last = self.last_preempting(s, r, id);
        let p = self.predecessor(id, Some(r), change).unwrap();
        let k = common.len() as int;
        self.lemma_compare_with_new_child(weave, place, new_step, r, x);
        lemma_ahead_asymmetric(mine, new_path);
        if last.is_some() {
            self.lemma_predecessor_behind_sibling(weave, place, id, r, change);
        }
        if place[x] > place[r] && common.is_prefix_of(mine) {
            self.lemma_branch(x, r);
            let b = self.branch(x, r);
            let c = self.step(b);
            let rest = mine.skip(k + 1);
            self.lemma_preempts_is_first(b, r, id);
            lemma_first_total(c, new_step);
            if first(c, new_step) {
                self.lemma_preempting_before_last(weave, place, id, r, b);
                let q = last.unwrap();
                if b == q {
                    self.lemma_predecessor_closes_subtree(weave, place, id, r, change, x);
                } else {
                    let cq = self.step(q);
                    self.lemma_order_of_places(weave, place, b, q);
                    self.lemma_order_of_places(weave, place, q, b);
                    assert(weave[place[b]] == b);
                    assert(weave[place[q]] == q);
                    self.lemma_path_shape(q);
                    assert(self.path(q) =~= common.push(cq));
                    assert(self.path(b) =~= common + seq![c] + Seq::<Step<A>>::empty());
                    assert(self.path(q) =~= common + seq![cq] + Seq::<Step<A>>::empty());
                    if c == cq {
                        if self.log[b] is Delete {
                            self.lemma_under_tombstone(x, b);
                        } else {
                            self.lemma_path_identifies(b, q);
                        }
                    } else {
                        lemma_ahead_branch(common, c, Seq::empty(), cq, Seq::empty());
                        lemma_ahead_branch(common, c, rest, cq, Seq::empty());
                        self.lemma_order_of_places(weave, place, x, q);
                    }
                }
            } else {
                if last.is_some() {
                    let q = last.unwrap();
                    let cq = self.step(q);
                    self.lemma_preempts_is_first(q, r, id);
                    lemma_first_transitive(cq, new_step, c);
                    lemma_first_total(cq, c);
                    self.lemma_path_shape(q);
                    assert(self.path(q) =~= common.push(cq));
                    self.lemma_under_path(p, q);
                    let mine_p = self.path(p);
                    assert(mine_p =~= common + seq![cq] + mine_p.skip(k + 1)) by {
                        assert forall|i: int| 0 <= i <= k implies mine_p[i] == self.path(q)[i] by {
                            assert(self.path(q)[i] == mine_p.subrange(
                                0,
                                self.path(q).len() as int,
                            )[i]);
                        }
                    }
                    lemma_ahead_branch(common, cq, mine_p.skip(k + 1), c, rest);
                    self.lemma_order_of_places(weave, place, p, x);
                }
            }
        } else if place[x] > place[r] {
            if last.is_some() {
                self.lemma_under_path(p, r);
                let mine_p = self.path(p);
                let tail = mine_p.skip(k);
                assert(mine_p =~= common + tail);
                self.lemma_order_of_places(weave, place, r, x);
                if mine == common {
                    self.lemma_path_identifies(r, x);
                }
                lemma_ahead_extend_left(common, mine, tail);
                self.lemma_order_of_places(weave, place, p, x);
            }
        }
    }

    /// Where the placement puts a tombstone is where its path belongs:
    /// the entries up to its target go before the new path, the entries
    /// behind the target go behind it or have the same path.
    pub proof fn lemma_delete_placement(
        self,
        weave: Seq<int>,
        place: Seq<int>,
        r: int,
        x: int,
    )
        requires
            self.canonical_with(weave, place),
            0 <= r < self.len(),
            !(self.log[r] is Delete),
            0 <= x < self.len(),
        ensures
            ({
                let new_path = self.path(r).push(Step::<A>::Tomb);
                &&& place[x] <= place[r] ==> ahead(self.path(x), new_path)
                &&& place[x] > place[r] ==> ahead_or_same(new_path, self.path(x))
            }),
    {
        let new_step = Step::<A>::Tomb;
        self.lemma_compare_with_new_child(weave, place, new_step, r, x);
        if place[x] > place[r] && self.path(r).is_prefix_of(self.path(x)) {
            let c = self.step(self.branch(x, r));
            lemma_first_total(c, new_step);
        }
    }

    /// The causal order behind an entry is what follows the entry in the
    /// weave.
    pub proof fn lemma_after_in_weave(self, weave: Seq<int>, place: Seq<int>, r: int)
        requires
            self.canonical_with(weave, place),
            0 <= r < self.len(),
        ensures
            self.causal(self.index_after(r), None) == weave.skip(place[r] + 1),
    {
        self.lemma_one_root();
        self.lemma_plain_weave(weave, place, r);
        self.lemma_causal_step(r, None);
        let whole = self.causal(Some(r), None);
        let rest = self.causal(self.next(r), None);
        assert(weave[place[r]] == r);
        assert(whole == seq![r] + rest);
        assert(rest =~= weave.skip(place[r] + 1)) by {
            assert forall|k: int| 0 <= k < rest.len() implies rest[k] == weave.skip(
                place[r] + 1,
            )[k] by {
                assert(whole[k + 1] == rest[k]);
            }
        }
    }

    /// No tombstone of an entry comes behind the last one.
    pub proof fn lemma_last_deleting_last(self, s: Seq<int>, reference: int, j: int)
        requires
            0 <= j < s.len(),
            self.deletes(s[j], reference),
        ensures
            self.last_deleting(s, reference).is_some(),
            exists|k: int|
                j <= k < s.len() && s[k] == self.last_deleting(s, reference).unwrap()
                    && self.deletes(s[k], reference),
        decreases s.len(),
    {
        if self.deletes(s.last(), reference) {
            assert(s[s.len() - 1] == s.last());
        } else {
            let front = s.drop_last();
            assert(front[j] == s[j]);
            self.lemma_last_deleting_last(front, reference, j);
            let k = choose|k: int|
                j <= k < front.len() && front[k] == self.last_deleting(front, reference).unwrap()
                    && self.deletes(front[k], reference);
            assert(s[k] == front[k]);
        }
    }

    /// The local predecessor of an entry is the entry or a tombstone of
    /// it, and no tombstone of the entry is placed behind it.
    pub proof fn lemma_local_predecessor(
        self,
        weave: Seq<int>,
        place: Seq<int>,
        r: int,
        x: int,
    )
        requires
            self.canonical_with(weave, place),
            0 <= r < self.len(),
            0 <= x < self.len(),
        ensures
            ({
                let p = self.local_predecessor(r);
                &&& 0 <= p < self.len()
                &&& p == r || self.deletes(p, r)
                &&& place[p] >= place[r]
                &&& self.deletes(x, r) ==> place[x] <= place[p]
            }),
    {
        let s = self.causal(self.index_after(r), None);
        self.lemma_after_in_weave(weave, place, r);
        self.lemma_last_deleting(s, r);
        let p = self.local_predecessor(r);
        if self.last_deleting(s, r).is_some() {
            let i = choose|i: int| 0 <= i < s.len() && s[i] == p;
            assert(s[i] == weave[place[r] + 1 + i]);
            assert(place[weave[place[r] + 1 + i]] == place[r] + 1 + i);
        }
        if self.deletes(x, r) {
            assert(self.entry_ok(x));
            assert(self.under(r, r));
            assert(self.under(x, r));
            self.lemma_under_behind(weave, place, x, r);
            let j = place[x] - place[r] - 1;
            assert(weave[place[x]] == x);
            assert(s[j] == x);
            self.lemma_last_deleting_last(s, r, j);
            let k = choose|k: int|
                j <= k < s.len() && s[k] == self.last_deleting(s, r).unwrap() && self.deletes(
                    s[k],
                    r,
                );
            assert(place[weave[place[r] + 1 + k]] == place[r] + 1 + k);
        }
    }

    /// Where a local run is put is where its path belongs, if the step
    /// to its first entry goes before the steps to all entries that are no
    /// tombstones: the entries up to the local predecessor go before the
    /// new path or have it, the entries behind the local predecessor go
    /// behind it.
    pub proof fn lemma_local_placement(
        self,
        weave: Seq<int>,
        place: Seq<int>,
        new_step: Step<A>,
        r: int,
        x: int,
    )
        requires
            self.canonical_with(weave, place),
            0 <= r < self.len(),
            0 <= x < self.len(),
            !(self.log[r] is Delete),
            self.fresh(new_step),
            forall|b: int|
                0 <= b < self.len() && !(self.log[b] is Delete) ==> first(
                    new_step,
                    #[trigger] self.step(b),
                ),
        ensures
            ({
                let p = self.local_predecessor(r);
                let new_path = self.path(r).push(new_step);
                &&& place[x] <= place[p] ==> ahead_or_same(self.path(x), new_path)
                &&& place[x] > place[p] ==> ahead_or_same(new_path, self.path(x)) && (new_step
                    is Stamp ==> !new_path.is_prefix_of(self.path(x)))
            }),
    {
        let common = self.path(r);
        let new_path = common.push(new_step);
        let mine = self.path(x);
        let p = self.local_predecessor(r);
        let tomb = Step::<A>::Tomb;
        self.lemma_compare_with_new_child(weave, place, new_step, r, x);
        self.lemma_local_predecessor(weave, place, r, x);
        self.lemma_order_of_places(weave, place, r, x);
        self.lemma_order_of_places(weave, place, p, x);
        if p != r {
            self.lemma_path_shape(p);
            assert(self.path(p) =~= common + seq![tomb]);
        }
        if place[x] > place[r] {
            if mine == common {
                self.lemma_path_identifies(r, x);
            }
            if common.is_prefix_of(mine) {
                self.lemma_branch(x, r);
                let b = self.branch(x, r);
                let c = self.step(b);
                let rest = mine.skip(common.len() as int + 1);
                if self.log[b] is Delete {
                    self.lemma_under_tombstone(x, b);
                    assert(self.deletes(x, r));
                    lemma_first_total(c, new_step);
                } else {
                    assert(first(new_step, c));
                    lemma_first_total(new_step, c);
                    if p != r {
                        lemma_ahead_branch(common, tomb, Seq::empty(), c, rest);
                        assert(self.path(p) =~= common + seq![tomb] + Seq::<Step<A>>::empty());
                    }
                }
            } else {
                if p != r {
                    lemma_ahead_extend_left(common, mine, seq![tomb]);
                }
            }
        }
    }
}

} // verus!
