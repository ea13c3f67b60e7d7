//! The paths of the entries of a chronofold, and the entries under an
//! entry.
use vstd::prelude::*;

use crate::distributed::Author;
use crate::model::Model;
use crate::order::{ahead, ahead_or_same, lemma_ahead_asymmetric, lemma_ahead_of_extension, Step};

verus! {

impl<A: Author, T> Model<A, T> {
    /// Whether the chronofold has one root, and no entry that refers to a
    /// tombstone.
    pub open spec fn tidy(self) -> bool {
        forall|i: int| 0 < i < self.len() ==> #[trigger] self.tidy_at(i)
    }

    /// Whether entry `i` is no root and refers to no tombstone.
    pub open spec fn tidy_at(self, i: int) -> bool {
        &&& !(self.log[i] is Root)
        &&& self.reference(i).is_some() ==> !(self.log[self.reference(i).unwrap()] is Delete)
    }

    /// The step to entry `i` from what it refers to.
    pub open spec fn step(self, i: int) -> Step<A> {
        if self.log[i] is Delete {
            Step::Tomb
        } else {
            Step::Stamp(self.timestamp(i))
        }
    }

    /// The path of entry `i`: the steps from the root down to the entry.
    pub open spec fn path(self, i: int) -> Seq<Step<A>>
        decreases i,
    {
        if i <= 0 {
            seq![self.step(0)]
        } else {
            match self.reference(i) {
                Some(r) => if 0 <= r < i {
                    self.path(r).push(self.step(i))
                } else {
                    seq![self.step(i)]
                },
                None => seq![self.step(i)],
            }
        }
    }

    /// Whether `order` lists entries by their paths; entries with the
    /// same path, the tombstones of one entry, may come in any order.
    pub open spec fn sorted_by_path(self, order: Seq<int>) -> bool {
        forall|a: int, b: int|
            0 <= a < b < order.len() ==> ahead_or_same(
                self.path(#[trigger] order[a]),
                self.path(#[trigger] order[b]),
            )
    }

    /// Whether the causal order is the canonical one: that of the paths.
    /// Every entry goes before its descendants. Of the entries that refer
    /// to the same entry the tombstones go first, then the inserts, a
    /// greater timestamp before a smaller one, each with its descendants.
    pub open spec fn canonical(self) -> bool {
        self.sorted_by_path(self.causal(Some(0), None))
    }

    /// Whether entry `x` is entry `q` or refers, directly or through other
    /// entries, to it.
    pub open spec fn under(self, x: int, q: int) -> bool
        decreases x,
    {
        x == q || (x > 0 && self.reference(x).is_some() && 0 <= self.reference(x).unwrap() < x
            && self.under(self.reference(x).unwrap(), q))
    }

    /// In a chronofold with one root the weave is the causal order from
    /// the root, and the causal order from any entry is what follows the
    /// entry in the weave.
    pub proof fn lemma_plain_weave(self, weave: Seq<int>, place: Seq<int>, c: int)
        requires
            self.woven(weave, place),
            forall|i: int| 0 < i < self.len() ==> !(#[trigger] self.log[i] is Root),
            0 <= c < self.len(),
        ensures
            self.causal(Some(c), None) == weave.skip(place[c]),
            place[0] == 0,
    {
        assert(place[weave[0]] == 0);
        assert(weave[place[c]] == c);
        self.lemma_single_chain(weave, place, place[c], self.log.len());
        self.lemma_walk_follows_weave(weave, place, c, None, self.log.len());
        assert(self.causal(Some(c), None) =~= weave.skip(place[c]));
    }

    /// The path of an entry ends with the step to the entry, and
    /// continues the path of the entry that it refers to.
    pub proof fn lemma_path_shape(self, i: int)
        requires
            self.wf(),
            0 <= i < self.len(),
        ensures
            self.path(i).len() >= 1,
            self.path(i).last() == self.step(i),
            self.reference(i).is_some() ==> self.path(i) == self.path(
                self.reference(i).unwrap(),
            ).push(self.step(i)),
            self.reference(i).is_none() ==> self.path(i) == seq![self.step(i)],
    {
        assert(self.entry_ok(i));
        assert(self.entry_ok(0));
    }

    /// In a tidy chronofold only the last step of a path can be the step
    /// to a tombstone.
    pub proof fn lemma_path_stamps(self, i: int, k: int)
        requires
            self.wf(),
            self.tidy(),
            0 <= i < self.len(),
            0 <= k < self.path(i).len(),
            k < self.path(i).len() - 1 || !(self.log[i] is Delete),
        ensures
            self.path(i)[k] is Stamp,
        decreases i,
    {
        self.lemma_path_shape(i);
        assert(self.entry_ok(i));
        if k < self.path(i).len() - 1 {
            let r = self.reference(i).unwrap();
            assert(self.tidy_at(i));
            self.lemma_path_stamps(r, k);
        }
    }

    /// An entry that is no tombstone shares its path with no other
    /// entry.
    pub proof fn lemma_path_identifies(self, i: int, j: int)
        requires
            self.wf(),
            0 <= i < self.len(),
            0 <= j < self.len(),
            self.path(i) == self.path(j),
            !(self.log[i] is Delete),
        ensures
            i == j,
    {
        self.lemma_path_shape(i);
        self.lemma_path_shape(j);
        if i < j {
            assert(self.timestamp(i) != self.timestamp(j));
        } else if j < i {
            assert(self.timestamp(j) != self.timestamp(i));
        }
    }

    /// The ancestor of entry `x` whose path has `k` steps; `x` itself
    /// where its own path has.
    pub open spec fn ancestor_at(self, x: int, k: int) -> int
        decreases x,
    {
        if x <= 0 || self.path(x).len() <= k {
            x
        } else {
            match self.reference(x) {
                Some(r) => if 0 <= r < x {
                    self.ancestor_at(r, k)
                } else {
                    x
                },
                None => x,
            }
        }
    }

    /// Every beginning of the path of an entry is the path of an ancestor
    /// of the entry.
    pub proof fn lemma_ancestor_at(self, x: int, k: int)
        requires
            self.wf(),
            0 <= x < self.len(),
            1 <= k <= self.path(x).len(),
        ensures
            0 <= self.ancestor_at(x, k) <= x,
            self.path(self.ancestor_at(x, k)) == self.path(x).take(k),
            self.under(x, self.ancestor_at(x, k)),
        decreases x,
    {
        self.lemma_path_shape(x);
        assert(self.entry_ok(x));
        if self.path(x).len() <= k {
            assert(self.path(x).take(k) =~= self.path(x));
        } else {
            let r = self.reference(x).unwrap();
            self.lemma_ancestor_at(r, k);
            assert(self.path(r).take(k) =~= self.path(x).take(k));
        }
    }

    /// The entries of a chronofold that keeps what it had have the paths
    /// that they had.
    pub proof fn lemma_path_kept(self, new: Self, i: int)
        requires
            self.wf(),
            self.keeps_entries(new),
            new.len() >= self.len(),
            forall|k: int| 0 <= k < self.len() ==> #[trigger] new.log[k] == self.log[k],
            0 <= i < self.len(),
        ensures
            new.path(i) == self.path(i),
        decreases i,
    {
        assert(self.entry_ok(i));
        assert(new.reference(i) == self.reference(i));
        assert(new.shift(i) == self.shift(i));
        assert(new.author(i) == self.author(i));
        assert(new.shift(0) == self.shift(0));
        assert(new.author(0) == self.author(0));
        assert(new.log[i] == self.log[i]);
        assert(new.log[0] == self.log[0]);
        if i > 0 && self.reference(i).is_some() {
            self.lemma_path_kept(new, self.reference(i).unwrap());
        }
    }

    /// The path of an entry continues the path of every entry that it is
    /// under, and is longer unless the two are the same entry.
    pub proof fn lemma_under_path(self, x: int, q: int)
        requires
            self.wf(),
            0 <= x < self.len(),
            self.under(x, q),
        ensures
            0 <= q <= x,
            self.path(q).is_prefix_of(self.path(x)),
            x != q ==> self.path(q).len() < self.path(x).len(),
        decreases x,
    {
        if x == q {
            assert(self.path(q) =~= self.path(x).subrange(0, self.path(q).len() as int));
        } else {
            let r = self.reference(x).unwrap();
            self.lemma_under_path(r, q);
            self.lemma_path_shape(x);
            let short = self.path(q);
            let parent = self.path(r);
            let long = self.path(x);
            assert(short =~= long.subrange(0, short.len() as int)) by {
                assert forall|i: int| 0 <= i < short.len() implies short[i] == long[i] by {
                    assert(short[i] == parent.subrange(0, short.len() as int)[i]);
                }
            }
        }
    }

    /// Being under an entry is transitive.
    pub proof fn lemma_under_transitive(self, x: int, y: int, z: int)
        requires
            self.under(x, y),
            self.under(y, z),
        ensures
            self.under(x, z),
        decreases x,
    {
        if x != y {
            self.lemma_under_transitive(self.reference(x).unwrap(), y, z);
        }
    }

    /// In a tidy chronofold nothing but a tombstone itself is under the
    /// tombstone.
    pub proof fn lemma_under_tombstone(self, x: int, q: int)
        requires
            self.wf(),
            self.tidy(),
            0 <= x < self.len(),
            self.under(x, q),
            self.log[q] is Delete,
        ensures
            x == q,
        decreases x,
    {
        if x != q {
            let r = self.reference(x).unwrap();
            assert(self.tidy_at(x));
            self.lemma_under_tombstone(r, q);
        }
    }

    /// In a weave that lists the entries by their paths, an entry whose
    /// path goes first is placed first, and an entry that is placed first
    /// has a path that goes first or is the same.
    pub proof fn lemma_order_of_places(self, weave: Seq<int>, place: Seq<int>, x: int, y: int)
        requires
            self.woven(weave, place),
            self.sorted_by_path(weave),
            0 <= x < self.len(),
            0 <= y < self.len(),
        ensures
            ahead(self.path(x), self.path(y)) ==> place[x] < place[y],
            place[x] < place[y] ==> ahead_or_same(self.path(x), self.path(y)),
    {
        assert(weave[place[x]] == x);
        assert(weave[place[y]] == y);
        lemma_ahead_asymmetric(self.path(x), self.path(y));
        if place[x] < place[y] {
            assert(ahead_or_same(self.path(weave[place[x]]), self.path(weave[place[y]])));
        } else if place[y] < place[x] {
            assert(ahead_or_same(self.path(weave[place[y]]), self.path(weave[place[x]])));
        }
    }

    /// An entry is placed behind every other entry that it is under.
    pub proof fn lemma_under_behind(self, weave: Seq<int>, place: Seq<int>, x: int, q: int)
        requires
            self.wf(),
            self.woven(weave, place),
            self.sorted_by_path(weave),
            0 <= x < self.len(),
            self.under(x, q),
            x != q,
        ensures
            0 <= q < x,
            place[q] < place[x],
    {
        self.lemma_under_path(x, q);
        let short = self.path(q);
        let long = self.path(x);
        let rest = long.skip(short.len() as int);
        assert(long =~= short + rest);
        lemma_ahead_of_extension(short, rest);
        self.lemma_order_of_places(weave, place, q, x);
    }

    /// The members of a subtree of `q` are under `q`.
    pub proof fn lemma_subtree_sound(self, s: Seq<int>, q: int)
        requires
            self.wf(),
            0 <= q < self.len(),
            forall|k: int| 0 <= k < s.len() ==> 0 <= #[trigger] s[k] < self.len(),
        ensures
            forall|k: int|
                0 <= k < self.subtree_of(s, q).len() ==> self.under(
                    #[trigger] self.subtree_of(s, q)[k],
                    q,
                ) && 0 <= self.subtree_of(s, q)[k] < self.len(),
        decreases s.len(),
    {
        if s.len() > 0 {
            let front = s.drop_last();
            let before = self.subtree_of(front, q);
            self.lemma_subtree_sound(front, q);
            let x = s.last();
            if self.joins_subtree(before, x, q) {
                if x != q {
                    let r = self.reference(x).unwrap();
                    let j = choose|j: int| 0 <= j < before.len() && before[j] == r;
                    assert(self.under(before[j], q));
                    assert(self.entry_ok(x));
                }
                assert forall|k: int| 0 <= k < self.subtree_of(s, q).len() implies self.under(
                    #[trigger] self.subtree_of(s, q)[k],
                    q,
                ) && 0 <= self.subtree_of(s, q)[k] < self.len() by {
                    if k < before.len() {
                        assert(self.subtree_of(s, q)[k] == before[k]);
                    }
                }
            }
        }
    }

    /// A subtree taken of more entries holds what it held of fewer.
    pub proof fn lemma_subtree_grows(self, s: Seq<int>, q: int, m: int, x: int)
        requires
            0 <= m <= s.len(),
            self.subtree_of(s.take(m), q).contains(x),
        ensures
            self.subtree_of(s, q).contains(x),
        decreases s.len() - m,
    {
        if m < s.len() {
            let longer = s.take(m + 1);
            assert(longer.drop_last() =~= s.take(m));
            let before = self.subtree_of(s.take(m), q);
            let k = choose|k: int| 0 <= k < before.len() && before[k] == x;
            assert(self.subtree_of(longer, q)[k] == x);
            self.lemma_subtree_grows(s, q, m + 1, x);
        } else {
            assert(s.take(m) =~= s);
        }
    }

    /// The subtree of `q`, taken of what follows `q` in a weave that lists
    /// the entries by their paths, holds every entry there that is under
    /// `q`.
    pub proof fn lemma_subtree_complete(
        self,
        weave: Seq<int>,
        place: Seq<int>,
        q: int,
        j: int,
    )
        requires
            self.wf(),
            self.woven(weave, place),
            self.sorted_by_path(weave),
            0 <= q < self.len(),
            0 <= j < self.len() - place[q],
            self.under(weave[place[q] + j], q),
        ensures
            self.subtree_of(weave.skip(place[q]).take(j + 1), q).contains(weave[place[q] + j]),
        decreases j,
    {
        let s = weave.skip(place[q]);
        let t = s.take(j + 1);
        let x = weave[place[q] + j];
        assert(t.last() == x);
        assert(t.drop_last() =~= s.take(j));
        let before = self.subtree_of(s.take(j), q);
        assert(place[weave[place[q] + j]] == place[q] + j);
        assert(weave[place[q]] == q);
        if x != q {
            let r = self.reference(x).unwrap();
            assert(self.under(r, r));
            assert(self.under(x, r));
            self.lemma_under_behind(weave, place, x, r);
            if r != q {
                self.lemma_under_behind(weave, place, r, q);
            }
            let i = place[r] - place[q];
            assert(weave[place[r]] == r);
            self.lemma_subtree_complete(weave, place, q, i);
            assert(s.take(j).take(i + 1) =~= s.take(i + 1));
            self.lemma_subtree_grows(s.take(j), q, i + 1, r);
            assert(self.joins_subtree(before, x, q));
        }
        let after = self.subtree_of(t, q);
        assert(after == before.push(x));
        assert(after[after.len() - 1] == x);
    }

    /// In a sequence without repetitions no member of a subtree comes
    /// behind the last member.
    pub proof fn lemma_subtree_last(self, s: Seq<int>, q: int, j: int)
        requires
            s.no_duplicates(),
            0 <= j < s.len(),
            self.subtree_of(s, q).contains(s[j]),
        ensures
            exists|k: int| j <= k < s.len() && s[k] == self.subtree_of(s, q).last(),
        decreases s.len(),
    {
        let front = s.drop_last();
        let before = self.subtree_of(front, q);
        if self.joins_subtree(before, s.last(), q) {
            assert(s[s.len() - 1] == self.subtree_of(s, q).last());
        } else {
            self.lemma_subtree_of_members(front, q);
            let i = choose|i: int| 0 <= i < before.len() && before[i] == s[j];
            assert(front.contains(before[i]));
            let f = choose|f: int| 0 <= f < front.len() && front[f] == s[j];
            assert(s[f] == s[j]);
            assert(front[j] == s[j]);
            self.lemma_subtree_last(front, q, j);
            let k = choose|k: int| j <= k < front.len() && front[k] == before.last();
            assert(s[k] == before.last());
        }
    }

    /// No entry that preempts comes behind the last one that does.
    pub proof fn lemma_last_preempting_last(
        self,
        s: Seq<int>,
        reference: int,
        id: crate::distributed::Timestamp<A>,
        j: int,
    )
        requires
            0 <= j < s.len(),
            self.preempts(s[j], reference, id),
        ensures
            self.last_preempting(s, reference, id).is_some(),
            exists|k: int|
                j <= k < s.len() && s[k] == self.last_preempting(s, reference, id).unwrap()
                    && self.preempts(s[k], reference, id),
        decreases s.len(),
    {
        if self.preempts(s.last(), reference, id) {
            assert(s[s.len() - 1] == s.last());
        } else {
            let front = s.drop_last();
            assert(front[j] == s[j]);
            self.lemma_last_preempting_last(front, reference, id, j);
            let k = choose|k: int|
                j <= k < front.len() && front[k] == self.last_preempting(
                    front,
                    reference,
                    id,
                ).unwrap() && self.preempts(front[k], reference, id);
            assert(s[k] == front[k]);
        }
    }
}

} // verus!
