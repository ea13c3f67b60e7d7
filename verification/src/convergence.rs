//! Tidy chronofolds converge: replicas that hold the same ops show the
//! same sequence.
use vstd::prelude::*;

use crate::change::Change;
use crate::distributed::{Author, Timestamp};
use crate::growth::{place_with_run, weave_with_run};
use crate::index::{AuthorIndex, IndexShift};
use crate::model::{IndexRange, Model};
use crate::order::{
    ahead, ahead_or_same, first, lemma_ahead_asymmetric, lemma_ahead_extend_left,
    lemma_ahead_extend_right, lemma_ahead_of_extension, Step,
};

verus! {

/// An op as a chronofold holds it: the timestamp of an entry, the
/// timestamp that the entry refers to, and its change.
pub struct Record<A, T> {
    pub id: Timestamp<A>,
    pub reference: Option<Timestamp<A>>,
    pub change: Change<T>,
}

/// Whether each path of the sequence goes before all that follow it.
pub open spec fn ascending_paths<A: Author>(paths: Seq<Seq<Step<A>>>) -> bool {
    forall|a: int, b: int| 0 <= a < b < paths.len() ==> ahead(#[trigger] paths[a], #[trigger] paths[b])
}

/// Two ascending sequences of the same paths are the same sequence.
pub proof fn lemma_ascending_determined<A: Author>(ps: Seq<Seq<Step<A>>>, qs: Seq<Seq<Step<A>>>)
    requires
        ascending_paths(ps),
        ascending_paths(qs),
        forall|i: int| 0 <= i < ps.len() ==> qs.contains(#[trigger] ps[i]),
        forall|j: int| 0 <= j < qs.len() ==> ps.contains(#[trigger] qs[j]),
    ensures
        ps == qs,
    decreases ps.len(),
{
    if ps.len() == 0 {
        if qs.len() > 0 {
            assert(ps.contains(qs[0]));
        }
        assert(ps =~= qs);
    } else {
        assert(qs.contains(ps[0]));
        let j = choose|j: int| 0 <= j < qs.len() && qs[j] == ps[0];
        assert(ps.contains(qs[0]));
        let i = choose|i: int| 0 <= i < ps.len() && ps[i] == qs[0];
        lemma_ahead_asymmetric(ps[0], qs[0]);
        if j > 0 {
            assert(ahead(qs[0], qs[j]));
            if i > 0 {
                assert(ahead(ps[0], ps[i]));
            } else {
                lemma_ahead_asymmetric(ps[0], ps[0]);
            }
        }
        assert(ps[0] == qs[0]);
        let pt = ps.drop_first();
        let qt = qs.drop_first();
        assert forall|a: int, b: int| 0 <= a < b < pt.len() implies ahead(
            #[trigger] pt[a],
            #[trigger] pt[b],
        ) by {
            assert(pt[a] == ps[a + 1] && pt[b] == ps[b + 1]);
        }
        assert forall|a: int, b: int| 0 <= a < b < qt.len() implies ahead(
            #[trigger] qt[a],
            #[trigger] qt[b],
        ) by {
            assert(qt[a] == qs[a + 1] && qt[b] == qs[b + 1]);
        }
        assert forall|i: int| 0 <= i < pt.len() implies qt.contains(#[trigger] pt[i]) by {
            assert(pt[i] == ps[i + 1]);
            assert(qs.contains(ps[i + 1]));
            let m = choose|m: int| 0 <= m < qs.len() && qs[m] == ps[i + 1];
            if m == 0 {
                assert(ahead(ps[0], ps[i + 1]));
                lemma_ahead_asymmetric(ps[0], ps[0]);
            }
            assert(qt[m - 1] == pt[i]);
        }
        assert forall|j: int| 0 <= j < qt.len() implies pt.contains(#[trigger] qt[j]) by {
            assert(qt[j] == qs[j + 1]);
            assert(ps.contains(qs[j + 1]));
            let m = choose|m: int| 0 <= m < ps.len() && ps[m] == qs[j + 1];
            if m == 0 {
                assert(ahead(qs[0], qs[j + 1]));
                lemma_ahead_asymmetric(qs[0], qs[0]);
            }
            assert(pt[m - 1] == qt[j]);
        }
        lemma_ascending_determined(pt, qt);
        assert(ps =~= seq![ps[0]] + pt);
        assert(qs =~= seq![qs[0]] + qt);
    }
}

/// A weave in the order of its paths stays in that order when a run is
/// woven in at the place where its first path belongs, if every entry of
/// the run continues the path of the entries of the run before it.
pub proof fn lemma_run_in_order<A: Author>(
    path_of: spec_fn(int) -> Seq<Step<A>>,
    weave: Seq<int>,
    k: int,
    n: int,
    c: int,
)
    requires
        weave.len() == n,
        0 <= k < n,
        c >= 1,
        forall|a: int, b: int|
            0 <= a < b < n ==> ahead_or_same(
                path_of(#[trigger] weave[a]),
                path_of(#[trigger] weave[b]),
            ),
        forall|j: int| 0 <= j <= k ==> ahead_or_same(path_of(#[trigger] weave[j]), path_of(n)),
        forall|j: int|
            k < j < n ==> ahead_or_same(path_of(n), path_of(#[trigger] weave[j])) && (c > 1
                ==> !path_of(n).is_prefix_of(path_of(weave[j]))),
        forall|x: int, y: int|
            n <= x <= y < n + c ==> (#[trigger] path_of(x)).is_prefix_of(#[trigger] path_of(y))
                && (x < y ==> path_of(x).len() < path_of(y).len()),
    ensures
        forall|a: int, b: int|
            0 <= a < b < n + c ==> ahead_or_same(
                path_of(#[trigger] weave_with_run(weave, k, n, c)[a]),
                path_of(#[trigger] weave_with_run(weave, k, n, c)[b]),
            ),
{
    let w = weave_with_run(weave, k, n, c);
    let first_path = path_of(n);
    assert forall|a: int, b: int| 0 <= a < b < n + c implies ahead_or_same(
        path_of(#[trigger] w[a]),
        path_of(#[trigger] w[b]),
    ) by {
        let old_a = a <= k || a > k + c;
        let old_b = b <= k || b > k + c;
        let ia = if a <= k {
            a
        } else {
            a - c
        };
        let ib = if b <= k {
            b
        } else {
            b - c
        };
        if old_a && old_b {
            assert(w[a] == weave[ia] && w[b] == weave[ib]);
            assert(ahead_or_same(path_of(weave[ia]), path_of(weave[ib])));
        } else if old_a {
            let y = w[b];
            assert(w[a] == weave[ia]);
            assert(n <= y < n + c);
            assert(path_of(n).is_prefix_of(path_of(y)));
            let tail = path_of(y).skip(first_path.len() as int);
            assert(path_of(y) =~= first_path + tail);
            assert(ahead_or_same(path_of(weave[ia]), first_path));
            if y > n {
                if path_of(weave[ia]) == first_path {
                    lemma_ahead_of_extension(first_path, tail);
                } else {
                    lemma_ahead_extend_right(path_of(weave[ia]), first_path, tail);
                }
            } else {
                assert(tail =~= Seq::<Step<A>>::empty());
                assert(first_path + tail =~= first_path);
            }
        } else if old_b {
            let y = w[a];
            assert(w[b] == weave[ib]);
            assert(n <= y < n + c);
            assert(ahead_or_same(first_path, path_of(weave[ib])));
            if y > n {
                assert(path_of(n).is_prefix_of(path_of(y)));
                let tail = path_of(y).skip(first_path.len() as int);
                assert(path_of(y) =~= first_path + tail);
                if first_path == path_of(weave[ib]) {
                    assert(first_path =~= path_of(weave[ib]).subrange(
                        0,
                        first_path.len() as int,
                    ));
                }
                lemma_ahead_extend_left(first_path, path_of(weave[ib]), tail);
            }
        } else {
            let x = w[a];
            let y = w[b];
            assert(n <= x < y < n + c);
            assert(path_of(x).is_prefix_of(path_of(y)));
            let short = path_of(x);
            let long = path_of(y);
            let tail = long.skip(short.len() as int);
            assert(long =~= short + tail);
            lemma_ahead_of_extension(short, tail);
        }
    }
}

impl<A: Author, T> Model<A, T> {
    /// In a run in which every entry refers to the one before it, every
    /// entry is under those before it.
    pub proof fn lemma_run_under(self, first: int, i: int, j: int)
        requires
            self.wf(),
            0 <= first <= i <= j < self.len(),
            forall|m: int| first < m < self.len() ==> #[trigger] self.reference(m) == Some(m - 1),
        ensures
            self.under(j, i),
        decreases j - i,
    {
        if i < j {
            self.lemma_run_under(first, i, j - 1);
            assert(self.reference(j) == Some(j - 1));
        }
    }

    /// A run whose first path belongs behind the predecessor, and before
    /// what follows the predecessor, keeps the weave in the order of the
    /// paths.
    pub proof fn lemma_sorted_after_run(
        self,
        new: Self,
        weave: Seq<int>,
        place: Seq<int>,
        p: int,
        c: int,
    )
        requires
            self.canonical_with(weave, place),
            self.grown_by_run(new, p, c),
            self.keeps_entries(new),
            new.wf(),
            forall|m: int| self.len() < m < new.len() ==> #[trigger] new.reference(m) == Some(m - 1),
            forall|x: int|
                0 <= x < self.len() && place[x] <= place[p] ==> ahead_or_same(
                    #[trigger] self.path(x),
                    new.path(self.len()),
                ),
            forall|x: int|
                0 <= x < self.len() && place[x] > place[p] ==> ahead_or_same(
                    new.path(self.len()),
                    #[trigger] self.path(x),
                ) && (c > 1 ==> !new.path(self.len()).is_prefix_of(self.path(x))),
        ensures
            new.sorted_by_path(weave_with_run(weave, place[p], self.len(), c)),
    {
        let n = self.len();
        let k = place[p];
        let path_of = |i: int| new.path(i);
        assert forall|a: int, b: int| 0 <= a < b < weave.len() implies ahead_or_same(
            path_of(#[trigger] weave[a]),
            path_of(#[trigger] weave[b]),
        ) by {
            self.lemma_path_kept(new, weave[a]);
            self.lemma_path_kept(new, weave[b]);
            assert(ahead_or_same(self.path(weave[a]), self.path(weave[b])));
        }
        assert forall|j: int| 0 <= j <= k implies ahead_or_same(
            path_of(#[trigger] weave[j]),
            path_of(n),
        ) by {
            let x = weave[j];
            assert(place[x] == j);
            self.lemma_path_kept(new, x);
            assert(ahead_or_same(self.path(x), new.path(n)));
        }
        assert forall|j: int| k < j < n implies ahead_or_same(
            path_of(n),
            path_of(#[trigger] weave[j]),
        ) && (c > 1 ==> !path_of(n).is_prefix_of(path_of(weave[j]))) by {
            let x = weave[j];
            assert(place[x] == j);
            self.lemma_path_kept(new, x);
            assert(ahead_or_same(new.path(n), self.path(x)));
        }
        assert forall|x: int, y: int| n <= x <= y < n + c implies (#[trigger] path_of(
            x,
        )).is_prefix_of(#[trigger] path_of(y)) && (x < y ==> path_of(x).len() < path_of(y).len()) by {
            new.lemma_run_under(n, x, y);
            new.lemma_under_path(y, x);
        }
        lemma_run_in_order(path_of, weave, k, n, c);
        let w = weave_with_run(weave, k, n, c);
        assert forall|a: int, b: int| 0 <= a < b < w.len() implies ahead_or_same(
            new.path(#[trigger] w[a]),
            new.path(#[trigger] w[b]),
        ) by {
            assert(ahead_or_same(path_of(w[a]), path_of(w[b])));
        }
    }

    /// A chronofold that was tidy and gained entries that are tidy is
    /// tidy.
    pub proof fn lemma_tidy_kept(self, new: Self)
        requires
            self.wf(),
            self.tidy(),
            self.keeps_entries(new),
            new.len() >= self.len(),
            forall|k: int| 0 <= k < self.len() ==> #[trigger] new.log[k] == self.log[k],
            forall|i: int| self.len() <= i < new.len() ==> #[trigger] new.tidy_at(i),
        ensures
            new.tidy(),
    {
        assert forall|i: int| 0 < i < new.len() implies #[trigger] new.tidy_at(i) by {
            if i < self.len() {
                assert(self.tidy_at(i));
                assert(self.entry_ok(i));
                assert(new.reference(i) == self.reference(i));
                assert(new.log[i] == self.log[i]);
                if self.reference(i).is_some() {
                    assert(new.log[self.reference(i).unwrap()] == self.log[self.reference(
                        i,
                    ).unwrap()]);
                }
            }
        }
    }

    /// An insert that refers to no tombstone keeps a tidy chronofold tidy
    /// and in canonical order.
    pub proof fn lemma_insert_keeps_canonical(
        self,
        weave: Seq<int>,
        place: Seq<int>,
        id: Timestamp<A>,
        r: int,
        change: Change<T>,
    )
        requires
            self.canonical_with(weave, place),
            self.admits(id, Some(r), change),
            change is Insert,
            !(self.log[r] is Delete),
        ensures
            ({
                let p = self.predecessor(id, Some(r), change).unwrap();
                self.change_applied(id, Some(r), change).canonical_with(
                    weave_with_run(weave, place[p], self.len(), 1),
                    place_with_run(place, place[p], self.len(), 1),
                )
            }),
    {
        let n = self.len();
        let new = self.change_applied(id, Some(r), change);
        self.lemma_predecessor_in_log(id, Some(r), change);
        let p = self.predecessor(id, Some(r), change).unwrap();
        assert(self.entry_ok(p));
        self.lemma_change_applied_streams(id, Some(r), change);
        self.lemma_change_applied_wf(id, Some(r), change);
        assert(self.grown_by_run(new, p, 1));
        self.lemma_woven_after_run(new, p, 1, weave, place);
        new.lemma_path_shape(n);
        self.lemma_path_kept(new, r);
        assert(new.log[n] == change);
        assert(new.path(n) == self.path(r).push(Step::Stamp(id)));
        assert forall|x: int| 0 <= x < n && place[x] <= place[p] implies ahead_or_same(
            #[trigger] self.path(x),
            new.path(n),
        ) by {
            self.lemma_insert_placement(weave, place, id, r, change, x);
        }
        assert forall|x: int| 0 <= x < n && place[x] > place[p] implies ahead_or_same(
            new.path(n),
            #[trigger] self.path(x),
        ) && !new.path(n).is_prefix_of(self.path(x)) by {
            self.lemma_insert_placement(weave, place, id, r, change, x);
        }
        self.lemma_sorted_after_run(new, weave, place, p, 1);
        assert(new.tidy_at(n)) by {
            assert(new.log[r] == self.log[r]);
        }
        self.lemma_tidy_kept(new);
    }

    /// A tombstone for an entry that is no tombstone keeps a tidy
    /// chronofold tidy and in canonical order.
    pub proof fn lemma_delete_keeps_canonical(
        self,
        weave: Seq<int>,
        place: Seq<int>,
        id: Timestamp<A>,
        r: int,
        change: Change<T>,
    )
        requires
            self.canonical_with(weave, place),
            self.admits(id, Some(r), change),
            change is Delete,
            !(self.log[r] is Delete),
        ensures
            self.change_applied(id, Some(r), change).canonical_with(
                weave_with_run(weave, place[r], self.len(), 1),
                place_with_run(place, place[r], self.len(), 1),
            ),
    {
        let n = self.len();
        let new = self.change_applied(id, Some(r), change);
        assert(self.predecessor(id, Some(r), change) == Some(r));
        assert(self.entry_ok(r));
        self.lemma_change_applied_streams(id, Some(r), change);
        self.lemma_change_applied_wf(id, Some(r), change);
        assert(self.grown_by_run(new, r, 1));
        self.lemma_woven_after_run(new, r, 1, weave, place);
        new.lemma_path_shape(n);
        self.lemma_path_kept(new, r);
        assert(new.log[n] == change);
        assert(new.path(n) == self.path(r).push(Step::<A>::Tomb));
        assert forall|x: int| 0 <= x < n && place[x] <= place[r] implies ahead_or_same(
            #[trigger] self.path(x),
            new.path(n),
        ) by {
            self.lemma_delete_placement(weave, place, r, x);
        }
        assert forall|x: int| 0 <= x < n && place[x] > place[r] implies ahead_or_same(
            new.path(n),
            #[trigger] self.path(x),
        ) by {
            self.lemma_delete_placement(weave, place, r, x);
        }
        self.lemma_sorted_after_run(new, weave, place, r, 1);
        assert(new.tidy_at(n)) by {
            assert(new.log[r] == self.log[r]);
        }
        self.lemma_tidy_kept(new);
    }

    /// A local run of inserts behind an entry that is no tombstone keeps a
    /// tidy chronofold tidy and in canonical order.
    pub proof fn lemma_run_keeps_canonical(
        self,
        weave: Seq<int>,
        place: Seq<int>,
        author: A,
        reference: int,
        changes: Seq<Change<T>>,
    )
        requires
            self.canonical_with(weave, place),
            self.admits_run(reference, changes),
            changes.len() > 0,
            forall|j: int| 0 <= j < changes.len() ==> #[trigger] changes[j] is Insert,
            !(self.log[reference] is Delete),
        ensures
            ({
                let p = self.local_predecessor(reference);
                self.local_applied(author, reference, changes).canonical_with(
                    weave_with_run(weave, place[p], self.len(), changes.len() as int),
                    place_with_run(place, place[p], self.len(), changes.len() as int),
                )
            }),
    {
        let n = self.len();
        let c = changes.len() as int;
        let new = self.local_applied(author, reference, changes);
        let p = self.local_predecessor(reference);
        self.lemma_local_applied_streams(author, reference, changes);
        self.lemma_local_applied_wf(author, reference, changes);
        self.lemma_woven_after_run(new, p, c, weave, place);
        let id = Timestamp { idx: AuthorIndex(n as usize), author };
        let new_step = Step::Stamp(id);
        new.lemma_path_shape(n);
        self.lemma_path_kept(new, reference);
        assert(new.shift(n) == Some(IndexShift(0)));
        assert(new.author(n) == Some(author));
        assert(new.timestamp(n) == id);
        assert(new.log[n] == changes[0]);
        assert(new.path(n) == self.path(reference).push(new_step));
        assert forall|i: int| 0 <= i < n implies #[trigger] self.timestamp(i) != id by {
            self.lemma_timestamp_behind(i);
        }
        assert forall|b: int| 0 <= b < n && !(self.log[b] is Delete) implies first(
            new_step,
            #[trigger] self.step(b),
        ) by {
            self.lemma_timestamp_behind(b);
        }
        assert forall|x: int| 0 <= x < n && place[x] <= place[p] implies ahead_or_same(
            #[trigger] self.path(x),
            new.path(n),
        ) by {
            self.lemma_local_placement(weave, place, new_step, reference, x);
        }
        assert forall|x: int| 0 <= x < n && place[x] > place[p] implies ahead_or_same(
            new.path(n),
            #[trigger] self.path(x),
        ) && !new.path(n).is_prefix_of(self.path(x)) by {
            self.lemma_local_placement(weave, place, new_step, reference, x);
        }
        self.lemma_sorted_after_run(new, weave, place, p, c);
        assert forall|i: int| n <= i < new.len() implies #[trigger] new.tidy_at(i) by {
            assert(new.log[i] == changes[i - n]);
            if i > n {
                assert(new.reference(i) == Some(i - 1));
                assert(new.log[i - 1] == changes[i - 1 - n]);
            } else {
                assert(new.log[reference] == self.log[reference]);
            }
        }
        self.lemma_tidy_kept(new);
    }

    /// A local tombstone for an entry that is no tombstone keeps a tidy
    /// chronofold tidy and in canonical order.
    pub proof fn lemma_remove_keeps_canonical(
        self,
        weave: Seq<int>,
        place: Seq<int>,
        author: A,
        target: int,
    )
        requires
            self.canonical_with(weave, place),
            self.admits_run(target, seq![Change::<T>::Delete]),
            !(self.log[target] is Delete),
        ensures
            ({
                let p = self.local_predecessor(target);
                self.local_applied(author, target, seq![Change::<T>::Delete]).canonical_with(
                    weave_with_run(weave, place[p], self.len(), 1),
                    place_with_run(place, place[p], self.len(), 1),
                )
            }),
    {
        let n = self.len();
        let changes = seq![Change::<T>::Delete];
        let new = self.local_applied(author, target, changes);
        let p = self.local_predecessor(target);
        let new_step = Step::<A>::Tomb;
        self.lemma_local_applied_streams(author, target, changes);
        self.lemma_local_applied_wf(author, target, changes);
        self.lemma_woven_after_run(new, p, 1, weave, place);
        new.lemma_path_shape(n);
        self.lemma_path_kept(new, target);
        assert(new.log[n] == changes[0]);
        assert(new.path(n) == self.path(target).push(new_step));
        assert forall|x: int| 0 <= x < n && place[x] <= place[p] implies ahead_or_same(
            #[trigger] self.path(x),
            new.path(n),
        ) by {
            self.lemma_local_placement(weave, place, new_step, target, x);
        }
        assert forall|x: int| 0 <= x < n && place[x] > place[p] implies ahead_or_same(
            new.path(n),
            #[trigger] self.path(x),
        ) by {
            self.lemma_local_placement(weave, place, new_step, target, x);
        }
        self.lemma_sorted_after_run(new, weave, place, p, 1);
        assert(new.tidy_at(n)) by {
            assert(new.log[target] == self.log[target]);
        }
        self.lemma_tidy_kept(new);
    }

    /// In a tidy chronofold that meets the invariant, the canonical order
    /// is that of its weave.
    pub proof fn lemma_canonical_weave(self, weave: Seq<int>, place: Seq<int>)
        requires
            self.wf(),
            self.tidy(),
            self.woven(weave, place),
        ensures
            self.causal(Some(0), None) == weave,
            self.canonical() == self.sorted_by_path(weave),
    {
        self.lemma_one_root();
        self.lemma_plain_weave(weave, place, 0);
        assert(weave.skip(0) =~= weave);
    }

    /// Whether `other` holds the op of entry `i`: an entry with the same
    /// timestamp and the same change that refers to the same timestamp.
    pub open spec fn op_held_by(self, other: Self, i: int) -> bool {
        exists|j: int|
            0 <= j < other.len() && #[trigger] other.timestamp(j) == self.timestamp(i)
                && other.reference_timestamp(j) == self.reference_timestamp(i) && other.log[j]
                == self.log[i]
    }

    /// Whether `other` holds every op that this chronofold holds.
    pub open spec fn ops_held_by(self, other: Self) -> bool {
        forall|i: int| 0 <= i < self.len() ==> #[trigger] self.op_held_by(other, i)
    }

    /// The entry of `other` that holds the op of entry `i`.
    pub open spec fn twin(self, other: Self, i: int) -> int {
        choose|j: int|
            0 <= j < other.len() && #[trigger] other.timestamp(j) == self.timestamp(i)
                && other.reference_timestamp(j) == self.reference_timestamp(i) && other.log[j]
                == self.log[i]
    }

    /// Entries with the same timestamp are the same entry.
    pub proof fn lemma_timestamp_identifies(self, i: int, j: int)
        requires
            self.wf(),
            0 <= i < self.len(),
            0 <= j < self.len(),
            self.timestamp(i) == self.timestamp(j),
        ensures
            i == j,
    {
        if i < j {
            assert(self.timestamp(i) != self.timestamp(j));
        } else if j < i {
            assert(self.timestamp(j) != self.timestamp(i));
        }
    }

    /// The entry that holds the op of an entry has the timestamp, the
    /// change and the path of that entry, and refers to the entry that
    /// holds the op of what that entry refers to.
    pub proof fn lemma_twin_path(self, other: Self, i: int)
        requires
            self.wf(),
            other.wf(),
            self.ops_held_by(other),
            0 <= i < self.len(),
        ensures
            0 <= self.twin(other, i) < other.len(),
            other.timestamp(self.twin(other, i)) == self.timestamp(i),
            other.log[self.twin(other, i)] == self.log[i],
            other.path(self.twin(other, i)) == self.path(i),
            self.reference(i).is_some() ==> other.reference(self.twin(other, i)) == Some(
                self.twin(other, self.reference(i).unwrap()),
            ),
        decreases i,
    {
        assert(self.op_held_by(other, i));
        let j = self.twin(other, i);
        assert(self.entry_ok(i));
        assert(other.entry_ok(j));
        self.lemma_path_shape(i);
        other.lemma_path_shape(j);
        if self.reference(i).is_some() {
            let r = self.reference(i).unwrap();
            let s = other.reference(j).unwrap();
            self.lemma_twin_path(other, r);
            other.lemma_timestamp_identifies(self.twin(other, r), s);
        }
    }

    /// An entry is shown where the entry that holds its op is shown.
    proof fn lemma_twin_shown(self, other: Self, i: int)
        requires
            self.wf(),
            other.wf(),
            self.ops_held_by(other),
            other.ops_held_by(self),
            0 <= i < self.len(),
            self.shown(i),
        ensures
            other.shown(self.twin(other, i)),
    {
        self.lemma_twin_path(other, i);
        let j = self.twin(other, i);
        if other.tombstoned(j) {
            let d = choose|d: int| 0 <= d < other.len() && #[trigger] other.deletes(d, j);
            other.lemma_twin_path(self, d);
            let e = other.twin(self, d);
            other.lemma_twin_path(self, j);
            self.lemma_timestamp_identifies(other.twin(self, j), i);
            assert(self.deletes(e, i));
        }
    }

    /// The paths of the elements of a chronofold, in causal order.
    pub open spec fn element_paths(self) -> Seq<Seq<Step<A>>> {
        Seq::new(
            self.elements(IndexRange::full()).len(),
            |k: int| self.path(self.elements(IndexRange::full())[k]),
        )
    }

    /// The paths of the elements of a tidy chronofold in canonical order
    /// ascend.
    proof fn lemma_element_paths_ascend(self, weave: Seq<int>, place: Seq<int>)
        requires
            self.canonical_with(weave, place),
        ensures
            ascending_paths(self.element_paths()),
            forall|k: int|
                0 <= k < self.elements(IndexRange::full()).len() ==> 0 < #[trigger] self.elements(
                    IndexRange::full(),
                )[k] < self.len() && self.shown(self.elements(IndexRange::full())[k]),
    {
        let s = weave.skip(1);
        let shown = self.elements(IndexRange::full());
        self.lemma_elements_of_weave(weave, place);
        self.lemma_weave_in_order(weave, place);
        let holds = |x: int, y: int| x != y && ahead_or_same(self.path(x), self.path(y));
        assert forall|i: int, j: int| 0 <= i < j < s.len() implies holds(
            #[trigger] s[i],
            #[trigger] s[j],
        ) by {}
        self.lemma_visible_keeps_order(s, holds);
        self.lemma_visible_members(s);
        assert forall|k: int| 0 <= k < shown.len() implies 0 < #[trigger] shown[k] < self.len()
            && self.shown(shown[k]) by {
            self.lemma_visible_from(s, k);
            let j = choose|j: int| 0 <= j < s.len() && s[j] == shown[k] && self.visible_at(s, j);
            assert(s[j] == weave[j + 1]);
            assert(0 <= weave[j + 1] < self.len());
            self.lemma_visible_is_shown(weave, place, j);
        }
        let paths = self.element_paths();
        assert forall|a: int, b: int| 0 <= a < b < paths.len() implies ahead(
            #[trigger] paths[a],
            #[trigger] paths[b],
        ) by {
            assert(holds(shown[a], shown[b]));
            if self.path(shown[a]) == self.path(shown[b]) {
                self.lemma_path_identifies(shown[a], shown[b]);
            }
        }
    }

    /// Every element path of a chronofold is among the element paths of a
    /// chronofold that holds the same ops.
    proof fn lemma_element_paths_shared(
        self,
        other: Self,
        weave: Seq<int>,
        place: Seq<int>,
        their_weave: Seq<int>,
        their_place: Seq<int>,
        k: int,
    )
        requires
            self.canonical_with(weave, place),
            other.canonical_with(their_weave, their_place),
            self.ops_held_by(other),
            other.ops_held_by(self),
            0 <= k < self.element_paths().len(),
        ensures
            other.element_paths().contains(self.element_paths()[k]),
    {
        self.lemma_element_paths_ascend(weave, place);
        let i = self.elements(IndexRange::full())[k];
        self.lemma_twin_path(other, i);
        self.lemma_twin_shown(other, i);
        let j = self.twin(other, i);
        let s = their_weave.skip(1);
        other.lemma_elements_of_weave(their_weave, their_place);
        other.lemma_causal_from_weave(their_weave, their_place, 0);
        assert(their_weave[their_place[j]] == j);
        assert(their_weave[0] == 0);
        let at = their_place[j] - 1;
        assert(s[at] == j);
        other.lemma_visible_is_shown(their_weave, their_place, at);
        other.lemma_visible_holds(s, at);
        let shown = other.elements(IndexRange::full());
        let m = choose|m: int| 0 <= m < shown.len() && shown[m] == j;
        assert(other.element_paths()[m] == self.element_paths()[k]);
    }

    /// A new chronofold is tidy and in canonical order.
    pub proof fn law_initial_is_canonical(author: A)
        ensures
            Self::initial(author).wf(),
            Self::initial(author).tidy(),
            Self::initial(author).canonical(),
    {
        let new = Self::initial(author);
        Self::lemma_initial_wf(author);
        new.lemma_walk_length(Some(0), None, new.log.len());
    }

    /// Applying an insert that refers to no tombstone keeps a tidy
    /// chronofold tidy and in canonical order.
    pub proof fn law_insert_keeps_canonical(
        self,
        id: Timestamp<A>,
        reference: int,
        change: Change<T>,
    )
        requires
            self.wf(),
            self.tidy(),
            self.canonical(),
            self.admits(id, Some(reference), change),
            change is Insert,
            !(self.log[reference] is Delete),
        ensures
            self.change_applied(id, Some(reference), change).wf(),
            self.change_applied(id, Some(reference), change).tidy(),
            self.change_applied(id, Some(reference), change).canonical(),
    {
        self.lemma_weave_exists();
        let (weave, place) = self.some_weave();
        self.lemma_canonical_weave(weave, place);
        self.lemma_insert_keeps_canonical(weave, place, id, reference, change);
        let new = self.change_applied(id, Some(reference), change);
        let p = self.predecessor(id, Some(reference), change).unwrap();
        new.lemma_canonical_weave(
            weave_with_run(weave, place[p], self.len(), 1),
            place_with_run(place, place[p], self.len(), 1),
        );
    }

    /// Applying a tombstone for an entry that is no tombstone keeps a tidy
    /// chronofold tidy and in canonical order.
    pub proof fn law_delete_keeps_canonical(
        self,
        id: Timestamp<A>,
        target: int,
        change: Change<T>,
    )
        requires
            self.wf(),
            self.tidy(),
            self.canonical(),
            self.admits(id, Some(target), change),
            change is Delete,
            !(self.log[target] is Delete),
        ensures
            self.change_applied(id, Some(target), change).wf(),
            self.change_applied(id, Some(target), change).tidy(),
            self.change_applied(id, Some(target), change).canonical(),
    {
        self.lemma_weave_exists();
        let (weave, place) = self.some_weave();
        self.lemma_canonical_weave(weave, place);
        self.lemma_delete_keeps_canonical(weave, place, id, target, change);
        let new = self.change_applied(id, Some(target), change);
        new.lemma_canonical_weave(
            weave_with_run(weave, place[target], self.len(), 1),
            place_with_run(place, place[target], self.len(), 1),
        );
    }

    /// A local run of inserts behind an entry that is no tombstone keeps a
    /// tidy chronofold tidy and in canonical order.
    pub proof fn law_run_keeps_canonical(self, author: A, reference: int, changes: Seq<Change<T>>)
        requires
            self.wf(),
            self.tidy(),
            self.canonical(),
            self.admits_run(reference, changes),
            forall|j: int| 0 <= j < changes.len() ==> #[trigger] changes[j] is Insert,
            !(self.log[reference] is Delete),
        ensures
            self.local_applied(author, reference, changes).wf(),
            self.local_applied(author, reference, changes).tidy(),
            self.local_applied(author, reference, changes).canonical(),
    {
        if changes.len() > 0 {
            self.lemma_weave_exists();
            let (weave, place) = self.some_weave();
            self.lemma_canonical_weave(weave, place);
            self.lemma_run_keeps_canonical(weave, place, author, reference, changes);
            let new = self.local_applied(author, reference, changes);
            let p = self.local_predecessor(reference);
            new.lemma_canonical_weave(
                weave_with_run(weave, place[p], self.len(), changes.len() as int),
                place_with_run(place, place[p], self.len(), changes.len() as int),
            );
        }
    }

    /// A local tombstone for an entry that is no tombstone keeps a tidy
    /// chronofold tidy and in canonical order.
    pub proof fn law_remove_keeps_canonical(self, author: A, target: int)
        requires
            self.wf(),
            self.tidy(),
            self.canonical(),
            self.admits_run(target, seq![Change::<T>::Delete]),
            !(self.log[target] is Delete),
        ensures
            self.local_applied(author, target, seq![Change::<T>::Delete]).wf(),
            self.local_applied(author, target, seq![Change::<T>::Delete]).tidy(),
            self.local_applied(author, target, seq![Change::<T>::Delete]).canonical(),
    {
        self.lemma_weave_exists();
        let (weave, place) = self.some_weave();
        self.lemma_canonical_weave(weave, place);
        self.lemma_remove_keeps_canonical(weave, place, author, target);
        let new = self.local_applied(author, target, seq![Change::<T>::Delete]);
        let p = self.local_predecessor(target);
        new.lemma_canonical_weave(
            weave_with_run(weave, place[p], self.len(), 1),
            place_with_run(place, place[p], self.len(), 1),
        );
    }

    /// Convergence: tidy chronofolds in canonical order that hold the same
    /// ops show the same sequence. They have equally many elements, and at
    /// every position the same value with the same timestamp.
    ///
    /// Left out are chronofolds with a second root and chronofolds in
    /// which an entry refers to a tombstone.
    pub proof fn law_tidy_replicas_converge(self, other: Self)
        requires
            self.wf(),
            self.tidy(),
            self.canonical(),
            other.wf(),
            other.tidy(),
            other.canonical(),
            self.ops_held_by(other),
            other.ops_held_by(self),
        ensures
            self.elements(IndexRange::full()).len() == other.elements(IndexRange::full()).len(),
            forall|k: int|
                0 <= k < self.elements(IndexRange::full()).len() ==> self.log[#[trigger] self.elements(
                    IndexRange::full(),
                )[k]] == other.log[other.elements(IndexRange::full())[k]],
            forall|k: int|
                0 <= k < self.elements(IndexRange::full()).len() ==> self.timestamp(
                    #[trigger] self.elements(IndexRange::full())[k],
                ) == other.timestamp(other.elements(IndexRange::full())[k]),
    {
        self.lemma_weave_exists();
        other.lemma_weave_exists();
        let (weave, place) = self.some_weave();
        let (their_weave, their_place) = other.some_weave();
        self.lemma_canonical_weave(weave, place);
        other.lemma_canonical_weave(their_weave, their_place);
        let ps = self.element_paths();
        let qs = other.element_paths();
        self.lemma_element_paths_ascend(weave, place);
        other.lemma_element_paths_ascend(their_weave, their_place);
        assert forall|i: int| 0 <= i < ps.len() implies qs.contains(#[trigger] ps[i]) by {
            self.lemma_element_paths_shared(other, weave, place, their_weave, their_place, i);
        }
        assert forall|j: int| 0 <= j < qs.len() implies ps.contains(#[trigger] qs[j]) by {
            other.lemma_element_paths_shared(self, their_weave, their_place, weave, place, j);
        }
        lemma_ascending_determined(ps, qs);
        let shown = self.elements(IndexRange::full());
        let their_shown = other.elements(IndexRange::full());
        assert(shown.len() == their_shown.len());
        assert forall|k: int| 0 <= k < shown.len() implies self.log[#[trigger] shown[k]]
            == other.log[their_shown[k]] && self.timestamp(shown[k]) == other.timestamp(
            their_shown[k],
        ) by {
            self.lemma_twin_path(other, shown[k]);
            assert(ps[k] == qs[k]);
            let j = self.twin(other, shown[k]);
            assert(other.log[j] is Insert);
            other.lemma_path_identifies(j, their_shown[k]);
        }
    }

    /// The op that entry `i` holds.
    pub open spec fn record(self, i: int) -> Record<A, T> {
        Record {
            id: self.timestamp(i),
            reference: self.reference_timestamp(i),
            change: self.log[i],
        }
    }

    /// The ops that the chronofold holds.
    pub open spec fn records(self) -> Set<Record<A, T>> {
        Set::new(|r: Record<A, T>| exists|i: int| 0 <= i < self.len() && #[trigger] self.record(i) == r)
    }

    /// What a chronofold holds after a change was applied is what it held
    /// before, and the op of the change.
    pub proof fn law_records_after_change(
        self,
        id: Timestamp<A>,
        reference: Option<int>,
        change: Change<T>,
    )
        requires
            self.wf(),
            self.admits(id, reference, change),
        ensures
            self.change_applied(id, reference, change).records() == self.records().insert(
                Record {
                    id,
                    reference: match reference {
                        Some(r) => Some(self.timestamp(r)),
                        None => None,
                    },
                    change,
                },
            ),
    {
        let n = self.len();
        let new = self.change_applied(id, reference, change);
        let added = Record {
            id,
            reference: match reference {
                Some(r) => Some(self.timestamp(r)),
                None => None,
            },
            change,
        };
        self.law_append_only(id, reference, change);
        self.lemma_predecessor_in_log(id, reference, change);
        if self.predecessor(id, reference, change).is_some() {
            assert(self.entry_ok(self.predecessor(id, reference, change).unwrap()));
        }
        self.lemma_change_applied_streams(id, reference, change);
        assert(new.log[n] == change);
        assert forall|i: int| 0 <= i < n implies #[trigger] new.record(i) == self.record(i) by {
            assert(self.entry_ok(i));
            assert(new.reference(i) == self.reference(i));
            assert(new.timestamp(i) == self.timestamp(i));
            assert(new.log[i] == self.log[i]);
            if self.reference(i).is_some() {
                assert(new.timestamp(self.reference(i).unwrap()) == self.timestamp(
                    self.reference(i).unwrap(),
                ));
            }
        }
        assert(new.record(n) == added) by {
            if reference.is_some() {
                assert(new.timestamp(reference.unwrap()) == self.timestamp(reference.unwrap()));
            }
        }
        assert forall|r: Record<A, T>| new.records().contains(r) == self.records().insert(
            added,
        ).contains(r) by {
            if new.records().contains(r) {
                let i = choose|i: int| 0 <= i < new.len() && #[trigger] new.record(i) == r;
                if i < n {
                    assert(self.record(i) == r);
                }
            }
            if self.records().contains(r) {
                let i = choose|i: int| 0 <= i < self.len() && #[trigger] self.record(i) == r;
                assert(new.record(i) == r);
            }
            if r == added {
                assert(new.record(n) == r);
            }
        }
        assert(new.records() =~= self.records().insert(added));
    }

    /// A chronofold holds the ops of a chronofold that holds the same
    /// records.
    proof fn lemma_records_held(self, other: Self)
        requires
            self.records() == other.records(),
        ensures
            self.ops_held_by(other),
    {
        assert forall|i: int| 0 <= i < self.len() implies #[trigger] self.op_held_by(other, i) by {
            let r = self.record(i);
            assert(self.records().contains(r));
            assert(other.records().contains(r));
            let j = choose|j: int| 0 <= j < other.len() && #[trigger] other.record(j) == r;
            assert(other.timestamp(j) == self.timestamp(i));
        }
    }

    /// Chronofolds that hold the same set of ops have the same version,
    /// whatever the ops are and whatever the order was in which each of
    /// them applied the ops.
    pub proof fn law_same_ops_same_version(self, other: Self)
        requires
            self.wf(),
            other.wf(),
            self.records() == other.records(),
        ensures
            self.version == other.version,
    {
        self.lemma_records_held(other);
        other.lemma_records_held(self);
        assert forall|author: A| self.version.contains_key(author) implies other.version.contains_key(
            author,
        ) && other.version[author].0 >= self.version[author].0 by {
            self.lemma_version_behind(other, author);
        }
        assert forall|author: A| other.version.contains_key(author) implies self.version.contains_key(
            author,
        ) && self.version[author].0 >= other.version[author].0 by {
            other.lemma_version_behind(self, author);
        }
        assert(self.version =~= other.version);
    }

    /// What the version holds for an author is not beyond what the
    /// version of a chronofold holds that holds the same ops.
    proof fn lemma_version_behind(self, other: Self, author: A)
        requires
            self.wf(),
            other.wf(),
            self.ops_held_by(other),
            self.version.contains_key(author),
        ensures
            other.version.contains_key(author),
            other.version[author].0 >= self.version[author].0,
    {
        assert(self.version_attained(author));
        let i = choose|i: int| 0 <= i < self.len() && #[trigger] self.attains(author, i);
        assert(self.op_held_by(other, i));
        let j = self.twin(other, i);
        assert(other.entry_ok(j));
    }

    /// Convergence: tidy chronofolds in canonical order that hold the same
    /// set of ops show the same sequence and have the same version,
    /// whatever the order was in which each of them applied the ops.
    ///
    /// A chronofold is tidy, and in canonical order, where it was made by
    /// applying, to a new chronofold, inserts and tombstones that refer to
    /// roots and inserts, and local runs behind roots and inserts. Left
    /// out are the sets of ops that hold an op that refers to a tombstone,
    /// or a second root: of those the sequence is not stated to be the
    /// same, and for an insert that refers to one of two tombstones of an
    /// element it is not. The versions are the same for every set of
    /// ops.
    pub proof fn law_same_ops_converge(self, other: Self)
        requires
            self.wf(),
            self.tidy(),
            self.canonical(),
            other.wf(),
            other.tidy(),
            other.canonical(),
            self.records() == other.records(),
        ensures
            self.elements(IndexRange::full()).len() == other.elements(IndexRange::full()).len(),
            forall|k: int|
                0 <= k < self.elements(IndexRange::full()).len() ==> self.log[#[trigger] self.elements(
                    IndexRange::full(),
                )[k]] == other.log[other.elements(IndexRange::full())[k]],
            self.version == other.version,
    {
        self.lemma_records_held(other);
        other.lemma_records_held(self);
        self.law_tidy_replicas_converge(other);
        self.law_same_ops_same_version(other);
    }
}

} // verus!
