//! The causal order as a weave: lemmas on walks along successors.
use vstd::prelude::*;

use crate::distributed::Author;
use crate::model::Model;

verus! {

impl<A: Author, T> Model<A, T> {
    /// A weave and the places of the entries in it, for a model that has
    /// them.
    pub open spec fn some_weave(self) -> (Seq<int>, Seq<int>) {
        choose|pair: (Seq<int>, Seq<int>)| self.woven(pair.0, pair.1)
    }

    /// A well-formed model has a weave.
    pub proof fn lemma_weave_exists(self)
        requires
            self.wf(),
        ensures
            self.woven(self.some_weave().0, self.some_weave().1),
    {
        let (weave, place) = choose|weave: Seq<int>, place: Seq<int>| self.woven(weave, place);
        assert(self.woven((weave, place).0, (weave, place).1));
    }

    /// A walk visits no more entries than it has fuel.
    pub proof fn lemma_walk_length(self, cur: Option<int>, stop: Option<int>, fuel: nat)
        ensures
            self.walk(cur, stop, fuel).len() <= fuel,
        decreases fuel,
    {
        if fuel == 0 || cur.is_none() || cur == stop || !(0 <= cur.unwrap() < self.len()) {
        } else {
            self.lemma_walk_length(self.next(cur.unwrap()), stop, (fuel - 1) as nat);
        }
    }

    /// A walk visits entries of the log only.
    pub proof fn lemma_walk_in_log(self, cur: Option<int>, stop: Option<int>, fuel: nat)
        ensures
            forall|k: int|
                0 <= k < self.walk(cur, stop, fuel).len() ==> 0 <= #[trigger] self.walk(
                    cur,
                    stop,
                    fuel,
                )[k] < self.len(),
        decreases fuel,
    {
        if fuel == 0 || cur.is_none() || cur == stop || !(0 <= cur.unwrap() < self.len()) {
        } else {
            let whole = self.walk(cur, stop, fuel);
            let rest = self.walk(self.next(cur.unwrap()), stop, (fuel - 1) as nat);
            self.lemma_walk_in_log(self.next(cur.unwrap()), stop, (fuel - 1) as nat);
            assert(whole == seq![cur.unwrap()] + rest);
            assert forall|k: int| 0 <= k < whole.len() implies 0 <= #[trigger] whole[k]
                < self.len() by {
                if k > 0 {
                    assert(whole[k] == rest[k - 1]);
                }
            }
        }
    }

    /// A walk from an entry needs no more fuel than there are places from
    /// it to the end of the weave.
    pub proof fn lemma_walk_fuel(
        self,
        weave: Seq<int>,
        place: Seq<int>,
        c: int,
        stop: Option<int>,
        fuel: nat,
        other: nat,
    )
        requires
            self.woven(weave, place),
            0 <= c < self.len(),
            fuel >= self.len() - place[c],
            other >= self.len() - place[c],
        ensures
            self.walk(Some(c), stop, fuel) == self.walk(Some(c), stop, other),
            self.walk(Some(c), stop, fuel).len() <= self.len() - place[c],
        decreases self.len() - place[c],
    {
        assert(weave[place[c]] == c);
        assert(self.linked(weave, place[c]));
        if Some(c) == stop {
        } else {
            assert(self.walk(Some(c), stop, fuel) == seq![c] + self.walk(
                self.next(c),
                stop,
                (fuel - 1) as nat,
            ));
            assert(self.walk(Some(c), stop, other) == seq![c] + self.walk(
                self.next(c),
                stop,
                (other - 1) as nat,
            ));
            match self.next(c) {
                Some(m) => {
                    assert(place[weave[place[c] + 1]] == place[c] + 1);
                    self.lemma_walk_fuel(
                        weave,
                        place,
                        m,
                        stop,
                        (fuel - 1) as nat,
                        (other - 1) as nat,
                    );
                },
                None => {
                    assert(self.walk(None, stop, (fuel - 1) as nat) == Seq::<int>::empty());
                    assert(self.walk(None, stop, (other - 1) as nat) == Seq::<int>::empty());
                },
            }
        }
    }

    /// The causal order from an entry is the entry, then the causal order
    /// from its successor.
    pub proof fn lemma_causal_step(self, c: int, stop: Option<int>)
        requires
            self.wf(),
            0 <= c < self.len(),
            Some(c) != stop,
        ensures
            self.causal(Some(c), stop) == seq![c] + self.causal(self.next(c), stop),
            self.causal(self.next(c), stop).len() < self.causal(Some(c), stop).len(),
    {
        self.lemma_weave_exists();
        let (weave, place) = self.some_weave();
        assert(weave[place[c]] == c);
        assert(self.linked(weave, place[c]));
        assert(self.walk(Some(c), stop, self.log.len()) == seq![c] + self.walk(
            self.next(c),
            stop,
            (self.log.len() - 1) as nat,
        ));
        match self.next(c) {
            Some(m) => {
                assert(place[weave[place[c] + 1]] == place[c] + 1);
                self.lemma_walk_fuel(
                    weave,
                    place,
                    m,
                    stop,
                    self.log.len(),
                    (self.log.len() - 1) as nat,
                );
            },
            None => {
                assert(self.walk(None, stop, (self.log.len() - 1) as nat) == Seq::<int>::empty());
                assert(self.walk(None, stop, self.log.len()) == Seq::<int>::empty());
            },
        }
    }

    /// The successor of an entry is an entry, and no root.
    pub proof fn lemma_successor_no_root(self, i: int)
        requires
            self.wf(),
            0 <= i < self.len(),
        ensures
            self.next(i).is_some() ==> 0 <= self.next(i).unwrap() < self.len() && !(
            self.log[self.next(i).unwrap()] is Root),
            self.skip_root(self.next(i)) == self.next(i),
    {
        self.lemma_weave_exists();
        let (weave, place) = self.some_weave();
        assert(weave[place[i]] == i);
        assert(self.linked(weave, place[i]));
        assert(self.entry_ok(i));
    }

    /// The causal order visits entries of the log only.
    pub proof fn lemma_causal_in_log(self, cur: Option<int>, stop: Option<int>)
        ensures
            forall|k: int|
                0 <= k < self.causal(cur, stop).len() ==> 0 <= #[trigger] self.causal(
                    cur,
                    stop,
                )[k] < self.len(),
    {
        self.lemma_walk_in_log(cur, stop, self.log.len());
    }

    /// A walk from an entry lists, step by step, what follows the entry in
    /// the weave.
    pub proof fn lemma_walk_follows_weave(
        self,
        weave: Seq<int>,
        place: Seq<int>,
        c: int,
        stop: Option<int>,
        fuel: nat,
    )
        requires
            self.woven(weave, place),
            0 <= c < self.len(),
        ensures
            self.walk(Some(c), stop, fuel).len() <= self.len() - place[c],
            forall|k: int|
                0 <= k < self.walk(Some(c), stop, fuel).len() ==> #[trigger] self.walk(
                    Some(c),
                    stop,
                    fuel,
                )[k] == weave[place[c] + k],
        decreases fuel,
    {
        assert(weave[place[c]] == c);
        assert(self.linked(weave, place[c]));
        if fuel == 0 || Some(c) == stop {
            assert(self.walk(Some(c), stop, fuel).len() == 0);
        } else {
            let whole = self.walk(Some(c), stop, fuel);
            let rest = self.walk(self.next(c), stop, (fuel - 1) as nat);
            assert(whole == seq![c] + rest);
            match self.next(c) {
                Some(m) => {
                    assert(place[weave[place[c] + 1]] == place[c] + 1);
                    self.lemma_walk_follows_weave(weave, place, m, stop, (fuel - 1) as nat);
                },
                None => {
                    assert(rest == Seq::<int>::empty());
                },
            }
            assert forall|k: int| 0 <= k < whole.len() implies #[trigger] whole[k] == weave[place[c]
                + k] by {
                if k > 0 {
                    assert(whole[k] == rest[k - 1]);
                }
            }
        }
    }

    /// The causal order visits no entry twice.
    pub proof fn lemma_causal_no_duplicates(self, cur: Option<int>, stop: Option<int>)
        requires
            self.wf(),
        ensures
            self.causal(cur, stop).no_duplicates(),
    {
        let s = self.causal(cur, stop);
        if s.len() > 0 {
            self.lemma_weave_exists();
            let (weave, place) = self.some_weave();
            let c = cur.unwrap();
            self.lemma_walk_follows_weave(weave, place, c, stop, self.log.len());
            assert forall|i: int, j: int| 0 <= i < s.len() && 0 <= j < s.len() && i != j implies s[i]
                != s[j] by {
                assert(s[i] == weave[place[c] + i]);
                assert(s[j] == weave[place[c] + j]);
                assert(place[weave[place[c] + i]] == place[c] + i);
                assert(place[weave[place[c] + j]] == place[c] + j);
            }
        }
    }
}

} // verus!
