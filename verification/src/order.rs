//! The order of the weave: paths of steps, and which path goes first.
use vstd::prelude::*;

use crate::distributed::{lemma_author_number_identifies, Author, Timestamp};

verus! {

/// One step of a path: the timestamp of an entry, or the mark of a
/// tombstone.
pub enum Step<A> {
    /// The step to a tombstone. All tombstones of an entry share it.
    Tomb,
    /// The step to a root or an insert, by its timestamp.
    Stamp(Timestamp<A>),
}

/// Whether step `a` goes before step `b` among the steps from one entry:
/// tombstones go before all else, and a greater timestamp goes before a
/// smaller one.
pub open spec fn first<A: Author>(a: Step<A>, b: Step<A>) -> bool {
    match (a, b) {
        (Step::Tomb, Step::Stamp(_)) => true,
        (Step::Stamp(s), Step::Stamp(t)) => s.spec_gt(t),
        _ => false,
    }
}

/// Of two different steps one goes before the other, and never both.
pub proof fn lemma_first_total<A: Author>(a: Step<A>, b: Step<A>)
    ensures
        a == b || first(a, b) || first(b, a),
        !(first(a, b) && first(b, a)),
        !first(a, a),
{
    match (a, b) {
        (Step::Stamp(s), Step::Stamp(t)) => {
            lemma_author_number_identifies(s.author, t.author);
        },
        _ => {},
    }
}

/// The order of steps is transitive.
pub proof fn lemma_first_transitive<A: Author>(a: Step<A>, b: Step<A>, c: Step<A>)
    requires
        first(a, b),
        first(b, c),
    ensures
        first(a, c),
{
}

/// Whether the entry with path `p` goes before the entry with path `q`.
///
/// The path of an entry lists the steps from its root down to the entry.
/// An entry goes before its descendants, and of two paths that part ways
/// the one with the step that goes first goes first.
pub open spec fn ahead<A: Author>(p: Seq<Step<A>>, q: Seq<Step<A>>) -> bool
    decreases p.len(),
{
    if p.len() == 0 {
        q.len() > 0
    } else if q.len() == 0 {
        false
    } else if p[0] == q[0] {
        ahead(p.drop_first(), q.drop_first())
    } else {
        first(p[0], q[0])
    }
}

/// Whether the path `p` goes before the path `q` or is the same path.
pub open spec fn ahead_or_same<A: Author>(p: Seq<Step<A>>, q: Seq<Step<A>>) -> bool {
    ahead(p, q) || p == q
}

/// No path goes before itself, and of two paths at most one goes before
/// the other.
pub proof fn lemma_ahead_asymmetric<A: Author>(p: Seq<Step<A>>, q: Seq<Step<A>>)
    ensures
        !(ahead(p, q) && ahead(q, p)),
        !ahead(p, p),
    decreases p.len(),
{
    if p.len() > 0 {
        lemma_ahead_asymmetric(p.drop_first(), p.drop_first());
        if q.len() > 0 {
            if p[0] == q[0] {
                lemma_ahead_asymmetric(p.drop_first(), q.drop_first());
            } else {
                lemma_first_total(p[0], q[0]);
            }
        }
    }
}

/// A path goes before every path that continues it.
pub proof fn lemma_ahead_of_extension<A: Author>(p: Seq<Step<A>>, e: Seq<Step<A>>)
    requires
        e.len() > 0,
    ensures
        ahead(p, p + e),
    decreases p.len(),
{
    if p.len() > 0 {
        lemma_ahead_of_extension(p.drop_first(), e);
        assert((p + e).drop_first() =~= p.drop_first() + e);
    }
}

/// A path that goes before another goes before what continues the other.
pub proof fn lemma_ahead_extend_right<A: Author>(
    p: Seq<Step<A>>,
    q: Seq<Step<A>>,
    e: Seq<Step<A>>,
)
    requires
        ahead(p, q),
    ensures
        ahead(p, q + e),
    decreases p.len(),
{
    if p.len() > 0 {
        if p[0] == q[0] {
            lemma_ahead_extend_right(p.drop_first(), q.drop_first(), e);
            assert((q + e).drop_first() =~= q.drop_first() + e);
        }
    }
}

/// Where a path goes before another without being its beginning, what
/// continues the path goes before the other too, and is not its
/// beginning either.
pub proof fn lemma_ahead_extend_left<A: Author>(
    p: Seq<Step<A>>,
    q: Seq<Step<A>>,
    e: Seq<Step<A>>,
)
    requires
        ahead(p, q),
        !p.is_prefix_of(q),
    ensures
        ahead(p + e, q),
        !(p + e).is_prefix_of(q),
    decreases p.len(),
{
    if p.len() == 0 {
        assert(p =~= q.subrange(0, 0));
    } else {
        assert((p + e).drop_first() =~= p.drop_first() + e);
        if p[0] == q[0] {
            let pt = p.drop_first();
            let qt = q.drop_first();
            if pt.is_prefix_of(qt) {
                assert(p =~= q.subrange(0, p.len() as int)) by {
                    assert forall|i: int| 0 <= i < p.len() implies p[i] == q[i] by {
                        if i > 0 {
                            assert(pt[i - 1] == qt.subrange(0, pt.len() as int)[i - 1]);
                        }
                    }
                }
            }
            lemma_ahead_extend_left(pt, qt, e);
            if (p + e).is_prefix_of(q) {
                let pe = p + e;
                assert((pt + e) =~= qt.subrange(0, (pt + e).len() as int)) by {
                    assert forall|i: int| 0 <= i < (pt + e).len() implies (pt + e)[i] == qt[i] by {
                        assert(pe[i + 1] == q.subrange(0, pe.len() as int)[i + 1]);
                    }
                }
            }
        } else {
            if (p + e).is_prefix_of(q) {
                assert((p + e)[0] == q.subrange(0, (p + e).len() as int)[0]);
            }
        }
    }
}

/// Of two paths that part ways behind a common beginning, the one that
/// goes on with the step that goes first goes first.
pub proof fn lemma_ahead_branch<A: Author>(
    common: Seq<Step<A>>,
    a: Step<A>,
    u: Seq<Step<A>>,
    b: Step<A>,
    v: Seq<Step<A>>,
)
    requires
        a != b,
    ensures
        ahead(common + seq![a] + u, common + seq![b] + v) == first(a, b),
        !(common + seq![a] + u).is_prefix_of(common + seq![b] + v),
    decreases common.len(),
{
    let p = common + seq![a] + u;
    let q = common + seq![b] + v;
    if common.len() == 0 {
        assert(p[0] == a);
        assert(q[0] == b);
        if p.is_prefix_of(q) {
            assert(p[0] == q.subrange(0, p.len() as int)[0]);
        }
    } else {
        let rest = common.drop_first();
        assert(p.drop_first() =~= rest + seq![a] + u);
        assert(q.drop_first() =~= rest + seq![b] + v);
        assert(p[0] == q[0]);
        lemma_ahead_branch(rest, a, u, b, v);
        if p.is_prefix_of(q) {
            let pt = p.drop_first();
            let qt = q.drop_first();
            assert(pt =~= qt.subrange(0, pt.len() as int)) by {
                assert forall|i: int| 0 <= i < pt.len() implies pt[i] == qt[i] by {
                    assert(p[i + 1] == q.subrange(0, p.len() as int)[i + 1]);
                }
            }
        }
    }
}

/// A path that lies between a path and a continuation of that path
/// begins with that path.
pub proof fn lemma_between<A: Author>(p: Seq<Step<A>>, z: Seq<Step<A>>, e: Seq<Step<A>>)
    requires
        ahead_or_same(p, z),
        ahead_or_same(z, p + e),
    ensures
        p.is_prefix_of(z),
{
    if p == z {
        assert(p =~= z.subrange(0, p.len() as int));
    } else if !p.is_prefix_of(z) {
        lemma_ahead_extend_left(p, z, e);
        lemma_ahead_asymmetric(p + e, z);
    }
}

} // verus!
