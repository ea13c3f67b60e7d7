//! What recording entries does to the packed streams.
use vstd::prelude::*;

use crate::costructures::{
    agree_outside, defaults_elided, key_within, lemma_range_update_elides,
    lemma_relative_update_elides, lemma_agree_outside_chain, lemma_range_lookup_kept,
    lemma_range_lookup_run, lemma_range_lookup_updated, lemma_range_update_touches,
    lemma_relative_lookup_kept, lemma_relative_lookup_updated, lemma_relative_update_touches,
    range_lookup, range_update, spec_entry_written, spec_next_index, spec_reference,
    spec_run_written, spec_set_index_shift, spec_set_next_index, spec_set_reference, stream_key,
    AUTHOR_BASE, INDEX_LIMIT, NEXT_BASE, NEXT_DEFAULT, REFERENCE_BASE, REFERENCE_DEFAULT,
    SHIFT_BASE,
};
use crate::index::{IndexShift, LocalIndex};

verus! {

/// Whether the streams hold for every index below `below` in `new` what
/// they hold in `old`, but for the successor of `except`.
pub open spec fn streams_kept(
    old: Map<u64, usize>,
    new: Map<u64, usize>,
    below: usize,
    except: Option<LocalIndex>,
) -> bool {
    &&& forall|j: usize|
        j < below && Some(LocalIndex(j)) != except ==> #[trigger] spec_next_index(
            new,
            LocalIndex(j),
        ) == spec_next_index(old, LocalIndex(j))
    &&& forall|j: usize|
        j < below ==> #[trigger] spec_reference(new, LocalIndex(j)) == spec_reference(
            old,
            LocalIndex(j),
        )
    &&& forall|j: usize|
        j < below ==> #[trigger] range_lookup(new, AUTHOR_BASE, j) == range_lookup(
            old,
            AUTHOR_BASE,
            j,
        )
    &&& forall|j: usize|
        j < below ==> #[trigger] range_lookup(new, SHIFT_BASE, j) == range_lookup(
            old,
            SHIFT_BASE,
            j,
        )
}

/// The streams of maps that agree but for keys at or beyond `below`, and
/// for the successor key of `except`, are kept below `below`.
pub proof fn lemma_streams_kept(
    old: Map<u64, usize>,
    new: Map<u64, usize>,
    keys: Set<u64>,
    below: usize,
    except: Option<LocalIndex>,
)
    requires
        below < INDEX_LIMIT,
        except.is_some() ==> except.unwrap().0 < below,
        agree_outside(old, new, keys),
        forall|key: u64| #[trigger]
            keys.contains(key) ==> (except.is_some() && key == stream_key(
                NEXT_BASE,
                except.unwrap().0,
            )) || !key_within(key, below as int),
    ensures
        streams_kept(old, new, below, except),
{
    assert forall|j: usize| j < below && Some(LocalIndex(j)) != except implies #[trigger] spec_next_index(
        new,
        LocalIndex(j),
    ) == spec_next_index(old, LocalIndex(j)) by {
        let key = stream_key(NEXT_BASE, j);
        assert(key_within(key, below as int));
        lemma_relative_lookup_kept(old, new, keys, NEXT_BASE, j, NEXT_DEFAULT);
    }
    assert forall|j: usize| j < below implies #[trigger] spec_reference(new, LocalIndex(j))
        == spec_reference(old, LocalIndex(j)) by {
        let key = stream_key(REFERENCE_BASE, j);
        assert(key_within(key, below as int));
        lemma_relative_lookup_kept(old, new, keys, REFERENCE_BASE, j, REFERENCE_DEFAULT);
    }
    assert forall|j: usize| j < below implies #[trigger] range_lookup(new, AUTHOR_BASE, j)
        == range_lookup(old, AUTHOR_BASE, j) by {
        assert forall|key: u64| keys.contains(key) implies !(AUTHOR_BASE <= key <= stream_key(
            AUTHOR_BASE,
            j,
        )) by {
            if AUTHOR_BASE <= key <= stream_key(AUTHOR_BASE, j) {
                assert(key_within(key, below as int));
            }
        }
        lemma_range_lookup_kept(old, new, keys, AUTHOR_BASE, j);
    }
    assert forall|j: usize| j < below implies #[trigger] range_lookup(new, SHIFT_BASE, j)
        == range_lookup(old, SHIFT_BASE, j) by {
        assert forall|key: u64| keys.contains(key) implies !(SHIFT_BASE <= key <= stream_key(
            SHIFT_BASE,
            j,
        )) by {
            if SHIFT_BASE <= key <= stream_key(SHIFT_BASE, j) {
                assert(key_within(key, below as int));
            }
        }
        lemma_range_lookup_kept(old, new, keys, SHIFT_BASE, j);
    }
}

/// Recording an entry gives it the successor of its predecessor, its
/// reference, its author and its shift, makes it the successor of its
/// predecessor, and changes nothing else of the entries before it.
pub proof fn lemma_entry_written(
    packed: Map<u64, usize>,
    at: LocalIndex,
    predecessor: Option<LocalIndex>,
    author: usize,
    shift: IndexShift,
    reference: Option<LocalIndex>,
)
    requires
        at.0 < INDEX_LIMIT,
        predecessor.is_some() ==> predecessor.unwrap().0 < at.0,
        reference.is_some() ==> reference.unwrap().0 < at.0,
        predecessor.is_some() && spec_next_index(packed, predecessor.unwrap()).is_some()
            ==> spec_next_index(packed, predecessor.unwrap()).unwrap().0 < at.0,
    ensures
        ({
            let new = spec_entry_written(packed, at, predecessor, author, shift, reference);
            &&& spec_next_index(new, at) == (match predecessor {
                Some(p) => spec_next_index(packed, p),
                None => None,
            })
            &&& predecessor.is_some() ==> spec_next_index(new, predecessor.unwrap()) == Some(at)
            &&& spec_reference(new, at) == reference
            &&& range_lookup(new, AUTHOR_BASE, at.0) == Some(author)
            &&& range_lookup(new, SHIFT_BASE, at.0) == Some(shift.0)
            &&& streams_kept(packed, new, at.0, predecessor)
            &&& forall|key: u64| #[trigger]
                new.contains_key(key) ==> packed.contains_key(key) || key_within(
                    key,
                    at.0 + 1,
                )
            &&& forall|key: u64|
                packed.contains_key(key) && key_within(key, at.0 as int)
                    && !(predecessor.is_some() && key == stream_key(NEXT_BASE, predecessor.unwrap().0))
                    ==> #[trigger] new.contains_key(key)
            &&& defaults_elided(packed) ==> defaults_elided(new)
        }),
{
    let successor = match predecessor {
        Some(p) => spec_next_index(packed, p),
        None => None,
    };
    let relinked = match predecessor {
        Some(p) => spec_set_next_index(packed, p, Some(at)),
        None => packed,
    };
    let linked = spec_set_next_index(relinked, at, successor);
    let signed = range_update(linked, AUTHOR_BASE, at.0, author);
    let shifted = spec_set_index_shift(signed, at, shift);
    let new = spec_set_reference(shifted, at, reference);
    let key_p = match predecessor {
        Some(p) => set![stream_key(NEXT_BASE, p.0)],
        None => Set::<u64>::empty(),
    };
    let key_n = set![stream_key(NEXT_BASE, at.0)];
    let key_a = set![stream_key(AUTHOR_BASE, at.0)];
    let key_s = set![stream_key(SHIFT_BASE, at.0)];
    let key_r = set![stream_key(REFERENCE_BASE, at.0)];
    if predecessor.is_some() {
        let p = predecessor.unwrap();
        lemma_relative_update_touches(packed, NEXT_BASE, p.0, Some(at), NEXT_DEFAULT);
        lemma_relative_lookup_updated(packed, NEXT_BASE, p.0, Some(at), NEXT_DEFAULT);
    }
    assert(agree_outside(packed, relinked, key_p));
    lemma_relative_update_touches(relinked, NEXT_BASE, at.0, successor, NEXT_DEFAULT);
    lemma_relative_lookup_updated(relinked, NEXT_BASE, at.0, successor, NEXT_DEFAULT);
    lemma_range_update_touches(linked, AUTHOR_BASE, at.0, author);
    lemma_range_lookup_updated(linked, AUTHOR_BASE, at.0, author);
    lemma_range_update_touches(signed, SHIFT_BASE, at.0, shift.0);
    lemma_range_lookup_updated(signed, SHIFT_BASE, at.0, shift.0);
    lemma_relative_update_touches(shifted, REFERENCE_BASE, at.0, reference, REFERENCE_DEFAULT);
    lemma_relative_lookup_updated(shifted, REFERENCE_BASE, at.0, reference, REFERENCE_DEFAULT);
    // From each intermediate map to the last one.
    lemma_agree_outside_chain(signed, shifted, new, key_s, key_r);
    lemma_agree_outside_chain(linked, signed, new, key_a, key_s.union(key_r));
    lemma_agree_outside_chain(relinked, linked, new, key_n, key_a.union(key_s.union(key_r)));
    lemma_agree_outside_chain(
        packed,
        relinked,
        new,
        key_p,
        key_n.union(key_a.union(key_s.union(key_r))),
    );
    if defaults_elided(packed) {
        if predecessor.is_some() {
            lemma_relative_update_elides(packed, predecessor.unwrap(), Some(at));
        }
        lemma_relative_update_elides(relinked, at, successor);
        lemma_range_update_elides(linked, at, author);
        lemma_range_update_elides(signed, at, shift.0);
        lemma_relative_update_elides(shifted, at, reference);
    }
    let after_shift = key_r;
    let after_sign = key_s.union(key_r);
    let after_link = key_a.union(key_s.union(key_r));
    let after_relink = key_n.union(after_link);
    let all = key_p.union(after_relink);
    lemma_range_lookup_kept(shifted, new, after_shift, SHIFT_BASE, at.0);
    lemma_range_lookup_kept(signed, new, after_sign, AUTHOR_BASE, at.0);
    lemma_relative_lookup_kept(linked, new, after_link, NEXT_BASE, at.0, NEXT_DEFAULT);
    if predecessor.is_some() {
        lemma_relative_lookup_kept(
            relinked,
            new,
            after_relink,
            NEXT_BASE,
            predecessor.unwrap().0,
            NEXT_DEFAULT,
        );
    }
    lemma_streams_kept(packed, new, all, at.0, predecessor);
}

/// Recording a run of entries by one author weaves the run in behind its
/// predecessor, lets its first entry refer to the reference and every
/// later one to the entry before it, gives every entry of the run the
/// author and the shift zero, and changes nothing else of the entries
/// before the run.
pub proof fn lemma_run_written(
    packed: Map<u64, usize>,
    first: LocalIndex,
    last: LocalIndex,
    predecessor: LocalIndex,
    reference: LocalIndex,
    author: usize,
)
    requires
        last.0 < INDEX_LIMIT,
        first.0 <= last.0,
        predecessor.0 < first.0,
        reference.0 < first.0,
        spec_next_index(packed, predecessor).is_some() ==> spec_next_index(
            packed,
            predecessor,
        ).unwrap().0 < first.0,
        forall|key: u64| #[trigger] packed.contains_key(key) ==> key_within(key, first.0 as int),
    ensures
        ({
            let new = spec_run_written(packed, first, last, predecessor, reference, author);
            &&& spec_next_index(new, predecessor) == Some(first)
            &&& forall|j: usize|
                first.0 <= j < last.0 ==> #[trigger] spec_next_index(new, LocalIndex(j)) == Some(
                    LocalIndex((j + 1) as usize),
                )
            &&& spec_next_index(new, last) == spec_next_index(packed, predecessor)
            &&& spec_reference(new, first) == Some(reference)
            &&& forall|j: usize|
                first.0 < j <= last.0 ==> #[trigger] spec_reference(new, LocalIndex(j)) == Some(
                    LocalIndex((j - 1) as usize),
                )
            &&& forall|j: usize|
                first.0 <= j <= last.0 ==> #[trigger] range_lookup(new, AUTHOR_BASE, j) == Some(
                    author,
                )
            &&& forall|j: usize|
                first.0 <= j <= last.0 ==> #[trigger] range_lookup(new, SHIFT_BASE, j) == Some(
                    0usize,
                )
            &&& streams_kept(packed, new, first.0, Some(predecessor))
            &&& forall|key: u64| #[trigger] new.contains_key(key) ==> key_within(key, last.0 + 1)
            &&& forall|key: u64|
                packed.contains_key(key) && key != stream_key(NEXT_BASE, predecessor.0)
                    ==> #[trigger] new.contains_key(key)
            &&& defaults_elided(packed) ==> defaults_elided(new)
        }),
{
    let successor = spec_next_index(packed, predecessor);
    let relinked = spec_set_next_index(packed, predecessor, Some(first));
    let signed = range_update(relinked, AUTHOR_BASE, first.0, author);
    let shifted = spec_set_index_shift(signed, first, IndexShift(0));
    let attached = spec_set_reference(shifted, first, Some(reference));
    let new = spec_set_next_index(attached, last, successor);
    let key_p = set![stream_key(NEXT_BASE, predecessor.0)];
    let key_a = set![stream_key(AUTHOR_BASE, first.0)];
    let key_s = set![stream_key(SHIFT_BASE, first.0)];
    let key_r = set![stream_key(REFERENCE_BASE, first.0)];
    let key_l = set![stream_key(NEXT_BASE, last.0)];
    lemma_relative_update_touches(packed, NEXT_BASE, predecessor.0, Some(first), NEXT_DEFAULT);
    lemma_relative_lookup_updated(packed, NEXT_BASE, predecessor.0, Some(first), NEXT_DEFAULT);
    lemma_range_update_touches(relinked, AUTHOR_BASE, first.0, author);
    lemma_range_lookup_updated(relinked, AUTHOR_BASE, first.0, author);
    lemma_range_update_touches(signed, SHIFT_BASE, first.0, 0);
    lemma_range_lookup_updated(signed, SHIFT_BASE, first.0, 0);
    lemma_relative_update_touches(
        shifted,
        REFERENCE_BASE,
        first.0,
        Some(reference),
        REFERENCE_DEFAULT,
    );
    lemma_relative_lookup_updated(
        shifted,
        REFERENCE_BASE,
        first.0,
        Some(reference),
        REFERENCE_DEFAULT,
    );
    lemma_relative_update_touches(attached, NEXT_BASE, last.0, successor, NEXT_DEFAULT);
    lemma_relative_lookup_updated(attached, NEXT_BASE, last.0, successor, NEXT_DEFAULT);
    if defaults_elided(packed) {
        lemma_relative_update_elides(packed, predecessor, Some(first));
        lemma_range_update_elides(relinked, first, author);
        lemma_range_update_elides(signed, first, 0);
        lemma_relative_update_elides(shifted, first, Some(reference));
        lemma_relative_update_elides(attached, last, successor);
    }
    let after_attach = key_l;
    let after_shift = key_r.union(after_attach);
    let after_sign = key_s.union(after_shift);
    let after_relink = key_a.union(after_sign);
    let all = key_p.union(after_relink);
    lemma_agree_outside_chain(shifted, attached, new, key_r, key_l);
    lemma_agree_outside_chain(signed, shifted, new, key_s, after_shift);
    lemma_agree_outside_chain(relinked, signed, new, key_a, after_sign);
    lemma_agree_outside_chain(packed, relinked, new, key_p, after_relink);
    lemma_relative_lookup_kept(relinked, new, after_relink, NEXT_BASE, predecessor.0, NEXT_DEFAULT);
    lemma_relative_lookup_kept(
        attached,
        new,
        after_attach,
        REFERENCE_BASE,
        first.0,
        REFERENCE_DEFAULT,
    );
    lemma_range_lookup_kept(signed, new, after_sign, AUTHOR_BASE, first.0);
    lemma_range_lookup_kept(shifted, new, after_shift, SHIFT_BASE, first.0);
    assert forall|j: usize| first.0 <= j < last.0 implies #[trigger] spec_next_index(
        new,
        LocalIndex(j),
    ) == Some(LocalIndex((j + 1) as usize)) by {
        let key = stream_key(NEXT_BASE, j);
        assert(!all.contains(key));
        assert(packed.contains_key(key) == new.contains_key(key));
    }
    assert forall|j: usize| first.0 < j <= last.0 implies #[trigger] spec_reference(
        new,
        LocalIndex(j),
    ) == Some(LocalIndex((j - 1) as usize)) by {
        let key = stream_key(REFERENCE_BASE, j);
        assert(!all.contains(key));
        assert(packed.contains_key(key) == new.contains_key(key));
    }
    assert forall|j: usize| first.0 <= j <= last.0 implies #[trigger] range_lookup(
        new,
        AUTHOR_BASE,
        j,
    ) == Some(author) by {
        assert forall|key: u64|
            stream_key(AUTHOR_BASE, first.0) < key <= stream_key(
                AUTHOR_BASE,
                j,
            ) implies !new.contains_key(key) by {
            assert(!all.contains(key));
            assert(packed.contains_key(key) == new.contains_key(key));
        }
        lemma_range_lookup_run(new, AUTHOR_BASE, first.0, j);
    }
    assert forall|j: usize| first.0 <= j <= last.0 implies #[trigger] range_lookup(
        new,
        SHIFT_BASE,
        j,
    ) == Some(0usize) by {
        assert forall|key: u64|
            stream_key(SHIFT_BASE, first.0) < key <= stream_key(
                SHIFT_BASE,
                j,
            ) implies !new.contains_key(key) by {
            assert(!all.contains(key));
            assert(packed.contains_key(key) == new.contains_key(key));
        }
        lemma_range_lookup_run(new, SHIFT_BASE, first.0, j);
    }
    lemma_streams_kept(packed, new, all, first.0, Some(predecessor));
    assert forall|key: u64| #[trigger] new.contains_key(key) implies key_within(
        key,
        last.0 + 1,
    ) by {
        if !all.contains(key) {
            assert(packed.contains_key(key) == new.contains_key(key));
        }
    }
    assert forall|key: u64|
        packed.contains_key(key) && key != stream_key(
            NEXT_BASE,
            predecessor.0,
        ) implies #[trigger] new.contains_key(key) by {
        assert(key_within(key, first.0 as int));
        assert(!all.contains(key));
        assert(packed.contains_key(key) == new.contains_key(key));
    }
}

} // verus!
