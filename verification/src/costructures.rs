//! The four secondary streams of a chronofold, packed into one sorted map.
//!
//! Each stream owns a quarter of the key space: the two highest bits of a
//! key name the stream, the other 62 hold the log index. The successor and
//! reference streams store, by exact key, the offset from an index to its
//! target, and store nothing where the target is the default (the
//! neighbouring index). The author and index-shift streams store a value
//! only where it changes; an index takes the value found at the greatest
//! stored key that is not beyond it.
use std::collections::BTreeMap;
use std::marker::PhantomData;
use vstd::prelude::*;
use vstd::wrapping::usize_specs::{wrapping_add, wrapping_sub};

use crate::distributed::Author;
use crate::index::{IndexShift, LocalIndex};

verus! {

/// Log indices below this limit fit into a packed key.
pub const INDEX_LIMIT: u64 = 0x4000_0000_0000_0000;

/// First key of the successor stream.
pub const NEXT_BASE: u64 = 0;

/// First key of the reference stream.
pub const REFERENCE_BASE: u64 = 0x4000_0000_0000_0000;

/// First key of the author stream.
pub const AUTHOR_BASE: u64 = 0x8000_0000_0000_0000;

/// First key of the index-shift stream.
pub const SHIFT_BASE: u64 = 0xC000_0000_0000_0000;

/// The offset that stands for "the next index".
pub const NEXT_DEFAULT: usize = 1;

/// The offset that stands for "the previous index": minus one, wrapped.
pub const REFERENCE_DEFAULT: usize = usize::MAX;

/// Whether `base` is the first key of one of the four streams.
pub open spec fn is_stream_base(base: u64) -> bool {
    base == NEXT_BASE || base == REFERENCE_BASE || base == AUTHOR_BASE || base == SHIFT_BASE
}

/// The packed key of `index` in the stream that starts at `base`.
pub open spec fn stream_key(base: u64, index: usize) -> u64 {
    (base + index) as u64
}

/// What an offset stream holds for `index`: the default target where
/// nothing is stored, no target where zero is stored, and otherwise the
/// index moved by the stored offset.
pub open spec fn relative_lookup(
    packed: Map<u64, usize>,
    base: u64,
    index: usize,
    default_offset: usize,
) -> Option<LocalIndex> {
    let key = stream_key(base, index);
    if !packed.contains_key(key) {
        Some(LocalIndex(wrapping_add(index, default_offset)))
    } else if packed[key] == 0 {
        None
    } else {
        Some(LocalIndex(wrapping_add(index, packed[key])))
    }
}

/// The packed map after an offset stream was told the target of `index`.
/// The default target is never stored.
pub open spec fn relative_update(
    packed: Map<u64, usize>,
    base: u64,
    index: usize,
    value: Option<LocalIndex>,
    default_offset: usize,
) -> Map<u64, usize> {
    let key = stream_key(base, index);
    match value {
        Some(target) => if target.0 == wrapping_add(index, default_offset) {
            packed.remove(key)
        } else {
            packed.insert(key, wrapping_sub(target.0, index))
        },
        None => packed.insert(key, 0),
    }
}

/// The greatest stored key between `lo` and `hi`, both included.
pub open spec fn floor_key(packed: Map<u64, usize>, lo: u64, hi: u64) -> Option<u64>
    decreases hi - lo,
{
    if hi < lo {
        None
    } else if packed.contains_key(hi) {
        Some(hi)
    } else if hi == lo {
        None
    } else {
        floor_key(packed, lo, (hi - 1) as u64)
    }
}

/// What a run-length stream holds for `index`: the value at the greatest
/// stored key of the stream that is not beyond `index`.
pub open spec fn range_lookup(packed: Map<u64, usize>, base: u64, index: usize) -> Option<usize> {
    match floor_key(packed, base, stream_key(base, index)) {
        Some(key) => Some(packed[key]),
        None => None,
    }
}

/// The packed map after a run-length stream was told the value of
/// `index`. Nothing is written where the stream holds that value already.
pub open spec fn range_update(
    packed: Map<u64, usize>,
    base: u64,
    index: usize,
    value: usize,
) -> Map<u64, usize> {
    if range_lookup(packed, base, index) == Some(value) {
        packed
    } else {
        packed.insert(stream_key(base, index), value)
    }
}

pub open spec fn spec_next_index(packed: Map<u64, usize>, index: LocalIndex) -> Option<
    LocalIndex,
> {
    relative_lookup(packed, NEXT_BASE, index.0, NEXT_DEFAULT)
}

pub open spec fn spec_reference(packed: Map<u64, usize>, index: LocalIndex) -> Option<LocalIndex> {
    relative_lookup(packed, REFERENCE_BASE, index.0, REFERENCE_DEFAULT)
}

pub open spec fn spec_index_shift(packed: Map<u64, usize>, index: LocalIndex) -> Option<
    IndexShift,
> {
    match range_lookup(packed, SHIFT_BASE, index.0) {
        Some(shift) => Some(IndexShift(shift)),
        None => None,
    }
}

pub open spec fn spec_author<A: Author>(packed: Map<u64, usize>, index: LocalIndex) -> Option<A> {
    match range_lookup(packed, AUTHOR_BASE, index.0) {
        Some(raw) => Some(A::spec_from(raw)),
        None => None,
    }
}

pub open spec fn spec_set_next_index(
    packed: Map<u64, usize>,
    index: LocalIndex,
    value: Option<LocalIndex>,
) -> Map<u64, usize> {
    relative_update(packed, NEXT_BASE, index.0, value, NEXT_DEFAULT)
}

pub open spec fn spec_set_reference(
    packed: Map<u64, usize>,
    index: LocalIndex,
    value: Option<LocalIndex>,
) -> Map<u64, usize> {
    relative_update(packed, REFERENCE_BASE, index.0, value, REFERENCE_DEFAULT)
}

pub open spec fn spec_set_index_shift(
    packed: Map<u64, usize>,
    index: LocalIndex,
    value: IndexShift,
) -> Map<u64, usize> {
    range_update(packed, SHIFT_BASE, index.0, value.0)
}

pub open spec fn spec_set_author<A: Author>(
    packed: Map<u64, usize>,
    index: LocalIndex,
    value: A,
) -> Map<u64, usize> {
    range_update(packed, AUTHOR_BASE, index.0, value.spec_as_usize())
}

/// `floor_key` is the greatest stored key of its interval, and is `None`
/// only where the interval holds no stored key.
pub proof fn lemma_floor_key_greatest(packed: Map<u64, usize>, lo: u64, hi: u64)
    ensures
        match floor_key(packed, lo, hi) {
            Some(key) => {
                &&& lo <= key <= hi
                &&& packed.contains_key(key)
                &&& forall|other: u64|
                    packed.contains_key(other) && lo <= other <= hi ==> other <= key
            },
            None => forall|other: u64| packed.contains_key(other) ==> !(lo <= other <= hi),
        },
    decreases hi - lo,
{
    if hi < lo {
    } else if packed.contains_key(hi) {
    } else if hi == lo {
    } else {
        lemma_floor_key_greatest(packed, lo, (hi - 1) as u64);
    }
}

/// A stored key that is the greatest of its interval is the interval's
/// `floor_key`.
pub proof fn lemma_floor_key_unique(packed: Map<u64, usize>, lo: u64, hi: u64, key: u64)
    requires
        lo <= key <= hi,
        packed.contains_key(key),
        forall|other: u64| packed.contains_key(other) && lo <= other <= hi ==> other <= key,
    ensures
        floor_key(packed, lo, hi) == Some(key),
{
    lemma_floor_key_greatest(packed, lo, hi);
}

/// An interval without stored keys has no `floor_key`.
pub proof fn lemma_floor_key_none(packed: Map<u64, usize>, lo: u64, hi: u64)
    requires
        forall|other: u64| packed.contains_key(other) ==> !(lo <= other <= hi),
    ensures
        floor_key(packed, lo, hi).is_none(),
{
    lemma_floor_key_greatest(packed, lo, hi);
}

/// Two maps that hold the same keys between `lo` and `hi` have the same
/// `floor_key` there.
pub proof fn lemma_floor_key_frame(a: Map<u64, usize>, b: Map<u64, usize>, lo: u64, hi: u64)
    requires
        forall|key: u64| lo <= key <= hi ==> a.contains_key(key) == b.contains_key(key),
    ensures
        floor_key(a, lo, hi) == floor_key(b, lo, hi),
    decreases hi - lo,
{
    if hi < lo {
    } else if a.contains_key(hi) {
    } else if hi == lo {
    } else {
        lemma_floor_key_frame(a, b, lo, (hi - 1) as u64);
    }
}

/// Whether two maps hold the same entries between `lo` and `hi`.
pub open spec fn agree_between(a: Map<u64, usize>, b: Map<u64, usize>, lo: u64, hi: u64) -> bool {
    forall|key: u64|
        lo <= key <= hi ==> a.contains_key(key) == #[trigger] b.contains_key(key) && (
        a.contains_key(key) ==> a[key] == b[key])
}

/// What a run-length stream holds for an index depends only on the keys
/// of the stream up to that index.
pub proof fn lemma_range_lookup_frame(
    a: Map<u64, usize>,
    b: Map<u64, usize>,
    base: u64,
    index: usize,
)
    requires
        agree_between(a, b, base, stream_key(base, index)),
    ensures
        range_lookup(a, base, index) == range_lookup(b, base, index),
{
    let hi = stream_key(base, index);
    lemma_floor_key_frame(a, b, base, hi);
    lemma_floor_key_greatest(a, base, hi);
    if floor_key(a, base, hi).is_some() {
        let key = floor_key(a, base, hi).unwrap();
        assert(b.contains_key(key));
    }
}

/// After a run-length stream was told the value of an index, it holds
/// that value there.
pub proof fn lemma_range_lookup_updated(
    packed: Map<u64, usize>,
    base: u64,
    index: usize,
    value: usize,
)
    requires
        is_stream_base(base),
        index < INDEX_LIMIT,
    ensures
        range_lookup(range_update(packed, base, index, value), base, index) == Some(value),
{
}

/// An index takes the value of an earlier index of its stream where no
/// key is stored between the two.
pub proof fn lemma_range_lookup_run(packed: Map<u64, usize>, base: u64, from: usize, to: usize)
    requires
        is_stream_base(base),
        from <= to < INDEX_LIMIT,
        forall|key: u64|
            stream_key(base, from) < key <= stream_key(base, to) ==> !packed.contains_key(key),
    ensures
        range_lookup(packed, base, to) == range_lookup(packed, base, from),
{
    let lo = stream_key(base, from);
    let hi = stream_key(base, to);
    lemma_floor_key_greatest(packed, base, lo);
    match floor_key(packed, base, lo) {
        Some(key) => {
            lemma_floor_key_unique(packed, base, hi, key);
        },
        None => {
            lemma_floor_key_none(packed, base, hi);
        },
    }
}

/// After an offset stream was told the target of an index, it holds that
/// target there. The one exception is a target equal to the index itself:
/// its offset is zero, which reads as no target.
pub proof fn lemma_relative_lookup_updated(
    packed: Map<u64, usize>,
    base: u64,
    index: usize,
    value: Option<LocalIndex>,
    default_offset: usize,
)
    requires
        default_offset != 0,
    ensures
        relative_lookup(
            relative_update(packed, base, index, value, default_offset),
            base,
            index,
            default_offset,
        ) == (match value {
            Some(target) => if target.0 == index {
                None
            } else {
                Some(target)
            },
            None => None,
        }),
{
}

/// Whether `key` is the packed key, in one of the four streams, of a log
/// index below `len`.
pub open spec fn key_within(key: u64, len: int) -> bool {
    ||| 0 <= key < len
    ||| REFERENCE_BASE <= key < REFERENCE_BASE + len
    ||| AUTHOR_BASE <= key < AUTHOR_BASE + len
    ||| SHIFT_BASE <= key < SHIFT_BASE + len
}

/// The packed map after the entry at `at` was recorded: woven in behind
/// `predecessor`, whose successor it takes over, with its author, its
/// shift and its reference.
pub open spec fn spec_entry_written(
    packed: Map<u64, usize>,
    at: LocalIndex,
    predecessor: Option<LocalIndex>,
    author: usize,
    shift: IndexShift,
    reference: Option<LocalIndex>,
) -> Map<u64, usize> {
    let successor = match predecessor {
        Some(p) => spec_next_index(packed, p),
        None => None,
    };
    let relinked = match predecessor {
        Some(p) => spec_set_next_index(packed, p, Some(at)),
        None => packed,
    };
    let linked = spec_set_next_index(relinked, at, successor);
    let signed = range_update(linked, AUTHOR_BASE, at.0, author);
    let shifted = spec_set_index_shift(signed, at, shift);
    spec_set_reference(shifted, at, reference)
}

/// The packed map after the first entry of a run by one author was
/// recorded behind `predecessor`: it is the successor of the predecessor,
/// refers to `reference`, and starts a run of the author with shift
/// zero.
pub open spec fn spec_run_opened(
    packed: Map<u64, usize>,
    first: LocalIndex,
    predecessor: LocalIndex,
    reference: LocalIndex,
    author: usize,
) -> Map<u64, usize> {
    let relinked = spec_set_next_index(packed, predecessor, Some(first));
    let signed = range_update(relinked, AUTHOR_BASE, first.0, author);
    let shifted = spec_set_index_shift(signed, first, IndexShift(0));
    spec_set_reference(shifted, first, Some(reference))
}

/// The packed map after a run of entries by one author, from `first` to
/// `last`, was recorded behind `predecessor`, its first entry referring
/// to `reference`. Only the ends of the run are written: the entries in
/// between have the default successor and reference, and share the author
/// and the shift of the first. The last entry takes over the successor of
/// the predecessor.
pub open spec fn spec_run_written(
    packed: Map<u64, usize>,
    first: LocalIndex,
    last: LocalIndex,
    predecessor: LocalIndex,
    reference: LocalIndex,
    author: usize,
) -> Map<u64, usize> {
    spec_set_next_index(
        spec_run_opened(packed, first, predecessor, reference, author),
        last,
        spec_next_index(packed, predecessor),
    )
}

/// Whether the offset streams store no default: a key whose target is the
/// default one is not stored at all.
pub open spec fn defaults_elided(packed: Map<u64, usize>) -> bool {
    forall|key: u64| #[trigger]
        packed.contains_key(key) ==> (key < REFERENCE_BASE ==> packed[key] != NEXT_DEFAULT) && (
        REFERENCE_BASE <= key < AUTHOR_BASE ==> packed[key] != REFERENCE_DEFAULT)
}

/// Telling the successor stream or the reference stream the target of an
/// index stores no default.
pub proof fn lemma_relative_update_elides(
    packed: Map<u64, usize>,
    index: LocalIndex,
    value: Option<LocalIndex>,
)
    requires
        defaults_elided(packed),
        index.0 < INDEX_LIMIT,
    ensures
        defaults_elided(spec_set_next_index(packed, index, value)),
        defaults_elided(spec_set_reference(packed, index, value)),
{
}

/// Telling the author stream or the shift stream the value of an index
/// leaves the offset streams as they are.
pub proof fn lemma_range_update_elides(packed: Map<u64, usize>, index: LocalIndex, value: usize)
    requires
        defaults_elided(packed),
        index.0 < INDEX_LIMIT,
    ensures
        defaults_elided(range_update(packed, AUTHOR_BASE, index.0, value)),
        defaults_elided(range_update(packed, SHIFT_BASE, index.0, value)),
{
}

/// Whether two maps hold the same entries but for the keys in `keys`.
pub open spec fn agree_outside(a: Map<u64, usize>, b: Map<u64, usize>, keys: Set<u64>) -> bool {
    forall|key: u64|
        !keys.contains(key) ==> a.contains_key(key) == #[trigger] b.contains_key(key) && (
        a.contains_key(key) ==> a[key] == b[key])
}

/// Telling an offset stream the target of an index changes nothing but
/// the key of that index.
pub proof fn lemma_relative_update_touches(
    packed: Map<u64, usize>,
    base: u64,
    index: usize,
    value: Option<LocalIndex>,
    default_offset: usize,
)
    ensures
        agree_outside(
            packed,
            relative_update(packed, base, index, value, default_offset),
            set![stream_key(base, index)],
        ),
        forall|key: u64| #[trigger]
            relative_update(packed, base, index, value, default_offset).contains_key(key)
                ==> packed.contains_key(key) || key == stream_key(base, index),
{
}

/// Telling a run-length stream the value of an index changes nothing but
/// the key of that index.
pub proof fn lemma_range_update_touches(
    packed: Map<u64, usize>,
    base: u64,
    index: usize,
    value: usize,
)
    ensures
        agree_outside(
            packed,
            range_update(packed, base, index, value),
            set![stream_key(base, index)],
        ),
        forall|key: u64| #[trigger]
            range_update(packed, base, index, value).contains_key(key) ==> packed.contains_key(
                key,
            ) || key == stream_key(base, index),
{
}

/// Maps that agree outside some keys, chained.
pub proof fn lemma_agree_outside_chain(
    a: Map<u64, usize>,
    b: Map<u64, usize>,
    c: Map<u64, usize>,
    first: Set<u64>,
    second: Set<u64>,
)
    requires
        agree_outside(a, b, first),
        agree_outside(b, c, second),
    ensures
        agree_outside(a, c, first.union(second)),
{
    assert forall|key: u64| !first.union(second).contains(key) implies a.contains_key(key)
        == #[trigger] c.contains_key(key) && (a.contains_key(key) ==> a[key] == c[key]) by {
        assert(!first.contains(key));
        assert(!second.contains(key));
        assert(a.contains_key(key) == b.contains_key(key));
        assert(b.contains_key(key) == c.contains_key(key));
    }
}

/// An offset stream holds the same for an index in two maps that agree on
/// the key of the index.
pub proof fn lemma_relative_lookup_kept(
    a: Map<u64, usize>,
    b: Map<u64, usize>,
    keys: Set<u64>,
    base: u64,
    index: usize,
    default_offset: usize,
)
    requires
        agree_outside(a, b, keys),
        !keys.contains(stream_key(base, index)),
    ensures
        relative_lookup(a, base, index, default_offset) == relative_lookup(
            b,
            base,
            index,
            default_offset,
        ),
{
    assert(a.contains_key(stream_key(base, index)) == b.contains_key(stream_key(base, index)));
}

/// A run-length stream holds the same for an index in two maps that agree
/// on the keys of the stream up to the index.
pub proof fn lemma_range_lookup_kept(
    a: Map<u64, usize>,
    b: Map<u64, usize>,
    keys: Set<u64>,
    base: u64,
    index: usize,
)
    requires
        agree_outside(a, b, keys),
        forall|key: u64| keys.contains(key) ==> !(base <= key <= stream_key(base, index)),
    ensures
        range_lookup(a, base, index) == range_lookup(b, base, index),
{
    assert forall|key: u64| base <= key <= stream_key(base, index) implies a.contains_key(key)
        == #[trigger] b.contains_key(key) && (a.contains_key(key) ==> a[key] == b[key]) by {
        assert(!keys.contains(key));
        assert(a.contains_key(key) == b.contains_key(key));
    }
    lemma_range_lookup_frame(a, b, base, index);
}

/// The four secondary streams of a chronofold in one sorted map.
#[derive(PartialEq, Eq, Debug)]
pub struct Costructures<A> {
    map: BTreeMap<u64, usize>,
    dummy: PhantomData<A>,
}

impl<A> View for Costructures<A> {
    type V = Map<u64, usize>;

    /// The packed map.
    closed spec fn view(&self) -> Map<u64, usize> {
        self.map@
    }
}

impl<A> Clone for Costructures<A> {
    fn clone(&self) -> (r: Self)
        ensures
            r@ == self@,
    {
        Costructures { map: self.map.clone(), dummy: PhantomData }
    }
}

/// A walk over the entries of a key range of a sorted map, as
/// `BTreeMap::range` gives it.
#[verifier::external_type_specification]
#[verifier::external_body]
#[verifier::reject_recursive_types(K)]
#[verifier::reject_recursive_types(V)]
pub struct ExRange<'a, K, V>(std::collections::btree_map::Range<'a, K, V>);

/// The entries that a walk over a key range has yet to visit, in
/// ascending order of their keys.
pub uninterp spec fn range_entries(range: std::collections::btree_map::Range<'_, u64, usize>) -> Seq<(u64, usize)>;

/// Whether `entries` are the entries of `map` with keys between `lo` and
/// `hi`, both included, in ascending order of their keys.
pub open spec fn entries_between(
    entries: Seq<(u64, usize)>,
    map: Map<u64, usize>,
    lo: u64,
    hi: u64,
) -> bool {
    &&& forall|i: int|
        0 <= i < entries.len() ==> lo <= (#[trigger] entries[i]).0 <= hi && map.contains_key(
            entries[i].0,
        ) && map[entries[i].0] == entries[i].1
    &&& forall|i: int, j: int|
        0 <= i < j < entries.len() ==> (#[trigger] entries[i]).0 < (#[trigger] entries[j]).0
    &&& forall|key: u64|
        lo <= key <= hi && #[trigger] map.contains_key(key) ==> exists|i: int|
            0 <= i < entries.len() && (#[trigger] entries[i]).0 == key
}

/// Starts a walk over the entries of `map` with keys between `lo` and
/// `hi`, both included.
///
/// Rests on `BTreeMap::range`, which gives a double-ended iterator over
/// the entries of the map whose keys lie in the range, in ascending order
/// of the keys, and panics where the range starts beyond its end.
#[verifier::external_body]
fn range_of(map: &BTreeMap<u64, usize>, lo: u64, hi: u64) -> (r: std::collections::btree_map::Range<
    '_,
    u64,
    usize,
>)
    requires
        lo <= hi,
    ensures
        entries_between(range_entries(r), map@, lo, hi),
{
    map.range(lo..=hi)
}

/// Takes the last entry that a walk has yet to visit.
///
/// Rests on `next_back` of `btree_map::Range`, which removes and returns
/// the entry at the back of the walk, and returns `None` where the walk
/// is over.
#[verifier::external_body]
fn last_of(range: &mut std::collections::btree_map::Range<'_, u64, usize>) -> (r: Option<
    (u64, usize),
>)
    ensures
        match r {
            Some(entry) => {
                &&& range_entries(*old(range)).len() > 0
                &&& entry == range_entries(*old(range)).last()
                &&& range_entries(*final(range)) == range_entries(*old(range)).drop_last()
            },
            None => range_entries(*old(range)).len() == 0 && range_entries(*final(range)).len()
                == 0,
        },
{
    match range.next_back() {
        Some((key, value)) => Some((*key, *value)),
        None => None,
    }
}

/// The last entry of `map` with a key between `lo` and `hi`, both
/// included.
fn last_in_range(map: &BTreeMap<u64, usize>, lo: u64, hi: u64) -> (r: Option<(u64, usize)>)
    requires
        lo <= hi,
    ensures
        match r {
            Some((key, value)) => {
                &&& lo <= key <= hi
                &&& map@.contains_key(key)
                &&& map@[key] == value
                &&& forall|other: u64|
                    map@.contains_key(other) && lo <= other <= hi ==> other <= key
            },
            None => forall|other: u64| map@.contains_key(other) ==> !(lo <= other <= hi),
        },
{
    let mut range = range_of(map, lo, hi);
    let ghost entries = range_entries(range);
    let found = last_of(&mut range);
    proof {
        assert forall|other: u64| map@.contains_key(other) && lo <= other <= hi implies (match found {
            Some((key, _)) => other <= key,
            None => false,
        }) by {
            let i = choose|i: int| 0 <= i < entries.len() && (#[trigger] entries[i]).0 == other;
            if i < entries.len() - 1 {
                assert(entries[i].0 < entries[entries.len() - 1].0);
            }
        }
    }
    found
}

impl<A> Costructures<A> {
    pub fn new() -> (r: Self)
        ensures
            r@ == Map::<u64, usize>::empty(),
    {
        Self { map: BTreeMap::new(), dummy: PhantomData }
    }

    /// The packed key of `index` in the stream that starts at `base`.
    fn key_of(base: u64, index: usize) -> (key: u64)
        requires
            is_stream_base(base),
            index < INDEX_LIMIT,
        ensures
            key == stream_key(base, index),
    {
        base + index as u64
    }

    /// What is stored under exactly the key of `index`.
    fn get_exact(&self, base: u64, index: usize) -> (r: Option<usize>)
        requires
            is_stream_base(base),
            index < INDEX_LIMIT,
        ensures
            r == (if self@.contains_key(stream_key(base, index)) {
                Some(self@[stream_key(base, index)])
            } else {
                None
            }),
    {
        let key = Self::key_of(base, index);
        match self.map.get(&key) {
            Some(value) => Some(*value),
            None => None,
        }
    }

    /// What is stored under the greatest key of the stream that is not
    /// beyond `index`.
    fn get_range(&self, base: u64, index: usize) -> (r: Option<usize>)
        requires
            is_stream_base(base),
            index < INDEX_LIMIT,
        ensures
            r == range_lookup(self@, base, index),
    {
        let key = Self::key_of(base, index);
        let found = last_in_range(&self.map, base, key);
        proof {
            lemma_floor_key_greatest(self@, base, key);
        }
        match found {
            Some((_, value)) => Some(value),
            None => None,
        }
    }

    /// Starts a new run at `index` unless the stream holds `value` there
    /// already.
    fn set_range(&mut self, base: u64, index: usize, value: usize)
        requires
            is_stream_base(base),
            index < INDEX_LIMIT,
        ensures
            final(self)@ == range_update(old(self)@, base, index, value),
    {
        let current = self.get_range(base, index);
        let unchanged = match current {
            Some(held) => held == value,
            None => false,
        };
        if !unchanged {
            let key = Self::key_of(base, index);
            self.map.insert(key, value);
        }
    }

    /// Stores the offset from `index` to its target, nothing where the
    /// target is the default one, and zero where there is no target.
    fn set_exact(
        &mut self,
        base: u64,
        index: usize,
        value: Option<LocalIndex>,
        default_offset: usize,
    )
        requires
            is_stream_base(base),
            index < INDEX_LIMIT,
        ensures
            final(self)@ == relative_update(old(self)@, base, index, value, default_offset),
    {
        let key = Self::key_of(base, index);
        match value {
            Some(target) => {
                if index.wrapping_add(default_offset) == target.0 {
                    self.map.remove(&key);
                } else {
                    self.map.insert(key, target.0.wrapping_sub(index));
                }
            },
            None => {
                self.map.insert(key, 0);
            },
        }
    }

    /// Reads a stored offset: nothing stored means the default target, zero
    /// means no target.
    pub fn process_relative(key: &LocalIndex, value: Option<usize>, default_offset: usize) -> (r:
        Option<LocalIndex>)
        ensures
            r == (match value {
                None => Some(LocalIndex(wrapping_add(key.0, default_offset))),
                Some(offset) => if offset == 0 {
                    None
                } else {
                    Some(LocalIndex(wrapping_add(key.0, offset)))
                },
            }),
    {
        let offset = match value {
            Some(offset) => offset,
            None => {
                return Some(LocalIndex(key.0.wrapping_add(default_offset)));
            },
        };
        if offset == 0 {
            return None;
        }
        Some(LocalIndex(key.0.wrapping_add(offset)))
    }

    /// The successor of `key` in causal order.
    pub fn get_next_index(&self, key: &LocalIndex) -> (r: Option<LocalIndex>)
        requires
            key.0 < INDEX_LIMIT,
        ensures
            r == spec_next_index(self@, *key),
    {
        let value = self.get_exact(NEXT_BASE, key.0);
        Self::process_relative(key, value, NEXT_DEFAULT)
    }

    /// The entry that `key` refers to.
    pub fn get_reference(&self, key: &LocalIndex) -> (r: Option<LocalIndex>)
        requires
            key.0 < INDEX_LIMIT,
        ensures
            r == spec_reference(self@, *key),
    {
        let value = self.get_exact(REFERENCE_BASE, key.0);
        Self::process_relative(key, value, REFERENCE_DEFAULT)
    }

    pub fn set_next_index(&mut self, key: LocalIndex, value: Option<LocalIndex>)
        requires
            key.0 < INDEX_LIMIT,
        ensures
            final(self)@ == spec_set_next_index(old(self)@, key, value),
    {
        self.set_exact(NEXT_BASE, key.0, value, NEXT_DEFAULT);
    }

    pub fn set_reference(&mut self, key: LocalIndex, value: Option<LocalIndex>)
        requires
            key.0 < INDEX_LIMIT,
        ensures
            final(self)@ == spec_set_reference(old(self)@, key, value),
    {
        self.set_exact(REFERENCE_BASE, key.0, value, REFERENCE_DEFAULT);
    }

    /// The index shift of the run that `key` lies in.
    pub fn get_index_shift(&self, key: &LocalIndex) -> (r: Option<IndexShift>)
        requires
            key.0 < INDEX_LIMIT,
        ensures
            r == spec_index_shift(self@, *key),
    {
        match self.get_range(SHIFT_BASE, key.0) {
            Some(shift) => Some(IndexShift(shift)),
            None => None,
        }
    }

    pub fn set_index_shift(&mut self, key: LocalIndex, value: IndexShift)
        requires
            key.0 < INDEX_LIMIT,
        ensures
            final(self)@ == spec_set_index_shift(old(self)@, key, value),
    {
        self.set_range(SHIFT_BASE, key.0, value.0);
    }
}

impl<A: Author> Costructures<A> {
    /// The author of the run that `key` lies in.
    pub fn get_author(&self, key: &LocalIndex) -> (r: Option<A>)
        requires
            key.0 < INDEX_LIMIT,
        ensures
            r == spec_author::<A>(self@, *key),
    {
        match self.get_range(AUTHOR_BASE, key.0) {
            Some(raw) => Some(A::from(raw)),
            None => None,
        }
    }

    pub fn set_author(&mut self, key: LocalIndex, value: A)
        requires
            key.0 < INDEX_LIMIT,
        ensures
            final(self)@ == spec_set_author(old(self)@, key, value),
    {
        self.set_range(AUTHOR_BASE, key.0, value.as_usize());
    }
}

} // verus!
