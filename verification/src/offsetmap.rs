//! A sparse map from keys to keys that stores offsets.
use std::collections::BTreeMap;
use std::marker::PhantomData;
use vstd::prelude::*;

use crate::index::{LocalIndex, Offset};

verus! {

/// What an offset map holds for `key`: the key moved by the default offset
/// where nothing is stored, no value where none was set, and otherwise the
/// key moved by the stored offset.
pub open spec fn offset_lookup<O: Offset<LocalIndex>>(
    stored: Map<usize, Option<O>>,
    key: LocalIndex,
) -> Option<LocalIndex> {
    if !stored.contains_key(key.0) {
        Some(O::spec_default().spec_add(&key))
    } else {
        match stored[key.0] {
            Some(offset) => Some(offset.spec_add(&key)),
            None => None,
        }
    }
}

/// What an offset map stores after `key` was set to `value`. The default
/// value of a key is never stored.
pub open spec fn offset_update<O: Offset<LocalIndex>>(
    stored: Map<usize, Option<O>>,
    key: LocalIndex,
    value: Option<LocalIndex>,
) -> Map<usize, Option<O>> {
    match value {
        Some(target) => if O::spec_default().spec_add(&key) == target {
            stored.remove(key.0)
        } else {
            stored.insert(key.0, Some(O::spec_sub(&target, &key)))
        },
        None => stored.insert(key.0, None),
    }
}

/// A map from keys to keys in which a key that was never set has the
/// value `O::default().add(key)`.
///
/// For a chronofold two such maps make sense: the successor in causal
/// order (the next index, for consecutive inserts) and the reference (the
/// previous index, in the same case).
///
/// The value that is the default for its key is never stored: the map is
/// changed through `set` only.
#[derive(PartialEq, Eq, Debug)]
pub struct OffsetMap<K, O> {
    map: BTreeMap<usize, Option<O>>,
    key: PhantomData<K>,
}

impl<O: Offset<LocalIndex>> OffsetMap<LocalIndex, O> {
    /// What is stored: offsets by key, and `None` for the keys that were
    /// set to no value.
    pub closed spec fn view(&self) -> Map<usize, Option<O>> {
        self.map@
    }

    /// Whether every stored offset can be added to its key.
    pub open spec fn wf(&self) -> bool {
        forall|key: usize| #[trigger]
            self@.contains_key(key) && self@[key].is_some() ==> self@[key].unwrap().adds(
                &LocalIndex(key),
            )
    }

    pub fn new() -> (r: Self)
        ensures
            r@ == Map::<usize, Option<O>>::empty(),
            r.wf(),
    {
        Self { map: BTreeMap::new(), key: PhantomData }
    }

    /// Returns the value of `key`.
    pub fn get(&self, key: &LocalIndex) -> (r: Option<LocalIndex>)
        requires
            self.wf(),
            O::spec_default().adds(key),
        ensures
            r == offset_lookup(self@, *key),
    {
        match self.map.get(&key.0) {
            Some(stored) => match stored {
                Some(offset) => Some(offset.add(key)),
                None => None,
            },
            None => Some(O::default_offset().add(key)),
        }
    }

    /// Sets the value of `key`.
    pub fn set(&mut self, key: LocalIndex, value: Option<LocalIndex>)
        requires
            old(self).wf(),
            O::spec_default().adds(&key),
            value.is_some() ==> O::subs(&value.unwrap(), &key),
        ensures
            final(self).wf(),
            final(self)@ == offset_update(old(self)@, key, value),
    {
        match value {
            Some(target) => {
                if O::default_offset().add(&key) == target {
                    self.map.remove(&key.0);
                } else {
                    proof {
                        O::lemma_sub_then_add(&target, &key);
                    }
                    let offset = O::sub(&target, &key);
                    self.map.insert(key.0, Some(offset));
                }
            },
            None => {
                self.map.insert(key.0, None);
            },
        }
    }
}

impl<O: Offset<LocalIndex>> Default for OffsetMap<LocalIndex, O> {
    fn default() -> (r: Self)
        ensures
            r@ == Map::<usize, Option<O>>::empty(),
            r.wf(),
    {
        Self::new()
    }
}

/// Setting a key and then getting it gives what was set.
pub proof fn lemma_offset_set_get<O: Offset<LocalIndex>>(
    stored: Map<usize, Option<O>>,
    key: LocalIndex,
    value: Option<LocalIndex>,
)
    requires
        value.is_some() ==> O::subs(&value.unwrap(), &key),
    ensures
        offset_lookup(offset_update(stored, key, value), key) == value,
{
    if value.is_some() {
        O::lemma_sub_then_add(&value.unwrap(), &key);
    }
}

/// Setting a key changes the value of no other key.
pub proof fn lemma_offset_set_other<O: Offset<LocalIndex>>(
    stored: Map<usize, Option<O>>,
    key: LocalIndex,
    value: Option<LocalIndex>,
    other: LocalIndex,
)
    requires
        other != key,
    ensures
        offset_lookup(offset_update(stored, key, value), other) == offset_lookup(stored, other),
{
}

} // verus!
