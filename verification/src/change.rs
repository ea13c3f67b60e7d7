//! The entries of the log.
use vstd::prelude::*;

verus! {

/// One entry of a chronofold's log.
///
/// What an entry refers to is not part of the change itself: it is kept in
/// the reference stream of the chronofold, by log index.
#[derive(PartialEq, Eq, Clone, Debug)]
pub enum Change<T> {
    /// The start of a causal chain.
    Root,
    /// A new element.
    Insert(T),
    /// A tombstone for the entry that it refers to.
    Delete,
}

impl<T> Change<T> {
    /// Whether this change starts a causal chain.
    pub fn is_root(&self) -> (r: bool)
        ensures
            r == (*self is Root),
    {
        match self {
            Change::Root => true,
            _ => false,
        }
    }

    /// Whether this change is a tombstone.
    pub fn is_delete(&self) -> (r: bool)
        ensures
            r == (*self is Delete),
    {
        match self {
            Change::Delete => true,
            _ => false,
        }
    }
}

} // verus!
