//! What replicas exchange: authors, timestamps and operations.
use vstd::prelude::*;

use crate::change::Change;
use crate::index::AuthorIndex;
use crate::Chronofold;

verus! {

/// The identity of a replica.
///
/// Authors are stored and ordered by the number that `as_usize` gives, so
/// that number has to identify the author.
pub trait Author: Copy + Sized {
    /// The number that stands for this author.
    spec fn spec_as_usize(&self) -> usize;

    /// The author that a number stands for.
    spec fn spec_from(raw: usize) -> Self;

    /// Converting an author to its number and back gives the author.
    proof fn lemma_round_trip(a: Self)
        ensures
            Self::spec_from(a.spec_as_usize()) == a,
    ;

    fn from(raw: usize) -> (a: Self)
        ensures
            a == Self::spec_from(raw),
    ;

    fn as_usize(&self) -> (r: usize)
        ensures
            r == self.spec_as_usize(),
    ;
}

impl Author for u8 {
    open spec fn spec_as_usize(&self) -> usize {
        *self as usize
    }

    open spec fn spec_from(raw: usize) -> Self {
        (raw % 256) as u8
    }

    proof fn lemma_round_trip(a: Self) {
    }

    fn from(raw: usize) -> (a: Self) {
        (raw % 256) as u8
    }

    fn as_usize(&self) -> (r: usize) {
        *self as usize
    }
}

impl Author for usize {
    open spec fn spec_as_usize(&self) -> usize {
        *self
    }

    open spec fn spec_from(raw: usize) -> Self {
        raw
    }

    proof fn lemma_round_trip(a: Self) {
    }

    fn from(raw: usize) -> (a: Self) {
        raw
    }

    fn as_usize(&self) -> (r: usize) {
        *self
    }
}

/// Two authors with the same number are the same author.
pub proof fn lemma_author_number_identifies<A: Author>(a: A, b: A)
    ensures
        a.spec_as_usize() == b.spec_as_usize() ==> a == b,
{
    A::lemma_round_trip(a);
    A::lemma_round_trip(b);
}

/// An ordered pair of an author's index and the author: the identity of
/// one operation.
///
/// Timestamps are ordered by index first and by the author's number
/// second. The order is total and agrees with cause and effect: an
/// operation's timestamp is greater than that of every operation it has
/// seen.
#[derive(PartialEq, Eq, PartialOrd, Ord, Clone, Copy, Debug)]
pub struct Timestamp<A> {
    pub idx: AuthorIndex,
    pub author: A,
}

impl<A> Timestamp<A> {
    pub fn new(idx: AuthorIndex, author: A) -> (t: Self)
        ensures
            t == (Timestamp { idx, author }),
    {
        Self { idx, author }
    }
}

impl<A: Author> Timestamp<A> {
    /// The order of timestamps: by index, then by the author's number.
    pub open spec fn spec_gt(self, other: Self) -> bool {
        self.idx.0 > other.idx.0 || (self.idx.0 == other.idx.0
            && self.author.spec_as_usize() > other.author.spec_as_usize())
    }

    /// Whether `self` comes after `other` in the order of timestamps.
    pub fn is_after(&self, other: &Self) -> (r: bool)
        ensures
            r == self.spec_gt(*other),
    {
        self.idx.0 > other.idx.0 || (self.idx.0 == other.idx.0
            && self.author.as_usize() > other.author.as_usize())
    }

    /// Whether both timestamps name the same operation.
    pub fn same(&self, other: &Self) -> (r: bool)
        ensures
            r == (*self == *other),
    {
        proof {
            lemma_author_number_identifies(self.author, other.author);
        }
        self.idx.0 == other.idx.0 && self.author.as_usize() == other.author.as_usize()
    }
}

/// The payload of an operation.
///
/// An operation names the entry it refers to by timestamp, because log
/// indices mean nothing outside the replica that assigned them.
#[derive(PartialEq, Eq, Clone, Debug)]
pub enum OpPayload<A, T> {
    Root,
    Insert(Option<Timestamp<A>>, T),
    Delete(Timestamp<A>),
}

impl<A, T> OpPayload<A, T> {
    /// The timestamp that this payload refers to, if any.
    pub open spec fn spec_reference(self) -> Option<Timestamp<A>> {
        match self {
            OpPayload::Root => None,
            OpPayload::Insert(reference, _) => reference,
            OpPayload::Delete(reference) => Some(reference),
        }
    }

    pub fn reference(&self) -> (r: Option<&Timestamp<A>>)
        ensures
            match r {
                Some(t) => self.spec_reference() == Some(*t),
                None => self.spec_reference().is_none(),
            },
    {
        match self {
            OpPayload::Root => None,
            OpPayload::Insert(reference, _) => reference.as_ref(),
            OpPayload::Delete(reference) => Some(reference),
        }
    }
}

impl<A, T: Clone> OpPayload<A, &T> {
    /// Whether `owned` is what cloning the value of `borrowed` may give.
    pub open spec fn clone_of(borrowed: Self, owned: OpPayload<A, T>) -> bool {
        match borrowed {
            OpPayload::Root => owned == OpPayload::<A, T>::Root,
            OpPayload::Insert(reference, t) => {
                &&& owned matches OpPayload::Insert(r, v)
                &&& r == reference
                &&& cloned(*t, v)
            },
            OpPayload::Delete(reference) => owned == OpPayload::<A, T>::Delete(reference),
        }
    }

    /// Turns a payload that borrows its value into one that owns a clone of
    /// it.
    pub fn cloned(self) -> (r: OpPayload<A, T>)
        ensures
            Self::clone_of(self, r),
    {
        match self {
            OpPayload::Root => OpPayload::Root,
            OpPayload::Insert(reference, t) => OpPayload::Insert(reference, t.clone()),
            OpPayload::Delete(reference) => OpPayload::Delete(reference),
        }
    }
}

/// An operation is the unit of change that replicas exchange.
#[derive(PartialEq, Eq, Clone, Debug)]
pub struct Op<A, T> {
    pub id: Timestamp<A>,
    pub payload: OpPayload<A, T>,
}

impl<A, T> Op<A, T> {
    pub fn new(id: Timestamp<A>, payload: OpPayload<A, T>) -> (op: Self)
        ensures
            op == (Op { id, payload }),
    {
        Self { id, payload }
    }

    pub fn root(id: Timestamp<A>) -> (op: Self)
        ensures
            op == (Op { id, payload: OpPayload::<A, T>::Root }),
    {
        Op::new(id, OpPayload::Root)
    }

    pub fn insert(id: Timestamp<A>, reference: Option<Timestamp<A>>, value: T) -> (op: Self)
        ensures
            op == (Op { id, payload: OpPayload::Insert(reference, value) }),
    {
        Op::new(id, OpPayload::Insert(reference, value))
    }

    pub fn delete(id: Timestamp<A>, reference: Timestamp<A>) -> (op: Self)
        ensures
            op == (Op { id, payload: OpPayload::<A, T>::Delete(reference) }),
    {
        Op::new(id, OpPayload::Delete(reference))
    }
}

impl<A, T: Clone> Op<A, &T> {
    /// Turns an operation that borrows its value into one that owns a clone
    /// of it.
    pub fn cloned(self) -> (r: Op<A, T>)
        ensures
            r.id == self.id,
            OpPayload::clone_of(self.payload, r.payload),
    {
        Op { id: self.id, payload: self.payload.cloned() }
    }
}

/// Values that an operation can carry and that can be turned into the
/// values that a chronofold stores.
pub trait IntoLocalValue<A: Author, LocalValue>: Sized {
    /// The value that the chronofold stores for `self`.
    spec fn local_value(self, chronofold: &Chronofold<A, LocalValue>) -> LocalValue;

    fn into_local_value(self, chronofold: &Chronofold<A, LocalValue>) -> (value: LocalValue)
        requires
            chronofold.wf(),
        ensures
            value == self.local_value(chronofold),
    ;
}

/// Values that an operation can carry and that can be made from the values
/// that a chronofold stores.
pub trait FromLocalValue<'a, A: Author, LocalValue>: Sized {
    /// The value that an operation carries for the stored value `source`.
    spec fn of_local_value(source: &LocalValue, chronofold: &Chronofold<A, LocalValue>) -> Self;

    fn from_local_value(source: &'a LocalValue, chronofold: &Chronofold<A, LocalValue>) -> (value:
        Self)
        requires
            chronofold.wf(),
        ensures
            value == Self::of_local_value(source, chronofold),
    ;
}

impl<A: Author, T> IntoLocalValue<A, T> for T {
    open spec fn local_value(self, chronofold: &Chronofold<A, T>) -> T {
        self
    }

    fn into_local_value(self, _chronofold: &Chronofold<A, T>) -> (value: T) {
        self
    }
}

impl<'a, A: Author, T> FromLocalValue<'a, A, T> for &'a T {
    open spec fn of_local_value(source: &T, chronofold: &Chronofold<A, T>) -> Self {
        source
    }

    fn from_local_value(source: &'a T, _chronofold: &Chronofold<A, T>) -> (value: Self) {
        source
    }
}

impl<A: Author, V> OpPayload<A, V> {
    /// The change that a chronofold appends for this payload.
    pub open spec fn local_change<T>(self, chronofold: &Chronofold<A, T>) -> Change<T> where
        V: IntoLocalValue<A, T>,
     {
        match self {
            OpPayload::Root => Change::Root,
            OpPayload::Insert(_, value) => Change::Insert(value.local_value(chronofold)),
            OpPayload::Delete(_) => Change::Delete,
        }
    }
}

} // verus!
