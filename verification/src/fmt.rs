//! Rendering as text.
use vstd::prelude::*;
use vstd::string::StringExecFns;

use crate::change::Change;
use crate::distributed::{Author, Timestamp};
use crate::error::ChronofoldError;
use crate::model::IndexRange;
use crate::Chronofold;

verus! {

/// Appends `c` to `text`.
///
/// Rests on `String::push`, which appends the given character to the end
/// of the string.
#[verifier::external_body]
fn push_char(text: &mut String, c: char)
    ensures
        final(text)@ == old(text)@.push(c),
{
    text.push(c);
}

/// The character for a decimal digit.
pub open spec fn digit_char(d: int) -> char {
    if d == 0 {
        '0'
    } else if d == 1 {
        '1'
    } else if d == 2 {
        '2'
    } else if d == 3 {
        '3'
    } else if d == 4 {
        '4'
    } else if d == 5 {
        '5'
    } else if d == 6 {
        '6'
    } else if d == 7 {
        '7'
    } else if d == 8 {
        '8'
    } else {
        '9'
    }
}

/// A number in decimal notation, without leading zeros.
pub open spec fn decimal(n: nat) -> Seq<char>
    decreases n,
{
    if n < 10 {
        seq![digit_char(n as int)]
    } else {
        decimal(n / 10).push(digit_char((n % 10) as int))
    }
}

fn digit_of(d: usize) -> (c: char)
    requires
        d < 10,
    ensures
        c == digit_char(d as int),
{
    if d == 0 {
        '0'
    } else if d == 1 {
        '1'
    } else if d == 2 {
        '2'
    } else if d == 3 {
        '3'
    } else if d == 4 {
        '4'
    } else if d == 5 {
        '5'
    } else if d == 6 {
        '6'
    } else if d == 7 {
        '7'
    } else if d == 8 {
        '8'
    } else {
        '9'
    }
}

/// Appends `n` in decimal notation to `text`.
pub fn push_decimal(text: &mut String, n: usize)
    ensures
        final(text)@ == old(text)@ + decimal(n as nat),
    decreases n,
{
    if n >= 10 {
        push_decimal(text, n / 10);
    }
    push_char(text, digit_of(n % 10));
    proof {
        assert(text@ =~= old(text)@ + decimal(n as nat));
    }
}

/// A timestamp as text: its index and the number of its author, in angle
/// brackets.
pub open spec fn timestamp_text<A: Author>(timestamp: Timestamp<A>) -> Seq<char> {
    seq!['<'] + decimal(timestamp.idx.0 as nat) + seq![',', ' '] + decimal(
        timestamp.author.spec_as_usize() as nat,
    ) + seq!['>']
}

impl<A: Author> Timestamp<A> {
    /// Appends the timestamp as text to `text`.
    pub fn write_to(&self, text: &mut String)
        ensures
            final(text)@ == old(text)@ + timestamp_text(*self),
    {
        push_char(text, '<');
        push_decimal(text, self.idx.0);
        push_char(text, ',');
        push_char(text, ' ');
        push_decimal(text, self.author.as_usize());
        push_char(text, '>');
        proof {
            assert(text@ =~= old(text)@ + timestamp_text(*self));
        }
    }

    /// The timestamp as text.
    pub fn to_string(&self) -> (text: String)
        ensures
            text@ == timestamp_text(*self),
    {
        let mut text = String::new();
        self.write_to(&mut text);
        proof {
            assert(text@ =~= timestamp_text(*self));
        }
        text
    }
}

impl<A: Author, T> ChronofoldError<A, T> {
    /// The timestamp that the error is about: the one that the op refers
    /// to where the reference is unknown, and the op's own otherwise.
    pub open spec fn subject(self) -> Option<Timestamp<A>> {
        match self {
            ChronofoldError::UnknownReference(op) => op.payload.spec_reference(),
            ChronofoldError::ExistingTimestamp(op) => Some(op.id),
            ChronofoldError::FutureTimestamp(op) => Some(op.id),
        }
    }

    /// The words that name the kind of error.
    pub open spec fn label(self) -> Seq<char> {
        match self {
            ChronofoldError::UnknownReference(_) => "unknown reference "@,
            ChronofoldError::ExistingTimestamp(_) => "existing timestamp "@,
            ChronofoldError::FutureTimestamp(_) => "future timestamp "@,
        }
    }

    /// The error as text: the kind of error, then the timestamp that it
    /// is about.
    pub fn to_string(&self) -> (text: String)
        ensures
            text@ == self.label() + (match self.subject() {
                Some(timestamp) => timestamp_text(timestamp),
                None => Seq::empty(),
            }),
    {
        let (mut text, subject) = match self {
            ChronofoldError::UnknownReference(op) => (
                String::from_str("unknown reference "),
                match op.payload.reference() {
                    Some(target) => Some(*target),
                    None => None,
                },
            ),
            ChronofoldError::ExistingTimestamp(op) => (
                String::from_str("existing timestamp "),
                Some(op.id),
            ),
            ChronofoldError::FutureTimestamp(op) => (
                String::from_str("future timestamp "),
                Some(op.id),
            ),
        };
        match subject {
            Some(timestamp) => {
                timestamp.write_to(&mut text);
            },
            None => {
                proof {
                    assert(text@ =~= self.label() + Seq::<char>::empty());
                }
            },
        }
        text
    }
}

impl<A: Author> Chronofold<A, char> {
    /// The elements in causal order, as text.
    pub fn to_string(&self) -> (text: String)
        requires
            self.wf(),
        ensures
            text@.len() == self@.elements(IndexRange::full()).len(),
            forall|k: int|
                0 <= k < text@.len() ==> self@.log[self@.elements(IndexRange::full())[k]]
                    == Change::Insert(#[trigger] text@[k]),
    {
        let mut iter = self.iter();
        let mut text = String::new();
        let ghost all = self@.elements(IndexRange::full());
        proof {
            assert(all.skip(0) =~= all);
        }
        loop
            invariant
                self.wf(),
                iter.wf(),
                iter.chronofold() == *self,
                text@.len() <= all.len(),
                self@.visible(iter.pending()) == all.skip(text@.len() as int),
                forall|k: int|
                    0 <= k < text@.len() ==> self@.log[all[k]] == Change::Insert(
                        #[trigger] text@[k],
                    ),
            ensures
                text@.len() == all.len(),
            decreases all.len() - text@.len(),
        {
            match iter.next() {
                Some((value, _)) => {
                    proof {
                        let rest = all.skip(text@.len() as int);
                        assert(rest[0] == all[text@.len() as int]);
                        assert(rest.drop_first() =~= all.skip(text@.len() as int + 1));
                    }
                    push_char(&mut text, *value);
                },
                None => {
                    break ;
                },
            }
        }
        text
    }
}

} // verus!
