//! Why an operation was not applied.
use vstd::prelude::*;

use crate::distributed::Op;

verus! {

/// The reasons for which a chronofold turns an operation away. Each holds
/// the operation.
#[derive(PartialEq, Eq, Clone, Debug)]
pub enum ChronofoldError<A, T> {
    /// The operation refers to a timestamp that the log does not hold yet.
    UnknownReference(Op<A, T>),
    /// An operation with this timestamp was applied before.
    ExistingTimestamp(Op<A, T>),
    /// The index of the operation's timestamp lies beyond the end of the
    /// log.
    FutureTimestamp(Op<A, T>),
}

} // verus!
