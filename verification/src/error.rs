//! The errors of the delegation ledger and of the request queues.

use vstd::prelude::*;

verus! {

/// Why an operation of the ledger or of a queue was refused.
#[derive(Clone, Copy, Debug, PartialEq, Eq, Structural)]
pub enum Error {
    /// No delegation stands under the pair of delegator and validator.
    DelegationsNotFound,
    /// The validator holds no delegation to itself.
    NotSelfDelegated,
    /// The amount is more than the delegator has bonded and not yet delegated.
    DelegateTooLarge,
    /// The amount is more than the delegation holds.
    UndelegateTooLarge,
    /// A request under the same key is already waiting.
    MultipleRequests,
    /// The timestamp is earlier than that of the last request pushed.
    TimeWentBackwards,
}

} // verus!
