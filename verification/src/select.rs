//! What a blocked thread waits for.
use vstd::prelude::*;

verus! {

/// Identifier associated with an operation by a specific thread on a specific channel.
#[derive(Debug, PartialEq, Eq, Clone, Copy, Structural)]
pub struct Operation(pub usize);

impl Operation {
    /// Creates an operation identifier from a number that belongs to the operation alone.
    ///
    /// The numbers up to 2 are kept for the outcomes that are no operation.
    pub fn hook(number: usize) -> (oper: Operation)
        requires
            number > 2,
        ensures
            oper == Operation(number),
    {
        Operation(number)
    }
}

/// Current state of a blocking operation.
#[derive(Debug, PartialEq, Eq, Clone, Copy, Structural)]
pub enum Selected {
    /// Still waiting for an operation.
    Waiting,
    /// The attempt to block the current thread has been aborted.
    Aborted,
    /// An operation became ready because a channel is disconnected.
    Disconnected,
    /// An operation became ready because a message can be sent or received.
    Operation(Operation),
}

} // verus!
