//! Channels for futures: bounded ones, unbounded ones, and ones of capacity zero.
//!
//! A channel here is a value that its caller holds exclusively; `counter` shares it between the
//! sending and the receiving sides. Tasks and threads are numbers: a channel records whom it wakes,
//! and whoever holds it wakes them.
pub mod answers;
pub mod array;
mod async_types;
mod atomic_serial_waker;
mod block;
mod channel;
pub mod context;
pub mod counter;
mod error;
pub mod history;
pub mod index;
pub mod keeping;
pub mod laws;
pub mod list;
pub mod log;
pub mod meeting;
pub mod select;
mod stamp;
mod task_queue;
pub mod utils;
pub mod waker;
pub mod zero;

pub use atomic_serial_waker::{
    positive_update, AtomicSerialWaker, WaitingTasks, MAX_WAITING_TASKS,
};
pub use channel::{
    bounded, unbounded, zero, Receiver, Sender, UnboundedReceiver, UnboundedSender, ZeroReceiver,
    ZeroSender,
};
pub use error::{ErrorKind, RecvTimeoutError, SendError, SendTimeoutError, TrySendError};
use vstd::prelude::*;

verus! {

/// A channel that can be closed for good.
pub trait Shutdown {
    /// What holds of the channel between any two operations.
    spec fn inv(&self) -> bool;

    /// No send and no receive is under way.
    spec fn at_rest(&self) -> bool;

    /// How many messages the channel can hold; none where there is no limit.
    spec fn limit(&self) -> Option<nat>;

    /// Whether the channel is closed.
    spec fn shut(&self) -> bool;

    /// This channel is what closing makes of the channel `before`.
    spec fn closes(&self, before: &Self) -> bool;

    /// Closes the channel; returns whether it was open.
    fn shutdown(&mut self) -> (closed: bool)
        requires
            old(self).inv(),
        ensures
            final(self).inv(),
            final(self).closes(old(self)),
            final(self).shut(),
            final(self).limit() == old(self).limit(),
            old(self).at_rest() ==> final(self).at_rest(),
            closed == !old(self).shut(),
    ;

    /// Whether the channel is closed.
    fn is_shutdown(&self) -> (shut: bool)
        requires
            self.inv(),
        ensures
            shut == self.shut(),
    ;
}

} // verus!
