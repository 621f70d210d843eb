//! The bounded queue of task numbers, kept by `crossbeam::queue::ArrayQueue`.
//!
//! Each function here makes one call on a queue that its caller holds exclusively, so that the
//! call is not interleaved with others.
use crossbeam::queue::{ArrayQueue, PushError};
use vstd::prelude::*;

verus! {

/// The bounded queue of the crate `crossbeam`.
#[verifier::external_type_specification]
#[verifier::external_body]
#[verifier::reject_recursive_types(T)]
pub struct ExArrayQueue<T>(ArrayQueue<T>);

/// The task numbers that the queue holds, the one to be popped next first.
pub uninterp spec fn queued(queue: ArrayQueue<u64>) -> Seq<u64>;

/// How many task numbers the queue was made to hold.
pub uninterp spec fn room(queue: ArrayQueue<u64>) -> nat;

/// `ArrayQueue::new`: an empty queue for `cap` items. It panics on a capacity of zero, and where
/// the buffer of `cap` slots is larger than an allocation can be.
#[verifier::external_body]
pub(crate) fn new_queue(cap: usize) -> (queue: ArrayQueue<u64>)
    requires
        0 < cap < 0x0100_0000,
    ensures
        queued(queue) == Seq::<u64>::empty(),
        room(queue) == cap,
{
    ArrayQueue::new(cap)
}

/// `ArrayQueue::push`: appends the item where there is room for it, and hands it back, the queue
/// unchanged, where there is none.
#[verifier::external_body]
pub(crate) fn push(queue: &mut ArrayQueue<u64>, task: u64) -> (res: Result<(), u64>)
    ensures
        room(*final(queue)) == room(*old(queue)),
        queued(*old(queue)).len() < room(*old(queue)) ==> res is Ok,
        queued(*old(queue)).len() < room(*old(queue)) ==> queued(*final(queue)) == queued(
            *old(queue),
        ).push(task),
        queued(*old(queue)).len() >= room(*old(queue)) ==> res is Err && res->Err_0 == task,
        queued(*old(queue)).len() >= room(*old(queue)) ==> queued(*final(queue)) == queued(
            *old(queue),
        ),
{
    match queue.push(task) {
        Ok(()) => Ok(()),
        Err(PushError(task)) => Err(task),
    }
}

/// `ArrayQueue::pop`: removes and returns the item that was pushed first, or fails on an empty
/// queue, which stays empty.
#[verifier::external_body]
pub(crate) fn pop(queue: &mut ArrayQueue<u64>) -> (res: Option<u64>)
    ensures
        room(*final(queue)) == room(*old(queue)),
        queued(*old(queue)).len() > 0 ==> res == Some(queued(*old(queue))[0]),
        queued(*old(queue)).len() > 0 ==> queued(*final(queue)) == queued(
            *old(queue),
        ).drop_first(),
        queued(*old(queue)).len() == 0 ==> res is None,
        queued(*old(queue)).len() == 0 ==> queued(*final(queue)) == queued(*old(queue)),
{
    queue.pop().ok()
}

} // verus!
