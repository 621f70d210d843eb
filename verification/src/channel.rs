//! The kinds of channels.
use crate::array;
use crate::array::Bounded;
use crate::counter;
use crate::list;
use crate::list::Unbounded;
use crate::zero as rendezvous;
use crate::zero::Rendezvous;
use vstd::prelude::*;

verus! {

/// The sending side of an unbounded channel.
pub type UnboundedSender<T> = counter::Sender<list::Channel<T>>;

/// The receiving side of an unbounded channel.
pub type UnboundedReceiver<T> = counter::Receiver<list::Channel<T>>;

/// Creates a channel of unbounded capacity.
pub fn unbounded<T>() -> (sides: (UnboundedSender<T>, UnboundedReceiver<T>))
    ensures
        sides.0.shared() == sides.1.shared(),
        ({
            let made_with = sides.0.shared().made_with();
            &&& made_with.senders == 1
            &&& made_with.receivers == 1
            &&& !made_with.destroy
            &&& made_with.chan.wf()
            &&& made_with.chan@ == Unbounded::<T>::initial()
        }),
        sides.0.limit() is None,
        sides.1.limit() is None,
{
    counter::new(list::Channel::new())
}

/// The sending side of a bounded channel.
pub type Sender<T> = counter::Sender<array::Channel<T>>;

/// The receiving side of a bounded channel.
pub type Receiver<T> = counter::Receiver<array::Channel<T>>;

/// Creates a channel of bounded capacity.
pub fn bounded<T>(cap: usize) -> (sides: (Sender<T>, Receiver<T>))
    requires
        0 < cap <= usize::MAX / 4,
    ensures
        sides.0.shared() == sides.1.shared(),
        ({
            let made_with = sides.0.shared().made_with();
            &&& made_with.senders == 1
            &&& made_with.receivers == 1
            &&& !made_with.destroy
            &&& made_with.chan.wf()
            &&& made_with.chan@ == Bounded::<T>::initial(cap as nat)
        }),
        sides.0.limit() == Some(cap as nat),
        sides.1.limit() == Some(cap as nat),
{
    counter::new(array::Channel::with_capacity(cap))
}

/// The sending side of a channel of capacity zero.
pub type ZeroSender<T> = counter::Sender<rendezvous::Channel<T>>;

/// The receiving side of a channel of capacity zero.
pub type ZeroReceiver<T> = counter::Receiver<rendezvous::Channel<T>>;

/// Creates a channel of capacity zero.
pub fn zero<T>() -> (sides: (ZeroSender<T>, ZeroReceiver<T>))
    ensures
        sides.0.shared() == sides.1.shared(),
        ({
            let made_with = sides.0.shared().made_with();
            &&& made_with.senders == 1
            &&& made_with.receivers == 1
            &&& !made_with.destroy
            &&& made_with.chan.wf()
            &&& made_with.chan@ == Rendezvous::<T>::initial()
        }),
        sides.0.limit() == Some(0nat),
        sides.1.limit() == Some(0nat),
{
    counter::new(rendezvous::Channel::new())
}

} // verus!
