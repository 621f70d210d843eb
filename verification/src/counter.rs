//! Reference counting for the two sides of a channel.
use crate::utils::{Guarded, Spinlock, SpinlockGuard};
use crate::Shutdown;
use std::sync::Arc;
use vstd::prelude::*;

verus! {

/// Reference counter internals
pub struct Counter<C> {
    /// The number of senders associated with the channel.
    pub senders: usize,
    /// The number of receivers associated with the channel.
    pub receivers: usize,
    /// Set to true if the last sender or the last receiver reference deallocates the channel.
    pub destroy: bool,
    /// The internal channel
    pub chan: C,
}

impl<C: Shutdown> Counter<C> {
    /// The flag tells whether one side has no references left.
    pub open spec fn wf(&self) -> bool {
        &&& self.chan.inv()
        &&& self.destroy == (self.senders == 0 || self.receivers == 0)
    }

    /// The channel is shut where one side has no references left.
    pub open spec fn shut_when_left(&self) -> bool {
        self.senders == 0 || self.receivers == 0 ==> self.chan.shut()
    }

    /// Counts one reference on either side.
    pub fn new(chan: C) -> (counter: Self)
        requires
            chan.inv(),
        ensures
            counter.wf(),
            counter == (Counter { senders: 1, receivers: 1, destroy: false, chan }),
    {
        Counter { senders: 1, receivers: 1, destroy: false, chan }
    }

    /// Counts another sender reference; refuses to where the count would overflow.
    pub fn acquire_sender(&mut self) -> (acquired: bool)
        requires
            old(self).wf(),
            old(self).senders > 0,
        ensures
            final(self).wf(),
            acquired == (old(self).senders < usize::MAX),
            *final(self) == if acquired {
                Counter { senders: (old(self).senders + 1) as usize, ..*old(self) }
            } else {
                *old(self)
            },
    {
        if self.senders == usize::MAX {
            false
        } else {
            self.senders = self.senders + 1;
            true
        }
    }

    /// Counts another receiver reference; refuses to where the count would overflow.
    pub fn acquire_receiver(&mut self) -> (acquired: bool)
        requires
            old(self).wf(),
            old(self).receivers > 0,
        ensures
            final(self).wf(),
            acquired == (old(self).receivers < usize::MAX),
            *final(self) == if acquired {
                Counter { receivers: (old(self).receivers + 1) as usize, ..*old(self) }
            } else {
                *old(self)
            },
    {
        if self.receivers >= usize::MAX {
            false
        } else {
            self.receivers = self.receivers + 1;
            true
        }
    }

    /// Releases a sender reference.
    ///
    /// Function `disconnect` is called on the channel if this is the last sender reference. Returns
    /// whether it is also the last reference of all, so that the channel can be deallocated.
    ///
    /// `disconnect` takes any channel, and leaves it a channel of the same capacity, with nothing
    /// under way where nothing was.
    pub fn release_sender<F: FnOnce(&mut C) -> bool>(&mut self, disconnect: F) -> (last: bool)
        requires
            old(self).wf(),
            old(self).senders > 0,
            forall|chan: &mut C| (*chan).inv() ==> #[trigger] call_requires(disconnect, (chan,)),
            forall|chan: &mut C, res: bool|
                (*chan).inv() && #[trigger] call_ensures(disconnect, (chan,), res) ==> {
                    &&& (*final(chan)).inv()
                    &&& (*final(chan)).limit() == (*chan).limit()
                    &&& (*chan).at_rest() ==> (*final(chan)).at_rest()
                },
        ensures
            final(self).wf(),
            final(self).senders == old(self).senders - 1,
            final(self).receivers == old(self).receivers,
            old(self).senders > 1 ==> final(self).chan == old(self).chan,
            old(self).senders == 1 ==> exists|chan: &mut C, res: bool|
                *chan == old(self).chan && *final(chan) == final(self).chan
                    && #[trigger] call_ensures(disconnect, (chan,), res),
            final(self).chan.limit() == old(self).chan.limit(),
            old(self).chan.at_rest() ==> final(self).chan.at_rest(),
            last == (final(self).senders == 0 && final(self).receivers == 0),
    {
        self.senders = self.senders - 1;
        if self.senders == 0 {
            disconnect(&mut self.chan);
            let other = self.destroy;
            self.destroy = true;
            other
        } else {
            false
        }
    }

    /// Releases a receiver reference.
    ///
    /// Function `disconnect` is called on the channel if this is the last receiver reference. Returns
    /// whether it is also the last reference of all, so that the channel can be deallocated.
    ///
    /// `disconnect` takes any channel, and leaves it a channel of the same capacity, with nothing
    /// under way where nothing was.
    pub fn release_receiver<F: FnOnce(&mut C) -> bool>(&mut self, disconnect: F) -> (last: bool)
        requires
            old(self).wf(),
            old(self).receivers > 0,
            forall|chan: &mut C| (*chan).inv() ==> #[trigger] call_requires(disconnect, (chan,)),
            forall|chan: &mut C, res: bool|
                (*chan).inv() && #[trigger] call_ensures(disconnect, (chan,), res) ==> {
                    &&& (*final(chan)).inv()
                    &&& (*final(chan)).limit() == (*chan).limit()
                    &&& (*chan).at_rest() ==> (*final(chan)).at_rest()
                },
        ensures
            final(self).wf(),
            final(self).receivers == old(self).receivers - 1,
            final(self).senders == old(self).senders,
            old(self).receivers > 1 ==> final(self).chan == old(self).chan,
            old(self).receivers == 1 ==> exists|chan: &mut C, res: bool|
                *chan == old(self).chan && *final(chan) == final(self).chan
                    && #[trigger] call_ensures(disconnect, (chan,), res),
            final(self).chan.limit() == old(self).chan.limit(),
            old(self).chan.at_rest() ==> final(self).chan.at_rest(),
            last == (final(self).senders == 0 && final(self).receivers == 0),
    {
        self.receivers = self.receivers - 1;
        if self.receivers == 0 {
            disconnect(&mut self.chan);
            let other = self.destroy;
            self.destroy = true;
            other
        } else {
            false
        }
    }
}

impl<C: Shutdown> Guarded for Counter<C> {
    open spec fn guarded(&self) -> bool {
        self.wf() && self.chan.at_rest()
    }

    open spec fn label(&self) -> Option<nat> {
        self.chan.limit()
    }
}

/// Wraps a channel into the reference counter.
pub fn new<C: Shutdown>(chan: C) -> (sides: (Sender<C>, Receiver<C>))
    requires
        chan.inv(),
        chan.at_rest(),
    ensures
        sides.0.shared() == sides.1.shared(),
        sides.0.shared().made_with() == (Counter {
            senders: 1,
            receivers: 1,
            destroy: false,
            chan,
        }),
        sides.0.limit() == chan.limit(),
        sides.1.limit() == chan.limit(),
{
    let counter = Arc::new(Spinlock::new(Counter::new(chan)));
    let s = Sender { counter: share(&counter) };
    let r = Receiver { counter };
    (s, r)
}

/// `Arc::clone`: the new `Arc` points to the same value.
#[verifier::external_body]
fn share<T>(arc: &Arc<T>) -> (shared: Arc<T>)
    ensures
        shared == *arc,
{
    arc.clone()
}

/// `Arc::ptr_eq`: whether the two point to the same counter. Every counter is made in an `Arc` of
/// its own, and holds a lock that is no other's, so that two that point to different counters are
/// different.
#[verifier::external_body]
fn same<C: Shutdown>(a: &Arc<Spinlock<Counter<C>>>, b: &Arc<Spinlock<Counter<C>>>) -> (same: bool)
    ensures
        same == (*a == *b),
{
    Arc::ptr_eq(a, b)
}

/// The sending side. The reference stays counted until it is given up with `leave`, or released.
pub struct Sender<C: Shutdown> {
    counter: Arc<Spinlock<Counter<C>>>,
}

impl<C: Shutdown> Sender<C> {
    /// The channel that this is a side of.
    pub closed spec fn shared(&self) -> Spinlock<Counter<C>> {
        *self.counter
    }

    /// How many messages the channel can hold; none where there is no limit.
    pub open spec fn limit(&self) -> Option<nat> {
        self.shared().label()
    }

    /// Locks the channel: no other side can change it until the guard is given back.
    pub fn lock(&self) -> (guard: SpinlockGuard<'_, Counter<C>>)
        ensures
            guard@.guarded(),
            guard@.label() == self.limit(),
            guard.parent() == self.shared(),
    {
        self.counter.lock()
    }

    /// Acquires another sender reference; none where the count would overflow, or where no
    /// reference is left.
    pub fn acquire(&self, guard: &mut SpinlockGuard<'_, Counter<C>>) -> (acquired: Option<
        Sender<C>,
    >)
        requires
            old(guard)@.guarded(),
            old(guard).parent() == self.shared(),
        ensures
            final(guard)@.guarded(),
            final(guard).parent() == old(guard).parent(),
            acquired is Some <==> 0 < old(guard)@.senders < usize::MAX,
            acquired matches Some(s) ==> s.shared() == self.shared(),
            final(guard)@ == if acquired is Some {
                Counter { senders: (old(guard)@.senders + 1) as usize, ..old(guard)@ }
            } else {
                old(guard)@
            },
    {
        let counter = guard.deref_mut();
        if counter.senders > 0 && counter.acquire_sender() {
            Some(Sender { counter: share(&self.counter) })
        } else {
            None
        }
    }

    /// Releases the sender reference.
    ///
    /// Function `disconnect` is called on the channel if this is the last sender reference. Returns
    /// whether it is also the last reference of all, so that the channel goes with it.
    ///
    /// `disconnect` takes any channel, and leaves it a channel of the same capacity, with nothing
    /// under way where nothing was.
    pub fn release<F: FnOnce(&mut C) -> bool>(
        &self,
        guard: &mut SpinlockGuard<'_, Counter<C>>,
        disconnect: F,
    ) -> (last: bool)
        requires
            old(guard)@.guarded(),
            old(guard).parent() == self.shared(),
            old(guard)@.senders > 0,
            forall|chan: &mut C| (*chan).inv() ==> #[trigger] call_requires(disconnect, (chan,)),
            forall|chan: &mut C, res: bool|
                (*chan).inv() && #[trigger] call_ensures(disconnect, (chan,), res) ==> {
                    &&& (*final(chan)).inv()
                    &&& (*final(chan)).limit() == (*chan).limit()
                    &&& (*chan).at_rest() ==> (*final(chan)).at_rest()
                },
        ensures
            final(guard)@.guarded(),
            final(guard).parent() == old(guard).parent(),
            final(guard)@.label() == old(guard)@.label(),
            final(guard)@.senders == old(guard)@.senders - 1,
            final(guard)@.receivers == old(guard)@.receivers,
            old(guard)@.senders > 1 ==> final(guard)@.chan == old(guard)@.chan,
            old(guard)@.senders == 1 ==> exists|chan: &mut C, res: bool|
                *chan == old(guard)@.chan && *final(chan) == final(guard)@.chan
                    && #[trigger] call_ensures(disconnect, (chan,), res),
            last == (final(guard)@.senders == 0 && final(guard)@.receivers == 0),
    {
        guard.deref_mut().release_sender(disconnect)
    }

    /// Gives the sender reference up: releases it, and shuts the channel down if it is the last one.
    pub fn leave(&self, guard: &mut SpinlockGuard<'_, Counter<C>>) -> (last: bool)
        requires
            old(guard)@.guarded(),
            old(guard).parent() == self.shared(),
            old(guard)@.senders > 0,
        ensures
            final(guard)@.guarded(),
            final(guard).parent() == old(guard).parent(),
            final(guard)@.label() == old(guard)@.label(),
            final(guard)@.senders == old(guard)@.senders - 1,
            final(guard)@.receivers == old(guard)@.receivers,
            old(guard)@.senders > 1 ==> final(guard)@.chan == old(guard)@.chan,
            old(guard)@.senders == 1 ==> final(guard)@.chan.closes(&old(guard)@.chan),
            old(guard)@.senders == 1 ==> final(guard)@.chan.shut(),
            old(guard)@.shut_when_left() ==> final(guard)@.shut_when_left(),
            last == (final(guard)@.senders == 0 && final(guard)@.receivers == 0),
    {
        let disconnect = |chan: &mut C| -> (closed: bool)
            requires
                old(chan).inv(),
            ensures
                final(chan).inv(),
                final(chan).closes(old(chan)),
                final(chan).shut(),
                final(chan).limit() == old(chan).limit(),
                old(chan).at_rest() ==> final(chan).at_rest(),
        {
            chan.shutdown()
        };
        self.release(guard, disconnect)
    }
}

/// Two are equal where they are sides of the same channel.
impl<C: Shutdown> PartialEq for Sender<C> {
    fn eq(&self, other: &Sender<C>) -> (eq: bool) {
        same(&self.counter, &other.counter)
    }
}

impl<C: Shutdown> vstd::std_specs::cmp::PartialEqSpecImpl for Sender<C> {
    open spec fn obeys_eq_spec() -> bool {
        true
    }

    open spec fn eq_spec(&self, other: &Sender<C>) -> bool {
        self.shared() == other.shared()
    }
}

/// The receiving side. The reference stays counted until it is given up with `leave`, or released.
pub struct Receiver<C: Shutdown> {
    counter: Arc<Spinlock<Counter<C>>>,
}

impl<C: Shutdown> Receiver<C> {
    /// The channel that this is a side of.
    pub closed spec fn shared(&self) -> Spinlock<Counter<C>> {
        *self.counter
    }

    /// How many messages the channel can hold; none where there is no limit.
    pub open spec fn limit(&self) -> Option<nat> {
        self.shared().label()
    }

    /// Locks the channel: no other side can change it until the guard is given back.
    pub fn lock(&self) -> (guard: SpinlockGuard<'_, Counter<C>>)
        ensures
            guard@.guarded(),
            guard@.label() == self.limit(),
            guard.parent() == self.shared(),
    {
        self.counter.lock()
    }

    /// Acquires another receiver reference; none where the count would overflow, or where no
    /// reference is left.
    pub fn acquire(&self, guard: &mut SpinlockGuard<'_, Counter<C>>) -> (acquired: Option<
        Receiver<C>,
    >)
        requires
            old(guard)@.guarded(),
            old(guard).parent() == self.shared(),
        ensures
            final(guard)@.guarded(),
            final(guard).parent() == old(guard).parent(),
            acquired is Some <==> 0 < old(guard)@.receivers < usize::MAX,
            acquired matches Some(s) ==> s.shared() == self.shared(),
            final(guard)@ == if acquired is Some {
                Counter { receivers: (old(guard)@.receivers + 1) as usize, ..old(guard)@ }
            } else {
                old(guard)@
            },
    {
        let counter = guard.deref_mut();
        if counter.receivers > 0 && counter.acquire_receiver() {
            Some(Receiver { counter: share(&self.counter) })
        } else {
            None
        }
    }

    /// Releases the receiver reference.
    ///
    /// Function `disconnect` is called on the channel if this is the last receiver reference. Returns
    /// whether it is also the last reference of all, so that the channel goes with it.
    ///
    /// `disconnect` takes any channel, and leaves it a channel of the same capacity, with nothing
    /// under way where nothing was.
    pub fn release<F: FnOnce(&mut C) -> bool>(
        &self,
        guard: &mut SpinlockGuard<'_, Counter<C>>,
        disconnect: F,
    ) -> (last: bool)
        requires
            old(guard)@.guarded(),
            old(guard).parent() == self.shared(),
            old(guard)@.receivers > 0,
            forall|chan: &mut C| (*chan).inv() ==> #[trigger] call_requires(disconnect, (chan,)),
            forall|chan: &mut C, res: bool|
                (*chan).inv() && #[trigger] call_ensures(disconnect, (chan,), res) ==> {
                    &&& (*final(chan)).inv()
                    &&& (*final(chan)).limit() == (*chan).limit()
                    &&& (*chan).at_rest() ==> (*final(chan)).at_rest()
                },
        ensures
            final(guard)@.guarded(),
            final(guard).parent() == old(guard).parent(),
            final(guard)@.label() == old(guard)@.label(),
            final(guard)@.receivers == old(guard)@.receivers - 1,
            final(guard)@.senders == old(guard)@.senders,
            old(guard)@.receivers > 1 ==> final(guard)@.chan == old(guard)@.chan,
            old(guard)@.receivers == 1 ==> exists|chan: &mut C, res: bool|
                *chan == old(guard)@.chan && *final(chan) == final(guard)@.chan
                    && #[trigger] call_ensures(disconnect, (chan,), res),
            last == (final(guard)@.receivers == 0 && final(guard)@.senders == 0),
    {
        guard.deref_mut().release_receiver(disconnect)
    }

    /// Gives the receiver reference up: releases it, and shuts the channel down if it is the last one.
    pub fn leave(&self, guard: &mut SpinlockGuard<'_, Counter<C>>) -> (last: bool)
        requires
            old(guard)@.guarded(),
            old(guard).parent() == self.shared(),
            old(guard)@.receivers > 0,
        ensures
            final(guard)@.guarded(),
            final(guard).parent() == old(guard).parent(),
            final(guard)@.label() == old(guard)@.label(),
            final(guard)@.receivers == old(guard)@.receivers - 1,
            final(guard)@.senders == old(guard)@.senders,
            old(guard)@.receivers > 1 ==> final(guard)@.chan == old(guard)@.chan,
            old(guard)@.receivers == 1 ==> final(guard)@.chan.closes(&old(guard)@.chan),
            old(guard)@.receivers == 1 ==> final(guard)@.chan.shut(),
            old(guard)@.shut_when_left() ==> final(guard)@.shut_when_left(),
            last == (final(guard)@.receivers == 0 && final(guard)@.senders == 0),
    {
        let disconnect = |chan: &mut C| -> (closed: bool)
            requires
                old(chan).inv(),
            ensures
                final(chan).inv(),
                final(chan).closes(old(chan)),
                final(chan).shut(),
                final(chan).limit() == old(chan).limit(),
                old(chan).at_rest() ==> final(chan).at_rest(),
        {
            chan.shutdown()
        };
        self.release(guard, disconnect)
    }
}

/// Two are equal where they are sides of the same channel.
impl<C: Shutdown> PartialEq for Receiver<C> {
    fn eq(&self, other: &Receiver<C>) -> (eq: bool) {
        same(&self.counter, &other.counter)
    }
}

impl<C: Shutdown> vstd::std_specs::cmp::PartialEqSpecImpl for Receiver<C> {
    open spec fn obeys_eq_spec() -> bool {
        true
    }

    open spec fn eq_spec(&self, other: &Receiver<C>) -> bool {
        self.shared() == other.shared()
    }
}

} // verus!
