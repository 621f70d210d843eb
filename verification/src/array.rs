//! Bounded channel based on a preallocated array.
//!
//! A send or a receive first claims a slot and then moves its message; the token that the claim
//! hands out carries it to the second half. Several of them may be under way at a time.
use crate::atomic_serial_waker::{AtomicSerialWaker, WaitingTasks, MAX_WAITING_TASKS};
use crate::error::{ErrorKind, SendError, SendTimeoutError, TrySendError};
use crate::log::{Cell, Log};
use crate::stamp::Layout;
use crate::Shutdown;
use futures::{Async, AsyncSink};
use std::sync::mpsc::TryRecvError;
use vstd::prelude::*;

verus! {

/// A slot in a channel.
struct Slot<T> {
    /// The current stamp.
    stamp: usize,
    /// The message in this slot.
    msg: Option<T>,
}

/// The token of a claimed slot.
pub struct Array {
    /// Slot to read from or write to; none where the channel is disconnected.
    slot: Option<usize>,
    /// Stamp to store into the slot after reading or writing.
    stamp: usize,
    /// The position that was claimed.
    pos: Ghost<nat>,
}

impl Array {
    /// The claimed position; none where the channel is disconnected.
    pub closed spec fn target(&self) -> Option<nat> {
        if self.slot is Some {
            Some(self.pos@)
        } else {
            None
        }
    }
}

impl Default for Array {
    fn default() -> (array: Self)
        ensures
            array.target() is None,
    {
        Array { slot: None, stamp: 0, pos: Ghost(0) }
    }
}

/// How an attempt to claim a slot ended.
#[derive(Debug, PartialEq, Eq, Clone, Copy, Structural)]
pub enum Claim {
    /// The token is set.
    Ready,
    /// The channel is full, or empty.
    NotReady,
    /// Another send or receive is half-way through the slot: to be tried again.
    Retry,
}

/// How an attempt to send before a deadline ended.
pub enum SendAttempt<T> {
    /// The message is in the channel.
    Sent,
    /// The message will not be sent.
    Failed(SendTimeoutError<T>),
    /// The channel is full and the deadline has not passed: to be tried again.
    Blocked(T),
}

/// What a bounded channel is.
#[verifier::ext_equal]
pub struct Bounded<T> {
    /// The capacity.
    pub cap: nat,
    /// What the channel has carried.
    pub log: Log<T>,
    /// Tasks waiting while the channel is full.
    pub senders: WaitingTasks,
    /// Tasks waiting while the channel is empty.
    pub receivers: WaitingTasks,
    /// Whether no poll has come to wait yet.
    pub first: bool,
}

impl<T> Bounded<T> {
    /// A new channel.
    pub open spec fn initial(cap: nat) -> Bounded<T> {
        Bounded {
            cap,
            log: Log::initial(),
            senders: WaitingTasks::initial(),
            receivers: WaitingTasks::initial(),
            first: true,
        }
    }

    /// No more positions are in use than there are slots.
    pub open spec fn wf(self) -> bool {
        &&& self.cap > 0
        &&& self.log.wf()
        &&& self.log.tail() <= self.log.head + self.cap
        &&& forall|p: int|
            0 <= p < self.log.tail() - self.cap ==> #[trigger] self.log.cells[p] is Read
        &&& forall|p: int| 0 <= p < self.log.head ==> !(#[trigger] self.log.cells[p] is Writing)
    }

    /// The message that was in the slot of the next position before, where there was one.
    pub open spec fn evicted(self) -> Cell<T> {
        self.log.cells[self.log.tail() - self.cap]
    }

    /// Whether the slot of the next position is free.
    pub open spec fn slot_free(self) -> bool {
        self.log.tail() < self.cap || self.evicted() is Read
    }

    /// Whether the channel holds as many messages as it can.
    pub open spec fn is_full(self) -> bool {
        self.log.len() == self.cap
    }

    /// How an attempt to claim a slot for a send ends.
    pub open spec fn send_claim(self) -> Claim {
        if self.log.closed || self.slot_free() {
            Claim::Ready
        } else if self.is_full() && self.evicted() is Full {
            Claim::NotReady
        } else {
            Claim::Retry
        }
    }

    /// How an attempt to claim a slot for a receive ends.
    pub open spec fn recv_claim(self) -> Claim {
        if self.log.len() > 0 {
            if self.log.cells[self.log.head as int] is Full {
                Claim::Ready
            } else {
                Claim::Retry
            }
        } else if !self.slot_free() {
            Claim::Retry
        } else if self.log.closed {
            Claim::Ready
        } else {
            Claim::NotReady
        }
    }

    /// The channel after the message of a claimed position was read.
    pub open spec fn after_read(self, target: Option<nat>) -> Bounded<T> {
        match target {
            Some(p) => Bounded { log: self.log.read(p), senders: self.senders.wake(), ..self },
            None => self,
        }
    }

    /// What `read` returns.
    pub open spec fn read_result(self, target: Option<nat>) -> Result<T, ()> {
        match target {
            Some(p) => Ok(self.log.message(p as int)),
            None => Err(()),
        }
    }

    /// What `poll_read` returns.
    pub open spec fn poll_read_result(self, target: Option<nat>) -> Result<Async<Option<T>>, ()> {
        match target {
            Some(p) => Ok(Async::Ready(Some(self.log.message(p as int)))),
            None => Ok(Async::Ready(None)),
        }
    }

    /// A message is sent.
    pub open spec fn send(self, msg: T) -> Bounded<T> {
        Bounded { log: self.log.send(msg), receivers: self.receivers.wake(), ..self }
    }

    /// A message is received.
    pub open spec fn recv(self) -> Bounded<T> {
        Bounded { log: self.log.recv(), senders: self.senders.wake(), ..self }
    }

    /// Whether a send has its task wait: it finds the channel open and full.
    pub open spec fn send_registers(self) -> bool {
        self.is_full() && !self.log.closed
    }

    /// The channel after `try_send` by the task `task`.
    pub open spec fn after_try_send(self, msg: T, task: u64) -> Bounded<T> {
        if self.log.closed {
            self
        } else if self.is_full() {
            Bounded { senders: self.senders.register(task), ..self }
        } else {
            self.send(msg)
        }
    }

    /// What `try_send` returns.
    pub open spec fn try_send_result(self, msg: T) -> Result<(), TrySendError<T>> {
        if self.log.closed {
            Err(TrySendError { kind: ErrorKind::Closed, value: msg })
        } else if self.is_full() {
            Err(TrySendError { kind: ErrorKind::NoCapacity, value: msg })
        } else {
            Ok(())
        }
    }

    /// The channel after `send`.
    pub open spec fn after_send(self, msg: T) -> Bounded<T> {
        if self.log.closed || self.is_full() {
            self
        } else {
            self.send(msg)
        }
    }

    /// What `send` comes to; `expired` says whether the deadline has passed.
    pub open spec fn send_result(self, msg: T, expired: bool) -> SendAttempt<T> {
        if self.log.closed {
            SendAttempt::Failed(SendTimeoutError::Disconnected(msg))
        } else if !self.is_full() {
            SendAttempt::Sent
        } else if expired {
            SendAttempt::Failed(SendTimeoutError::Timeout(msg))
        } else {
            SendAttempt::Blocked(msg)
        }
    }

    /// What `try_recv` returns.
    pub open spec fn try_recv_result(self) -> Result<T, TryRecvError> {
        if self.log.len() > 0 {
            Ok(self.log.queue()[0])
        } else if self.log.closed {
            Err(TryRecvError::Disconnected)
        } else {
            Err(TryRecvError::Empty)
        }
    }

    /// The channel after `try_recv`.
    pub open spec fn after_try_recv(self) -> Bounded<T> {
        if self.log.len() > 0 {
            self.recv()
        } else {
            self
        }
    }

    /// What a poll returns.
    pub open spec fn poll_result(self) -> Async<Option<T>> {
        if self.log.len() > 0 {
            Async::Ready(Some(self.log.queue()[0]))
        } else if self.log.closed {
            Async::Ready(None)
        } else {
            Async::NotReady
        }
    }

    /// Whether a poll has its task wait: it finds the channel open and empty, and is the first one to
    /// do so or answers a notification.
    pub open spec fn poll_registers(self) -> bool {
        self.log.len() == 0 && !self.log.closed && (self.first || self.receivers.from_me > 0)
    }

    /// The channel after a poll by the task `task`.
    pub open spec fn after_poll(self, task: u64) -> Bounded<T> {
        if self.log.len() > 0 {
            self.recv()
        } else if self.log.closed {
            self
        } else if self.first {
            Bounded { first: false, receivers: self.receivers.register(task), ..self }
        } else if self.receivers.from_me > 0 {
            Bounded { receivers: self.receivers.answer().register(task), ..self }
        } else {
            self
        }
    }

    /// The channel after the tasks that it has notified were taken.
    pub open spec fn after_take_notified(self) -> Bounded<T> {
        Bounded {
            senders: self.senders.hand_out(),
            receivers: self.receivers.hand_out(),
            ..self
        }
    }

    /// The channel after it was shut down.
    pub open spec fn after_shutdown(self) -> Bounded<T> {
        if self.log.closed {
            self
        } else {
            Bounded {
                log: self.log.close(),
                senders: self.senders.wake_all(),
                receivers: self.receivers.wake_all(),
                ..self
            }
        }
    }
}

/// Bounded channel based on a preallocated array.
pub struct Channel<T> {
    /// The stamp from which the next message is popped. Its mark bit is always zero.
    head: usize,
    /// The stamp to which the next message is pushed. The mark bit indicates that the channel is
    /// disconnected.
    tail: usize,
    /// The buffer holding slots.
    buffer: Vec<Slot<T>>,
    /// The capacity, and how the stamps are laid out.
    layout: Layout,
    /// Senders waiting while the channel is full.
    senders: AtomicSerialWaker,
    /// Receivers waiting while the channel is empty and not disconnected.
    receivers: AtomicSerialWaker,
    /// Whether no poll has come to wait yet.
    first: bool,
    /// What the channel has carried.
    log: Ghost<Log<T>>,
}

impl<T> View for Channel<T> {
    type V = Bounded<T>;

    closed spec fn view(&self) -> Bounded<T> {
        Bounded {
            cap: self.layout.cap as nat,
            log: self.log@,
            senders: self.senders@,
            receivers: self.receivers@,
            first: self.first,
        }
    }
}

impl<T> Channel<T> {
    /// The slot of the position `q`, which no send has claimed yet, is as the position a buffer's
    /// length before it left it.
    spec fn slot_ok(&self, q: nat) -> bool {
        let slot = self.buffer@[self.layout.index_of(q)];
        if q < self.layout.cap {
            slot.stamp == self.layout.stamp(q) && slot.msg is None
        } else {
            let p = (q - self.layout.cap) as nat;
            match self.log@.cells[p as int] {
                Cell::Writing => slot.stamp == self.layout.stamp(p) && slot.msg is None,
                Cell::Full(msg) => slot.stamp == self.layout.stamp(p) + 1 && slot.msg == Some(msg),
                Cell::Read(_) => slot.stamp == self.layout.stamp(q) && slot.msg is None,
            }
        }
    }

    /// The stamps and the slots say what the log says.
    pub closed spec fn wf(&self) -> bool {
        &&& self.layout.wf()
        &&& self.senders.wf()
        &&& self.receivers.wf()
        &&& self@.wf()
        &&& self.buffer@.len() == self.layout.cap
        &&& self.head == self.layout.stamp(self.log@.head)
        &&& self.tail == self.layout.marked_stamp(self.log@.tail(), self.log@.closed)
        &&& forall|q: nat|
            self.log@.tail() <= q < self.log@.tail() + self.layout.cap ==> #[trigger] self.slot_ok(
                q,
            )
    }

    /// The token was made by a claim for a send on this channel, or says that there is no slot.
    pub open spec fn send_token(&self, array: Array) -> bool {
        array.target() is Some ==> self.sends_to(array)
    }

    /// The token was made by a claim for a receive on this channel, or says that there is no slot.
    pub open spec fn recv_token(&self, array: Array) -> bool {
        array.target() is Some ==> self.receives_from(array)
    }

    /// The token names the slot of its position, and the stamp of a slot that was written to.
    pub closed spec fn sends_to(&self, array: Array) -> bool {
        array.slot matches Some(slot) ==> slot == self.layout.index_of(array.pos@) && array.stamp
            == self.layout.stamp(array.pos@) + 1
    }

    /// The token names the slot of its position, and the stamp of a slot that was read from.
    pub closed spec fn receives_from(&self, array: Array) -> bool {
        array.slot matches Some(slot) ==> slot == self.layout.index_of(array.pos@) && array.stamp
            == self.layout.stamp(array.pos@ + self.layout.cap as nat)
    }

    /// Tokens made on the one channel are tokens of the other.
    pub open spec fn same_tokens(&self, other: &Channel<T>) -> bool {
        &&& forall|array: Array| #[trigger] self.send_token(array) == other.send_token(array)
        &&& forall|array: Array| #[trigger] self.recv_token(array) == other.recv_token(array)
    }

    /// What holds of every channel is true of what it is seen as: no more messages are in it than its
    /// capacity, and no more tasks wait than there is room for.
    pub proof fn lemma_wf(&self)
        requires
            self.wf(),
        ensures
            self@.wf(),
            self@.log.len() <= self@.cap <= usize::MAX,
            self@.senders.queue.len() <= MAX_WAITING_TASKS,
            self@.receivers.queue.len() <= MAX_WAITING_TASKS,
    {
        self.senders.lemma_room();
        self.receivers.lemma_room();
    }

    /// The positions for which there is a slot lie in different slots.
    proof fn lemma_slots(&self, p: nat, q: nat)
        requires
            self.wf(),
            self.log@.tail() <= p < q < self.log@.tail() + self.layout.cap,
        ensures
            self.layout.index_of(p) != self.layout.index_of(q),
    {
        if self.layout.index_of(p) == self.layout.index_of(q) {
            crate::stamp::lemma_same_slot(self.layout.cap as int, p as int, q as int);
        }
    }

    /// Creates a bounded channel of capacity `cap`.
    pub fn with_capacity(cap: usize) -> (chan: Self)
        requires
            0 < cap <= usize::MAX / 4,
        ensures
            chan.wf(),
            chan@ == Bounded::<T>::initial(cap as nat),
    {
        let layout = Layout::new(cap);
        // Allocate a buffer of `cap` slots, the stamps set to `{lap: 0, mark: 0, index: i}`.
        let mut buffer: Vec<Slot<T>> = Vec::with_capacity(cap);
        let mut i: usize = 0;
        while i < cap
            invariant
                i <= cap,
                buffer@.len() == i,
                forall|j: int|
                    0 <= j < i ==> #[trigger] buffer@[j].stamp == j && buffer@[j].msg is None,
            decreases cap - i,
        {
            buffer.push(Slot { stamp: i, msg: None });
            i += 1;
        }
        let chan = Channel {
            head: 0,
            tail: 0,
            buffer,
            layout,
            senders: AtomicSerialWaker::new(),
            receivers: AtomicSerialWaker::new(),
            first: true,
            log: Ghost(Log::initial()),
        };
        proof {
            chan.layout.lemma_laps();
            assert forall|q: nat| q < cap implies chan.layout.stamp(q) == q && #[trigger] chan.slot_ok(
                q,
            ) by {
                vstd::arithmetic::div_mod::lemma_small_mod(q, cap as nat);
                vstd::arithmetic::div_mod::lemma_basic_div(q as int, cap as int);
                vstd::arithmetic::div_mod::lemma_small_mod(0, chan.layout.laps() as nat);
                assert(0 * chan.layout.one_lap == 0);
            }
            assert(chan.slot_ok(0));
        }
        chan
    }

    /// Attempts once to claim a slot for sending a message.
    pub fn try_claim_send(&mut self, array: &mut Array) -> (claim: Claim)
        requires
            old(self).wf(),
        ensures
            final(self).wf(),
            final(self).same_tokens(old(self)),
            claim == old(self)@.send_claim(),
            claim == Claim::Ready && !old(self)@.log.closed ==> {
                &&& final(self)@ == (Bounded { log: old(self)@.log.claim_send(), ..old(self)@ })
                &&& final(array).target() == Some(old(self)@.log.tail())
            },
            claim == Claim::Ready && old(self)@.log.closed ==> {
                &&& final(self)@ == old(self)@
                &&& final(array).target() is None
            },
            claim == Claim::Ready ==> final(self).send_token(*final(array)),
            claim != Claim::Ready ==> final(self)@ == old(self)@ && *final(array) == *old(array),
    {
        let ghost pos = self.log@.tail();
        let ghost cap = self.layout.cap as nat;
        let ghost layout = self.layout;
        proof {
            layout.lemma_laps();
            layout.lemma_stamp(pos);
            self.lemma_marked(pos);
            assert(self.slot_ok(pos));
            if pos >= cap {
                layout.lemma_later_lap((pos - cap) as nat);
                layout.lemma_stamp((pos - cap) as nat);
                layout.lemma_distinct((pos - cap) as nat, pos);
            }
            layout.lemma_later_lap(self.log@.head);
            if pos < self.log@.head + cap {
                layout.lemma_distinct(pos, self.log@.head + cap);
            }
        }
        let tail = self.tail;

        // Check if the channel is disconnected.
        if self.layout.is_marked(tail) {
            array.slot = None;
            array.stamp = 0;
            return Claim::Ready;
        }
        // Inspect the slot of the tail.

        let index = self.layout.index(tail);
        let stamp = self.buffer[index].stamp;

        if tail == stamp {
            // Move the tail.
            self.tail = self.layout.advance(tail, Ghost(pos));
            // Prepare the token for the follow-up call to `write`.
            array.slot = Some(index);
            array.stamp = tail + 1;
            array.pos = Ghost(pos);
            self.log = Ghost(self.log@.claim_send());
            proof {
                layout.lemma_later_lap(pos);
                assert forall|q: nat|
                    self.log@.tail() <= q < self.log@.tail()
                        + self.layout.cap implies #[trigger] self.slot_ok(q) by {
                    if q < pos + cap {
                        assert(old(self).slot_ok(q));
                    }
                }
                assert(self@.wf());
            }
            Claim::Ready
        } else if stamp.wrapping_add(self.layout.one_lap) == tail + 1 {
            // If the head lags one lap behind the tail as well, the channel is full.
            if self.head.wrapping_add(self.layout.one_lap) == tail {
                Claim::NotReady
            } else {
                Claim::Retry
            }
        } else {
            Claim::Retry
        }
    }

    /// Claims a slot for sending a message. Where the channel is disconnected, the token says so;
    /// where it is full, there is none.
    pub fn start_send(&mut self, array: &mut Array) -> (claimed: bool)
        requires
            old(self).wf(),
            old(self)@.send_claim() != Claim::Retry,
        ensures
            final(self).wf(),
            final(self).same_tokens(old(self)),
            claimed == (old(self)@.send_claim() == Claim::Ready),
            claimed && !old(self)@.log.closed ==> {
                &&& final(self)@ == (Bounded { log: old(self)@.log.claim_send(), ..old(self)@ })
                &&& final(array).target() == Some(old(self)@.log.tail())
            },
            claimed && old(self)@.log.closed ==> {
                &&& final(self)@ == old(self)@
                &&& final(array).target() is None
            },
            claimed ==> final(self).send_token(*final(array)),
            !claimed ==> final(self)@ == old(self)@ && *final(array) == *old(array),
    {
        let claim = self.try_claim_send(array);
        claim == Claim::Ready
    }

    /// Writes a message into the claimed slot; hands it back where the channel is disconnected.
    pub fn write(&mut self, array: &mut Array, msg: T) -> (res: Result<(), T>)
        requires
            old(self).wf(),
            old(self).send_token(*old(array)),
            old(array).target() matches Some(p) ==> p < old(self)@.log.tail() && old(
                self,
            )@.log.cells[p as int] is Writing,
        ensures
            final(self).wf(),
            final(self).same_tokens(old(self)),
            *final(array) == *old(array),
            match old(array).target() {
                Some(p) => {
                    &&& res is Ok
                    &&& final(self)@ == (Bounded {
                        log: old(self)@.log.write(p, msg),
                        receivers: old(self)@.receivers.wake(),
                        ..old(self)@
                    })
                },
                None => {
                    &&& res is Err
                    &&& res->Err_0 == msg
                    &&& final(self)@ == old(self)@
                },
            },
    {
        match array.slot {
            None => Err(msg),
            Some(index) => {
                let ghost pos = array.pos@;
                let ghost cap = self.layout.cap as nat;
                proof {
                    self.lemma_claimed(pos);
                }
                // Write the message into the slot and update the stamp.
                self.buffer[index].msg = Some(msg);
                self.buffer[index].stamp = array.stamp;
                self.log = Ghost(self.log@.write(pos, msg));
                // Wake a sleeping receiver.
                self.receivers.wake();
                proof {
                    self.lemma_moved(old(self), pos);
                }
                Ok(())
            },
        }
    }

    /// Attempts once to claim a slot for receiving a message.
    pub fn try_claim_recv(&mut self, array: &mut Array) -> (claim: Claim)
        requires
            old(self).wf(),
        ensures
            final(self).wf(),
            final(self).same_tokens(old(self)),
            claim == old(self)@.recv_claim(),
            claim == Claim::Ready && old(self)@.log.len() > 0 ==> {
                &&& final(self)@ == (Bounded { log: old(self)@.log.claim_recv(), ..old(self)@ })
                &&& final(array).target() == Some(old(self)@.log.head)
            },
            claim == Claim::Ready && old(self)@.log.len() == 0 ==> {
                &&& final(self)@ == old(self)@
                &&& final(array).target() is None
            },
            claim == Claim::Ready ==> final(self).recv_token(*final(array)),
            claim != Claim::Ready ==> final(self)@ == old(self)@ && *final(array) == *old(array),
    {
        let ghost pos = self.log@.head;
        let ghost end = self.log@.tail();
        let ghost cap = self.layout.cap as nat;
        let ghost layout = self.layout;
        proof {
            layout.lemma_laps();
            layout.lemma_stamp(pos);
            layout.lemma_later_lap(pos);
            layout.lemma_stamp(end);
            self.lemma_marked(end);
            if pos < end {
                assert(self.slot_ok(pos + cap));
                layout.lemma_distinct(pos, end);
            } else {
                assert(self.slot_ok(pos));
                if pos >= cap {
                    layout.lemma_distinct((pos - cap) as nat, pos);
                    layout.lemma_stamp((pos - cap) as nat);
                    layout.lemma_later_lap((pos - cap) as nat);
                }
            }
        }
        let head = self.head;

        // Inspect the slot of the head.
        let index = self.layout.index(head);
        let stamp = self.buffer[index].stamp;

        if head + 1 == stamp {
            // Move the head.
            self.head = self.layout.advance(head, Ghost(pos));
            // Prepare the token for the follow-up call to `read`.
            array.slot = Some(index);
            array.stamp = head.wrapping_add(self.layout.one_lap);
            array.pos = Ghost(pos);
            self.log = Ghost(self.log@.claim_recv());
            proof {
                self.lemma_kept(old(self));
            }
            Claim::Ready
        } else if stamp == head {
            let tail = self.tail;
            // If the tail equals the head, that means the channel is empty.
            if self.layout.unmarked(tail) == head {
                if self.layout.is_marked(tail) {
                    // The channel is disconnected: the receive ends in an error.
                    array.slot = None;
                    array.stamp = 0;
                    Claim::Ready
                } else {
                    Claim::NotReady
                }
            } else {
                Claim::Retry
            }
        } else {
            Claim::Retry
        }
    }

    /// Claims a slot for receiving a message. Where the channel is empty and disconnected, the
    /// token says so; where it is only empty, there is none.
    pub fn start_recv(&mut self, array: &mut Array) -> (claimed: bool)
        requires
            old(self).wf(),
            old(self)@.recv_claim() != Claim::Retry,
        ensures
            final(self).wf(),
            final(self).same_tokens(old(self)),
            claimed == (old(self)@.recv_claim() == Claim::Ready),
            claimed && old(self)@.log.len() > 0 ==> {
                &&& final(self)@ == (Bounded { log: old(self)@.log.claim_recv(), ..old(self)@ })
                &&& final(array).target() == Some(old(self)@.log.head)
            },
            claimed && old(self)@.log.len() == 0 ==> {
                &&& final(self)@ == old(self)@
                &&& final(array).target() is None
            },
            claimed ==> final(self).recv_token(*final(array)),
            !claimed ==> final(self)@ == old(self)@ && *final(array) == *old(array),
    {
        let claim = self.try_claim_recv(array);
        claim == Claim::Ready
    }

    /// Reads a message from the claimed slot; fails where the channel is empty and disconnected.
    pub fn read(&mut self, array: &mut Array) -> (res: Result<T, ()>)
        requires
            old(self).wf(),
            old(self).recv_token(*old(array)),
            old(array).target() matches Some(p) ==> p < old(self)@.log.head && old(
                self,
            )@.log.cells[p as int] is Full,
        ensures
            final(self).wf(),
            final(self).same_tokens(old(self)),
            *final(array) == *old(array),
            res == old(self)@.read_result(old(array).target()),
            final(self)@ == old(self)@.after_read(old(array).target()),
    {
        match array.slot {
            None => Err(()),
            Some(index) => {
                let ghost pos = array.pos@;
                proof {
                    self.lemma_claimed(pos);
                }
                // Read the message from the slot and update the stamp.
                let msg = self.buffer[index].msg.take().unwrap();
                self.buffer[index].stamp = array.stamp;
                self.log = Ghost(self.log@.read(pos));
                // Wake a sleeping sender.
                self.senders.wake();
                proof {
                    self.lemma_moved(old(self), pos);
                }
                Ok(msg)
            },
        }
    }

    /// Reads a message from the claimed slot, for a poll: the end of the channel is no failure.
    pub fn poll_read(&mut self, array: &mut Array) -> (res: Result<Async<Option<T>>, ()>)
        requires
            old(self).wf(),
            old(self).recv_token(*old(array)),
            old(array).target() matches Some(p) ==> p < old(self)@.log.head && old(
                self,
            )@.log.cells[p as int] is Full,
        ensures
            final(self).wf(),
            final(self).same_tokens(old(self)),
            *final(array) == *old(array),
            res == old(self)@.poll_read_result(old(array).target()),
            final(self)@ == old(self)@.after_read(old(array).target()),
    {
        match self.read(array) {
            Ok(msg) => Ok(Async::Ready(Some(msg))),
            Err(()) => Ok(Async::Ready(None)),
        }
    }

    /// Attempts to send a message into the channel. Where it is full, `task` waits for room.
    pub fn try_send(&mut self, msg: T, task: u64) -> (res: Result<(), TrySendError<T>>)
        requires
            old(self).wf(),
            old(self)@.send_claim() != Claim::Retry,
        ensures
            final(self).wf(),
            final(self).same_tokens(old(self)),
            old(self)@.log.settled() ==> final(self)@.log.settled(),
            final(self)@ == old(self)@.after_try_send(msg, task),
            res == old(self)@.try_send_result(msg),
    {
        let mut array = Array::default();
        if self.start_send(&mut array) {
            match self.write(&mut array, msg) {
                Ok(()) => Ok(()),
                Err(msg) => Err(TrySendError { kind: ErrorKind::Closed, value: msg }),
            }
        } else {
            let ghost before = *self;
            self.senders.register(task);
            proof {
                self.lemma_kept(&before);
            }
            Err(TrySendError { kind: ErrorKind::NoCapacity, value: msg })
        }
    }

    /// Attempts to send a message into the channel, for a caller who tries again until the
    /// deadline; `expired` says whether it has passed.
    pub fn send(&mut self, msg: T, expired: bool) -> (res: SendAttempt<T>)
        requires
            old(self).wf(),
            old(self)@.send_claim() != Claim::Retry,
        ensures
            final(self).wf(),
            final(self).same_tokens(old(self)),
            old(self)@.log.settled() ==> final(self)@.log.settled(),
            res == old(self)@.send_result(msg, expired),
            final(self)@ == old(self)@.after_send(msg),
    {
        let mut array = Array::default();
        if self.start_send(&mut array) {
            match self.write(&mut array, msg) {
                Ok(()) => SendAttempt::Sent,
                Err(msg) => SendAttempt::Failed(SendTimeoutError::Disconnected(msg)),
            }
        } else if expired {
            SendAttempt::Failed(SendTimeoutError::Timeout(msg))
        } else {
            SendAttempt::Blocked(msg)
        }
    }

    /// Attempts to receive a message without blocking.
    pub fn try_recv(&mut self) -> (res: Result<T, TryRecvError>)
        requires
            old(self).wf(),
            old(self)@.recv_claim() != Claim::Retry,
        ensures
            final(self).wf(),
            final(self).same_tokens(old(self)),
            old(self)@.log.settled() ==> final(self)@.log.settled(),
            final(self)@ == old(self)@.after_try_recv(),
            res == old(self)@.try_recv_result(),
    {
        let mut array = Array::default();
        if self.start_recv(&mut array) {
            match self.read(&mut array) {
                Ok(msg) => Ok(msg),
                Err(()) => Err(TryRecvError::Disconnected),
            }
        } else {
            Err(TryRecvError::Empty)
        }
    }

    /// Returns the current number of messages inside the channel.
    pub fn len(&self) -> (len: usize)
        requires
            self.wf(),
        ensures
            len == self@.log.len(),
    {
        proof {
            self.lemma_ends();
        }
        let hix = self.layout.index(self.head);
        let tix = self.layout.index(self.tail);
        if hix < tix {
            tix - hix
        } else if hix > tix {
            self.layout.cap - hix + tix
        } else if self.layout.unmarked(self.tail) == self.head {
            0
        } else {
            self.layout.cap
        }
    }

    /// Returns the capacity of the channel.
    pub fn capacity(&self) -> (cap: Option<usize>)
        ensures
            cap is Some,
            cap->Some_0 == self@.cap,
    {
        Some(self.layout.cap)
    }

    /// Returns `true` if the channel is empty.
    pub fn is_empty(&self) -> (empty: bool)
        requires
            self.wf(),
        ensures
            empty == (self@.log.len() == 0),
    {
        proof {
            self.lemma_ends();
        }
        // Is the tail equal to the head?
        self.layout.unmarked(self.tail) == self.head
    }

    /// Returns `true` if the channel is full.
    pub fn is_full(&self) -> (full: bool)
        requires
            self.wf(),
        ensures
            full == self@.is_full(),
    {
        proof {
            self.lemma_ends();
        }
        // Is the head lagging one lap behind the tail?
        self.head.wrapping_add(self.layout.one_lap) == self.layout.unmarked(self.tail)
    }

    /// Whether a send that does not wait for room would have its task wait.
    pub fn send_registers(&self) -> (registers: bool)
        requires
            self.wf(),
        ensures
            registers == self@.send_registers(),
    {
        self.is_full() && !self.is_shutdown()
    }

    /// Whether a poll would have its task wait.
    pub fn poll_registers(&self) -> (registers: bool)
        requires
            self.wf(),
        ensures
            registers == self@.poll_registers(),
    {
        self.is_empty() && !self.is_shutdown() && (self.first || self.receivers.to_answer())
    }

    /// Polls for a message. Where there is none and the channel is not disconnected, `task` waits
    /// for one, if this is the first poll to wait or one that answers a notification.
    pub fn poll(&mut self, task: u64) -> (res: Result<Async<Option<T>>, ()>)
        requires
            old(self).wf(),
            old(self)@.recv_claim() != Claim::Retry,
        ensures
            final(self).wf(),
            final(self).same_tokens(old(self)),
            old(self)@.log.settled() ==> final(self)@.log.settled(),
            final(self)@ == old(self)@.after_poll(task),
            res is Ok,
            res->Ok_0 == old(self)@.poll_result(),
    {
        let mut array = Array::default();
        let ready = self.start_recv(&mut array);
        let ghost before = *self;
        if ready {
            self.poll_read(&mut array)
        } else if self.first {
            self.first = false;
            self.receivers.register(task);
            proof {
                self.lemma_kept(&before);
            }
            if self.start_recv(&mut array) {
                self.poll_read(&mut array)
            } else {
                Ok(Async::NotReady)
            }
        } else if self.receivers.answer() {
            self.receivers.register(task);
            proof {
                self.lemma_kept(&before);
            }
            if self.start_recv(&mut array) {
                self.poll_read(&mut array)
            } else {
                Ok(Async::NotReady)
            }
        } else {
            proof {
                self.lemma_kept(&before);
            }
            Ok(Async::NotReady)
        }
    }

    /// Sends an item into the channel as into a sink: a full channel hands it back.
    pub fn sink_start_send(&mut self, item: T, task: u64) -> (res: Result<AsyncSink<T>, SendError>)
        requires
            old(self).wf(),
            old(self)@.send_claim() != Claim::Retry,
        ensures
            final(self).wf(),
            final(self).same_tokens(old(self)),
            old(self)@.log.settled() ==> final(self)@.log.settled(),
            final(self)@ == old(self)@.after_try_send(item, task),
            res is Err <==> old(self)@.log.closed,
            res is Ok ==> res->Ok_0 == if old(self)@.is_full() {
                AsyncSink::NotReady(item)
            } else {
                AsyncSink::Ready
            },
    {
        match self.try_send(item, task) {
            Ok(()) => Ok(AsyncSink::Ready),
            Err(err) => {
                if err.is_closed() {
                    Err(SendError)
                } else {
                    Ok(AsyncSink::NotReady(err.into_inner()))
                }
            },
        }
    }

    /// An item that was sent needs no flushing.
    pub fn poll_complete(&mut self) -> (res: Result<Async<()>, SendError>)
        ensures
            *final(self) == *old(self),
            res is Ok,
            res->Ok_0 == Async::Ready(()),
    {
        Ok(Async::Ready(()))
    }

    /// The tasks that the channel has notified: first the senders, then the receivers.
    pub fn take_notified(&mut self) -> (tasks: Vec<u64>)
        requires
            old(self).wf(),
        ensures
            final(self).wf(),
            final(self).same_tokens(old(self)),
            tasks@ == old(self)@.senders.notified + old(self)@.receivers.notified,
            final(self)@ == old(self)@.after_take_notified(),
    {
        let mut tasks = self.senders.take_notified();
        let mut receivers = self.receivers.take_notified();
        tasks.append(&mut receivers);
        proof {
            self.lemma_kept(old(self));
        }
        tasks
    }

    /// Takes the messages out of a channel that is given up, the one to be received first first.
    pub fn into_messages(self) -> (msgs: Vec<T>)
        requires
            self.wf(),
            self@.log.settled(),
        ensures
            msgs@ == self@.log.queue(),
    {
        proof {
            self.lemma_ends();
            self.layout.lemma_laps();
        }
        let len = self.len();
        let cap = self.layout.cap;
        // Get the index of the head.
        let hix = self.layout.index(self.head);
        let ghost chan = self;
        let ghost head = self.log@.head;
        let mut buffer = self.buffer;
        let mut msgs: Vec<T> = Vec::new();
        let mut i: usize = 0;
        // Loop over all slots that hold a message.
        while i < len
            invariant
                i <= len <= cap,
                hix < cap <= usize::MAX / 2,
                buffer@.len() == cap,
                chan.wf(),
                chan@.log.settled(),
                cap == chan.layout.cap,
                head == chan.log@.head,
                len == chan.log@.len(),
                hix == chan.layout.index_of(head),
                msgs@ == chan.log@.queue().subrange(0, i as int),
                forall|j: nat|
                    i <= j < len ==> buffer@[#[trigger] chan.layout.index_of(head + j)]
                        == chan.buffer@[chan.layout.index_of(head + j)],
            decreases len - i,
        {
            // Compute the index of the next slot holding a message.
            let index = if hix + i < cap {
                hix + i
            } else {
                hix + i - cap
            };
            let ghost pos = (head + i) as nat;
            proof {
                chan.lemma_claimed(pos);
                vstd::arithmetic::div_mod::lemma_fundamental_div_mod(head as int, cap as int);
                let q = head as int / cap as int;
                if hix + i < cap {
                    vstd::arithmetic::div_mod::lemma_fundamental_div_mod_converse(
                        pos as int,
                        cap as int,
                        q,
                        index as int,
                    );
                } else {
                    assert(cap * (q + 1) == cap * q + cap) by (nonlinear_arith);
                    vstd::arithmetic::div_mod::lemma_fundamental_div_mod_converse(
                        pos as int,
                        cap as int,
                        q + 1,
                        index as int,
                    );
                }
                assert(chan.layout.index_of(head + i as nat) == index);
                assert forall|j: nat| i < j < len implies #[trigger] chan.layout.index_of(head + j)
                    != index by {
                    chan.lemma_claimed(head + j);
                    chan.lemma_slots(pos + cap as nat, head + j + cap as nat);
                }
            }
            msgs.push(buffer[index].msg.take().unwrap());
            i += 1;
            proof {
                assert(msgs@ =~= chan.log@.queue().subrange(0, i as int));
            }
        }
        proof {
            assert(msgs@ =~= self@.log.queue());
        }
        msgs
    }

    /// A position whose message is under way has a slot.
    proof fn lemma_claimed(&self, pos: nat)
        requires
            self.wf(),
            pos < self.log@.tail(),
            !(self.log@.cells[pos as int] is Read),
        ensures
            self.log@.tail() <= pos + self.layout.cap < self.log@.tail() + self.layout.cap,
            self.slot_ok(pos + self.layout.cap as nat),
            self.layout.index_of(pos + self.layout.cap as nat) == self.layout.index_of(pos),
            0 <= self.layout.index_of(pos) < self.layout.cap,
    {
        self.layout.lemma_later_lap(pos);
        self.layout.lemma_stamp(pos);
        assert(self.slot_ok(pos + self.layout.cap as nat));
    }

    /// What leaves log and slots as they are keeps them in agreement.
    proof fn lemma_kept(&self, before: &Channel<T>)
        requires
            before.wf(),
            self.layout == before.layout,
            self.log@.cells == before.log@.cells,
            self.buffer@ == before.buffer@,
        ensures
            self.same_tokens(before),
            forall|q: nat|
                self.log@.tail() <= q < self.log@.tail()
                    + self.layout.cap ==> #[trigger] self.slot_ok(q),
    {
        assert forall|q: nat|
            self.log@.tail() <= q < self.log@.tail()
                + self.layout.cap implies #[trigger] self.slot_ok(q) by {
            assert(before.slot_ok(q));
        }
    }

    /// What happens to one slot leaves the others as they are.
    proof fn lemma_moved(&self, before: &Channel<T>, pos: nat)
        requires
            before.wf(),
            pos < before.log@.tail(),
            !(before.log@.cells[pos as int] is Read),
            self.layout == before.layout,
            self.log@.cells.len() == before.log@.cells.len(),
            forall|p: int|
                0 <= p < before.log@.tail() && p != pos ==> #[trigger] self.log@.cells[p]
                    == before.log@.cells[p],
            self.buffer@.len() == before.buffer@.len(),
            forall|i: int|
                0 <= i < before.buffer@.len() && i != before.layout.index_of(pos)
                    ==> #[trigger] self.buffer@[i] == before.buffer@[i],
            self.slot_ok(pos + before.layout.cap as nat),
        ensures
            forall|q: nat|
                self.log@.tail() <= q < self.log@.tail()
                    + self.layout.cap ==> #[trigger] self.slot_ok(q),
    {
        let cap = self.layout.cap as nat;
        before.lemma_claimed(pos);
        assert forall|q: nat|
            self.log@.tail() <= q < self.log@.tail() + cap implies #[trigger] self.slot_ok(q) by {
            assert(before.slot_ok(q));
            self.layout.lemma_stamp(q);
            if q < pos + cap {
                before.lemma_slots(q, pos + cap);
            } else if q > pos + cap {
                before.lemma_slots(pos + cap, q);
            }
        }
    }

    /// What the indices of head and tail say of their distance.
    proof fn lemma_ends(&self)
        requires
            self.wf(),
        ensures
            self.log@.closed <==> self.tail as int % self.layout.one_lap as int
                >= self.layout.mark_bit,
            self.tail == self.layout.stamp(self.log@.tail()) + if self.log@.closed {
                self.layout.mark_bit as int
            } else {
                0
            },
            self.head as int % self.layout.mark_bit as int == self.layout.index_of(self.log@.head),
            self.tail as int % self.layout.mark_bit as int == self.layout.index_of(
                self.log@.tail(),
            ),
            0 <= self.layout.index_of(self.log@.head) < self.layout.cap,
            0 <= self.layout.index_of(self.log@.tail()) < self.layout.cap,
            self.head == self.layout.stamp(self.log@.tail()) <==> self.log@.len() == 0,
            self.head.wrapping_add(self.layout.one_lap) == self.layout.stamp(self.log@.tail())
                <==> self.log@.len() == self.layout.cap,
            ({
                let (hix, tix) = (
                    self.layout.index_of(self.log@.head),
                    self.layout.index_of(self.log@.tail()),
                );
                &&& hix < tix ==> self.log@.len() == tix - hix
                &&& hix > tix ==> self.log@.len() == self.layout.cap - hix + tix
                &&& hix == tix ==> self.log@.len() == 0 || self.log@.len() == self.layout.cap
            }),
    {
        let (h, t) = (self.log@.head, self.log@.tail());
        let cap = self.layout.cap as int;
        let layout = self.layout;
        layout.lemma_laps();
        layout.lemma_stamp(h);
        layout.lemma_stamp(t);
        layout.lemma_later_lap(h);
        self.lemma_marked(t);
        if h < t {
            layout.lemma_distinct(h, t);
        }
        if t < h + cap {
            layout.lemma_distinct(t, (h + cap) as nat);
        }
        if self.log@.closed {
            let mark = layout.mark_bit as int;
            assert(self.tail as int % mark == layout.stamp(t) as int % mark) by {
                vstd::arithmetic::div_mod::lemma_mod_add_multiples_vanish(
                    layout.stamp(t) as int,
                    mark,
                );
            }
        }
        vstd::arithmetic::div_mod::lemma_fundamental_div_mod(h as int, cap);
        vstd::arithmetic::div_mod::lemma_fundamental_div_mod(t as int, cap);
        let k = t as int / cap - h as int / cap;
        assert(cap * (t as int / cap) - cap * (h as int / cap) == cap * k) by (nonlinear_arith)
            requires
                k == t as int / cap - h as int / cap,
        ;
        assert(k == 0 || k == 1) by (nonlinear_arith)
            requires
                cap > 0,
                -cap < cap * k < 2 * cap,
        ;
    }

    /// What the mark of the tail says.
    proof fn lemma_marked(&self, pos: nat)
        requires
            self.wf(),
            pos == self.log@.tail(),
        ensures
            self.log@.closed <==> self.tail as int % self.layout.one_lap as int
                >= self.layout.mark_bit,
    {
        let layout = self.layout;
        layout.lemma_laps();
        layout.lemma_stamp(pos);
        if self.log@.closed {
            let lap = layout.lap_of(pos);
            vstd::arithmetic::div_mod::lemma_fundamental_div_mod_converse(
                self.tail as int,
                layout.one_lap as int,
                lap,
                layout.index_of(pos) + layout.mark_bit,
            );
        }
    }
}

impl<T> Shutdown for Channel<T> {
    open spec fn inv(&self) -> bool {
        self.wf()
    }

    open spec fn at_rest(&self) -> bool {
        self@.log.settled()
    }

    open spec fn limit(&self) -> Option<nat> {
        Some(self@.cap)
    }

    open spec fn shut(&self) -> bool {
        self@.log.closed
    }

    open spec fn closes(&self, before: &Self) -> bool {
        self@ == before@.after_shutdown()
    }

    /// Closes the channel and wakes all who wait on it.
    fn shutdown(&mut self) -> (closed: bool)
        ensures
            final(self)@ == old(self)@.after_shutdown(),
            final(self).same_tokens(old(self)),
    {
        proof {
            self.lemma_ends();
            self.layout.lemma_stamp(self.log@.tail());
        }
        let tail = self.tail;
        self.tail = self.layout.marked(tail);
        if self.layout.is_marked(tail) {
            false
        } else {
            self.log = Ghost(self.log@.close());
            self.senders.wake_all();
            self.receivers.wake_all();
            proof {
                self.lemma_kept(old(self));
            }
            true
        }
    }

    fn is_shutdown(&self) -> (shut: bool) {
        proof {
            self.lemma_ends();
        }
        self.layout.is_marked(self.tail)
    }
}

} // verus!
