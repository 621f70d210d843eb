//! Zero-capacity channel.
//!
//! This kind of channel is also known as *rendezvous* channel: a send waits for a receive and the
//! other way round, and the message passes from the one to the other.
//!
//! An operation that has to wait takes a place, whose number names its packet, its context and the
//! operation itself. The thread that runs it blocks, and goes on with `resume_send` or
//! `resume_recv` once it is unparked.
use crate::atomic_serial_waker::{AtomicSerialWaker, WaitingTasks, MAX_WAITING_TASKS};
use crate::context::{Blocked, Context, Contexts, State, RESERVED};
use crate::error::{ErrorKind, RecvTimeoutError, SendError, SendTimeoutError, TrySendError};
use crate::select::{Operation, Selected};
use crate::waker::{
    after_disconnect, first_of, first_selectable, known, lemma_first_of, lemma_first_selectable,
    Entry, Waker,
};
use crate::Shutdown;
use futures::{Async, AsyncSink};
use std::sync::mpsc::TryRecvError;
use vstd::prelude::*;

verus! {

/// The number of a packet; 0 where the channel is disconnected.
pub type Zero = usize;

/// How an operation that may have to wait goes on.
pub enum Blocking<R> {
    /// It is done.
    Ready(R),
    /// The thread has to block; the operation waits at the place.
    Parked(Zero),
}

/// An operation that waits, or that has been paired up while it waited.
pub enum Place<T> {
    /// A send waits for a receive.
    Offering { thread: u64, msg: T },
    /// A receive waits for a send.
    Asking { thread: u64 },
    /// A receive has paired up with the send, and is to read its message.
    Accepted { thread: u64, msg: T },
    /// A send has paired up with the receive, and is to write its message.
    Promised { thread: u64 },
    /// The message of the send has been read.
    Taken { thread: u64 },
    /// The message for the receive has been written.
    Given { thread: u64, msg: T },
}

impl<T> Place<T> {
    /// The thread that blocks.
    pub open spec fn thread(self) -> u64 {
        match self {
            Place::Offering { thread, msg } => thread,
            Place::Asking { thread } => thread,
            Place::Accepted { thread, msg } => thread,
            Place::Promised { thread } => thread,
            Place::Taken { thread } => thread,
            Place::Given { thread, msg } => thread,
        }
    }

    /// The message of the operation.
    pub open spec fn message(self) -> Option<T> {
        match self {
            Place::Offering { thread, msg } => Some(msg),
            Place::Asking { thread } => None,
            Place::Accepted { thread, msg } => Some(msg),
            Place::Promised { thread } => None,
            Place::Taken { thread } => None,
            Place::Given { thread, msg } => Some(msg),
        }
    }

    /// The operation has not been paired up.
    pub open spec fn waits(self) -> bool {
        self is Offering || self is Asking
    }

    /// The message has passed.
    pub open spec fn ready(self) -> bool {
        self is Taken || self is Given
    }

    /// The operation is a send.
    pub open spec fn is_send(self) -> bool {
        self is Offering || self is Accepted || self is Taken
    }
}

/// What a zero-capacity channel is.
#[verifier::ext_equal]
pub struct Rendezvous<T> {
    /// The operations for which a thread blocks.
    pub places: Map<usize, Place<T>>,
    /// The sends that wait, in the order in which they began to.
    pub offers: Seq<usize>,
    /// The receives that wait, in the order in which they began to.
    pub requests: Seq<usize>,
    /// Whether the channel is disconnected.
    pub closed: bool,
    /// Tasks waiting to send.
    pub senders: WaitingTasks,
    /// Tasks waiting to receive.
    pub receivers: WaitingTasks,
    /// Whether no poll has come to wait yet.
    pub first: bool,
    /// The threads that were unparked, in that order.
    pub unparked: Seq<u64>,
}

/// The first operation in the queue, from `from` on, that is another thread's; the length of the
/// queue where there is none.
pub open spec fn first_other<T>(
    places: Map<usize, Place<T>>,
    queue: Seq<usize>,
    thread: u64,
    from: int,
) -> int
    decreases queue.len() - from,
{
    if from >= queue.len() {
        queue.len() as int
    } else if places[queue[from]].thread() != thread {
        from
    } else {
        first_other(places, queue, thread, from + 1)
    }
}

impl<T> Rendezvous<T> {
    /// A new channel.
    pub open spec fn initial() -> Rendezvous<T> {
        Rendezvous {
            places: Map::<usize, Place<T>>::empty(),
            offers: Seq::<usize>::empty(),
            requests: Seq::<usize>::empty(),
            closed: false,
            senders: WaitingTasks::initial(),
            receivers: WaitingTasks::initial(),
            first: true,
            unparked: Seq::<u64>::empty(),
        }
    }

    /// What waits in the queues are the sends and the receives that have not been paired up.
    pub open spec fn wf(self) -> bool {
        &&& self.offers.no_duplicates()
        &&& self.requests.no_duplicates()
        &&& forall|i: int|
            0 <= i < self.offers.len() ==> self.places.dom().contains(#[trigger] self.offers[i])
                && self.places[self.offers[i]] is Offering
        &&& forall|i: int|
            0 <= i < self.requests.len() ==> self.places.dom().contains(
                #[trigger] self.requests[i],
            ) && self.places[self.requests[i]] is Asking
        &&& forall|z: usize| #[trigger]
            self.places.dom().contains(z) && self.places[z] is Offering ==> self.offers.contains(z)
        &&& forall|z: usize| #[trigger]
            self.places.dom().contains(z) && self.places[z] is Asking ==> self.requests.contains(z)
    }

    /// No message is half-way between two operations.
    pub open spec fn settled(self) -> bool {
        forall|z: usize| #[trigger]
            self.places.dom().contains(z) ==> !(self.places[z] is Accepted)
                && !(self.places[z] is Promised)
    }

    /// Which of the waiting receives a send by the thread pairs up with.
    pub open spec fn receiver_for(self, thread: u64) -> Option<int> {
        let k = first_other(self.places, self.requests, thread, 0);
        if !self.closed && k < self.requests.len() {
            Some(k)
        } else {
            None
        }
    }

    /// Which of the waiting sends a receive by the thread pairs up with.
    pub open spec fn sender_for(self, thread: u64) -> Option<int> {
        let k = first_other(self.places, self.offers, thread, 0);
        if !self.closed && k < self.offers.len() {
            Some(k)
        } else {
            None
        }
    }

    /// A send pairs up with a waiting receive.
    pub open spec fn promise(self, k: int) -> Rendezvous<T> {
        let z = self.requests[k];
        let thread = self.places[z].thread();
        Rendezvous {
            places: self.places.insert(z, Place::Promised { thread }),
            requests: self.requests.remove(k),
            unparked: self.unparked.push(thread),
            ..self
        }
    }

    /// A receive pairs up with a waiting send.
    pub open spec fn accept(self, k: int) -> Rendezvous<T> {
        let z = self.offers[k];
        let thread = self.places[z].thread();
        let msg = self.places[z]->Offering_msg;
        Rendezvous {
            places: self.places.insert(z, Place::Accepted { thread, msg }),
            offers: self.offers.remove(k),
            unparked: self.unparked.push(thread),
            ..self
        }
    }

    /// The message is written for the receive at the place.
    pub open spec fn give(self, z: usize, msg: T) -> Rendezvous<T> {
        let thread = self.places[z].thread();
        Rendezvous {
            places: self.places.insert(z, Place::Given { thread, msg }),
            receivers: self.receivers.wake(),
            ..self
        }
    }

    /// The message of the send at the place is read.
    pub open spec fn take(self, z: usize) -> Rendezvous<T> {
        let thread = self.places[z].thread();
        Rendezvous {
            places: self.places.insert(z, Place::Taken { thread }),
            senders: self.senders.wake(),
            ..self
        }
    }

    /// A send begins to wait at the place.
    pub open spec fn offer(self, z: usize, thread: u64, msg: T) -> Rendezvous<T> {
        Rendezvous {
            places: self.places.insert(z, Place::Offering { thread, msg }),
            offers: self.offers.push(z),
            receivers: self.receivers.wake(),
            ..self
        }
    }

    /// A receive begins to wait at the place.
    pub open spec fn ask(self, z: usize, thread: u64) -> Rendezvous<T> {
        Rendezvous {
            places: self.places.insert(z, Place::Asking { thread }),
            requests: self.requests.push(z),
            senders: self.senders.wake(),
            ..self
        }
    }

    /// The operation at the place is over.
    pub open spec fn leave(self, z: usize) -> Rendezvous<T> {
        Rendezvous {
            places: self.places.remove(z),
            offers: if self.places[z] is Offering {
                self.offers.remove(self.offers.index_of(z))
            } else {
                self.offers
            },
            requests: if self.places[z] is Asking {
                self.requests.remove(self.requests.index_of(z))
            } else {
                self.requests
            },
            ..self
        }
    }

    /// The channel after a send that does not wait.
    pub open spec fn after_try_send(self, msg: T, thread: u64) -> Rendezvous<T> {
        match self.receiver_for(thread) {
            Some(k) => self.promise(k).give(self.requests[k], msg),
            None => self,
        }
    }

    /// What a send that does not wait returns.
    pub open spec fn try_send_result(self, msg: T, thread: u64) -> Result<(), TrySendError<T>> {
        if self.receiver_for(thread) is Some {
            Ok(())
        } else if self.closed {
            Err(TrySendError { kind: ErrorKind::Closed, value: msg })
        } else {
            Err(TrySendError { kind: ErrorKind::NoCapacity, value: msg })
        }
    }

    /// The channel after a receive that does not wait.
    pub open spec fn after_try_recv(self, thread: u64) -> Rendezvous<T> {
        match self.sender_for(thread) {
            Some(k) => self.accept(k).take(self.offers[k]),
            None => self,
        }
    }

    /// What a receive that does not wait returns.
    pub open spec fn try_recv_result(self, thread: u64) -> Result<T, TryRecvError> {
        match self.sender_for(thread) {
            Some(k) => Ok(self.places[self.offers[k]]->Offering_msg),
            None => if self.closed {
                Err(TryRecvError::Disconnected)
            } else {
                Err(TryRecvError::Empty)
            },
        }
    }

    /// A send has led from this channel to `after`, with the outcome `res`.
    pub open spec fn sends(
        self,
        msg: T,
        thread: u64,
        after: Rendezvous<T>,
        res: Blocking<Result<(), SendTimeoutError<T>>>,
    ) -> bool {
        if self.receiver_for(thread) is Some {
            &&& after == self.after_try_send(msg, thread)
            &&& res == Blocking::Ready(Ok::<(), SendTimeoutError<T>>(()))
        } else if self.closed {
            &&& after == self
            &&& res == Blocking::Ready(
                Err::<(), SendTimeoutError<T>>(SendTimeoutError::Disconnected(msg)),
            )
        } else {
            &&& res matches Blocking::Parked(z)
            &&& !self.places.dom().contains(z)
            &&& after == self.offer(z, thread, msg)
        }
    }

    /// A receive has led from this channel to `after`, with the outcome `res`.
    pub open spec fn receives(
        self,
        thread: u64,
        after: Rendezvous<T>,
        res: Blocking<Result<T, RecvTimeoutError>>,
    ) -> bool {
        if let Some(k) = self.sender_for(thread) {
            &&& after == self.after_try_recv(thread)
            &&& res == Blocking::Ready(
                Ok::<T, RecvTimeoutError>(self.places[self.offers[k]]->Offering_msg),
            )
        } else if self.closed {
            &&& after == self
            &&& res == Blocking::Ready(Err::<T, RecvTimeoutError>(RecvTimeoutError::Disconnected))
        } else {
            &&& res matches Blocking::Parked(z)
            &&& !self.places.dom().contains(z)
            &&& after == self.ask(z, thread)
        }
    }

    /// The thread of the send at the place can go on.
    pub open spec fn send_over(self, z: usize) -> bool {
        self.places[z] is Taken || self.places[z] is Offering && self.closed
    }

    /// What the send at the place comes to.
    pub open spec fn send_outcome(self, z: usize) -> Blocking<Result<(), SendTimeoutError<T>>> {
        if !self.send_over(z) {
            Blocking::Parked(z)
        } else if self.places[z] is Taken {
            Blocking::Ready(Ok(()))
        } else {
            Blocking::Ready(Err(SendTimeoutError::Disconnected(self.places[z]->Offering_msg)))
        }
    }

    /// The thread of the receive at the place can go on.
    pub open spec fn recv_over(self, z: usize) -> bool {
        self.places[z] is Given || self.places[z] is Asking && self.closed
    }

    /// What the receive at the place comes to.
    pub open spec fn recv_outcome(self, z: usize) -> Blocking<Result<T, RecvTimeoutError>> {
        if !self.recv_over(z) {
            Blocking::Parked(z)
        } else if self.places[z] is Given {
            Blocking::Ready(Ok(self.places[z]->Given_msg))
        } else {
            Blocking::Ready(Err(RecvTimeoutError::Disconnected))
        }
    }

    /// The channel after the send at the place was resumed.
    pub open spec fn after_resume_send(self, zero: usize) -> Rendezvous<T> {
        if self.send_over(zero) {
            self.leave(zero)
        } else {
            self
        }
    }

    /// The channel after the receive at the place was resumed.
    pub open spec fn after_resume_recv(self, zero: usize) -> Rendezvous<T> {
        if self.recv_over(zero) {
            self.leave(zero)
        } else {
            self
        }
    }

    /// Whether a poll by the thread has its task wait: it finds the channel open and no sender, and
    /// is the first one to do so or answers a notification.
    pub open spec fn poll_registers(self, thread: u64) -> bool {
        &&& self.sender_for(thread) is None
        &&& !self.closed
        &&& self.first || self.receivers.from_me > 0
    }

    /// Whether a send into the sink by the thread has its task wait: it finds the channel open and
    /// no receiver.
    pub open spec fn sink_registers(self, thread: u64) -> bool {
        self.receiver_for(thread) is None && !self.closed
    }

    /// A poll has led from this channel to `after`, with the outcome `res`.
    pub open spec fn polls(
        self,
        thread: u64,
        task: u64,
        after: Rendezvous<T>,
        res: Blocking<Async<Option<T>>>,
    ) -> bool {
        if let Some(k) = self.sender_for(thread) {
            &&& after == self.after_try_recv(thread)
            &&& res == Blocking::Ready(
                Async::Ready(Some(self.places[self.offers[k]]->Offering_msg)),
            )
        } else if self.closed {
            &&& after == self
            &&& res == Blocking::Ready(Async::Ready(None::<T>))
        } else if self.first {
            Rendezvous { first: false, receivers: self.receivers.register(task), ..self }.polls_on(
                thread,
                after,
                res,
            )
        } else if self.receivers.from_me > 0 {
            Rendezvous { receivers: self.receivers.answer().register(task), ..self }.polls_on(
                thread,
                after,
                res,
            )
        } else {
            &&& after == self
            &&& res == Blocking::Ready(Async::<Option<T>>::NotReady)
        }
    }

    /// A poll that has found no sender has begun to wait at a place of its own.
    pub open spec fn polls_on(
        self,
        thread: u64,
        after: Rendezvous<T>,
        res: Blocking<Async<Option<T>>>,
    ) -> bool {
        &&& res matches Blocking::Parked(z)
        &&& !self.places.dom().contains(z)
        &&& after == self.ask(z, thread)
    }

    /// A send into the sink has led from this channel to `after`, with the outcome `res`.
    pub open spec fn sinks(
        self,
        item: T,
        thread: u64,
        task: u64,
        after: Rendezvous<T>,
        res: Blocking<Result<AsyncSink<T>, SendError>>,
    ) -> bool {
        if self.receiver_for(thread) is Some {
            &&& after == self.after_try_send(item, thread)
            &&& res == Blocking::Ready(Ok::<AsyncSink<T>, SendError>(AsyncSink::Ready))
        } else if self.closed {
            &&& after == self
            &&& res == Blocking::Ready(Err::<AsyncSink<T>, SendError>(SendError))
        } else {
            &&& res matches Blocking::Parked(z)
            &&& !self.places.dom().contains(z)
            &&& after == Rendezvous { senders: self.senders.register(task), ..self }.offer(
                z,
                thread,
                item,
            )
        }
    }

    /// The threads of the operations in the queue.
    pub open spec fn threads(self, queue: Seq<usize>) -> Seq<u64> {
        Seq::new(queue.len(), |i: int| self.places[queue[i]].thread())
    }

    /// The channel after the tasks that it has notified were taken.
    pub open spec fn after_take_notified(self) -> Rendezvous<T> {
        Rendezvous {
            senders: self.senders.hand_out(),
            receivers: self.receivers.hand_out(),
            ..self
        }
    }

    /// The channel after the threads that it has unparked were taken.
    pub open spec fn after_take_unparked(self) -> Rendezvous<T> {
        Rendezvous { unparked: Seq::<u64>::empty(), ..self }
    }

    /// The channel after it was shut down.
    pub open spec fn after_shutdown(self) -> Rendezvous<T> {
        if self.closed {
            self
        } else {
            Rendezvous {
                closed: true,
                unparked: self.unparked + self.threads(self.offers) + self.threads(self.requests),
                ..self
            }
        }
    }
}

/// A slot for passing one message from a sender to a receiver.
struct Packet<T> {
    /// Equals `true` once the message has passed.
    ready: bool,
    /// The message.
    msg: Option<T>,
}

impl<T> Packet<T> {
    /// Creates an empty packet.
    fn empty_on_stack() -> (packet: Self)
        ensures
            !packet.ready,
            packet.msg is None,
    {
        Packet { ready: false, msg: None }
    }

    /// Creates a packet containing a message.
    fn message_on_stack(msg: T) -> (packet: Self)
        ensures
            !packet.ready,
            packet.msg == Some(msg),
    {
        Packet { ready: false, msg: Some(msg) }
    }
}

/// Inner representation of a zero-capacity channel.
struct Inner {
    /// Senders waiting to pair up with a receive operation.
    senders: Waker,
    /// Receivers waiting to pair up with a send operation.
    receivers: Waker,
    /// Equals `true` when channel is disconnected.
    is_disconnected: bool,
}

/// Zero-capacity channel.
pub struct Channel<T> {
    /// Inner representation of the channel.
    inner: Inner,
    /// The contexts of the threads that block.
    contexts: Contexts,
    /// The packets, each in its place.
    packets: Vec<Option<Packet<T>>>,
    /// Tasks waiting to send.
    senders: AtomicSerialWaker,
    /// Tasks waiting to receive.
    receivers: AtomicSerialWaker,
    /// Whether no poll has come to wait yet.
    first: bool,
    /// The operations for which a thread blocks.
    places: Ghost<Map<usize, Place<T>>>,
}

/// The places of the entries.
spec fn places_of(entries: Seq<Entry>) -> Seq<usize> {
    Seq::new(entries.len(), |i: int| entries[i].packet)
}

/// The entry of the operation at the place.
spec fn entry_at(z: usize) -> Entry {
    Entry { oper: Operation(z), packet: z, cx: Context { place: z } }
}

/// Each entry is that of a place.
spec fn entries_ok(entries: Seq<Entry>) -> bool {
    forall|i: int| 0 <= i < entries.len() ==> #[trigger] entries[i] == entry_at(entries[i].packet)
}

impl<T> View for Channel<T> {
    type V = Rendezvous<T>;

    closed spec fn view(&self) -> Rendezvous<T> {
        Rendezvous {
            places: self.places@,
            offers: places_of(self.inner.senders@),
            requests: places_of(self.inner.receivers@),
            closed: self.inner.is_disconnected,
            senders: self.senders@,
            receivers: self.receivers@,
            first: self.first,
            unparked: self.contexts@.unparked,
        }
    }
}

/// Context and packet are as the place says.
spec fn place_ok<T>(
    z: usize,
    place: Place<T>,
    state: State,
    packet: Option<Packet<T>>,
    closed: bool,
) -> bool {
    &&& state.busy
    &&& state.thread_id == place.thread()
    &&& state.select == if !place.waits() {
        Selected::Operation(Operation(z))
    } else if closed {
        Selected::Disconnected
    } else {
        Selected::Waiting
    }
    &&& packet is Some
    &&& packet->Some_0.ready == place.ready()
    &&& packet->Some_0.msg == place.message()
}

impl<T> Channel<T> {
    /// What is at the place is as it should be.
    spec fn at(&self, z: usize) -> bool {
        if self.places@.dom().contains(z) {
            &&& RESERVED <= z < self.packets@.len()
            &&& place_ok(
                z,
                self.places@[z],
                self.contexts@.states[z as int],
                self.packets@[z as int],
                self.inner.is_disconnected,
            )
        } else if RESERVED <= z < self.packets@.len() {
            &&& !self.contexts@.states[z as int].busy
            &&& self.packets@[z as int] is None
        } else {
            true
        }
    }

    /// Contexts, packets and queues say the same.
    pub closed spec fn wf(&self) -> bool {
        &&& self.senders.wf()
        &&& self.receivers.wf()
        &&& self.contexts@.states.len() == self.packets@.len()
        &&& self.packets@.len() >= RESERVED
        &&& forall|i: int|
            0 <= i < RESERVED ==> (#[trigger] self.contexts@.states[i]).busy
        &&& forall|z: usize| #[trigger] self.at(z)
        &&& entries_ok(self.inner.senders@)
        &&& entries_ok(self.inner.receivers@)
        &&& self@.wf()
    }

    /// What holds of every channel is true of what it is seen as, and no more tasks wait than there
    /// is room for.
    pub proof fn lemma_wf(&self)
        requires
            self.wf(),
        ensures
            self@.wf(),
            self@.senders.queue.len() <= MAX_WAITING_TASKS,
            self@.receivers.queue.len() <= MAX_WAITING_TASKS,
            forall|z: usize| #[trigger] self@.places.dom().contains(z) ==> z > 0,
    {
        self.senders.lemma_room();
        self.receivers.lemma_room();
        assert forall|z: usize| #[trigger] self@.places.dom().contains(z) implies z > 0 by {
            assert(self.at(z));
        }
    }

    /// Constructs a new zero-capacity channel.
    pub fn new() -> (chan: Self)
        ensures
            chan.wf(),
            chan@ == Rendezvous::<T>::initial(),
    {
        let mut packets: Vec<Option<Packet<T>>> = Vec::new();
        while packets.len() < RESERVED
            invariant
                packets@.len() <= RESERVED,
            decreases RESERVED - packets.len(),
        {
            packets.push(None);
        }
        Channel {
            inner: Inner {
                senders: Waker::new(),
                receivers: Waker::new(),
                is_disconnected: false,
            },
            contexts: Contexts::new(),
            packets,
            senders: AtomicSerialWaker::new(),
            receivers: AtomicSerialWaker::new(),
            first: true,
            places: Ghost(Map::empty()),
        }
    }

    /// Looking for an entry that can be selected is looking for another thread's operation.
    proof fn lemma_first(&self, entries: Seq<Entry>, thread: u64, from: int)
        requires
            self.wf(),
            entries == self.inner.senders@ || entries == self.inner.receivers@,
            0 <= from <= entries.len(),
        ensures
            known(entries, self.contexts@),
            first_selectable(entries, self.contexts@, thread, from) == if self@.closed {
                entries.len() as int
            } else {
                first_other(self@.places, places_of(entries), thread, from)
            },
        decreases entries.len() - from,
    {
        assert forall|i: int| 0 <= i < entries.len() implies (#[trigger] entries[i]).cx.place
            < self.contexts@.states.len() by {
            assert(places_of(entries)[i] == entries[i].packet);
            assert(self.at(entries[i].packet));
        }
        if from < entries.len() {
            assert(places_of(entries)[from] == entries[from].packet);
            assert(self.at(entries[from].packet));
            self.lemma_first(entries, thread, from + 1);
        }
    }

    /// Pairs up with a waiting receiver, if there is one: its packet is to be written to.
    pub fn select_receiver(&mut self, thread: u64) -> (zero: Option<Zero>)
        requires
            old(self).wf(),
        ensures
            final(self).wf(),
            match old(self)@.receiver_for(thread) {
                Some(k) => {
                    &&& zero == Some(old(self)@.requests[k])
                    &&& final(self)@ == old(self)@.promise(k)
                },
                None => zero is None && final(self)@ == old(self)@,
            },
    {
        proof {
            self.lemma_first(self.inner.receivers@, thread, 0);
            lemma_first_selectable(self.inner.receivers@, self.contexts@, thread, 0);
        }
        match self.inner.receivers.try_select(&mut self.contexts, thread) {
            Some(entry) => {
                proof {
                    let k = old(self)@.receiver_for(thread)->Some_0;
                    let z = old(self)@.requests[k];
                    assert(old(self).at(z));
                    self.places@ = self.places@.insert(
                        z,
                        Place::Promised { thread: old(self)@.places[z].thread() },
                    );
                    lemma_remove(old(self)@.requests, k);
                    assert(self@.requests =~= old(self)@.requests.remove(k));
                    assert forall|y: usize| #[trigger] self.at(y) by {
                        assert(old(self).at(y));
                    }
                }
                Some(entry.packet)
            },
            None => {
                proof {
                    assert forall|y: usize| #[trigger] self.at(y) by {
                        assert(old(self).at(y));
                    }
                }
                None
            },
        }
    }

    /// Pairs up with a waiting sender, if there is one: its packet is to be read from.
    pub fn select_sender(&mut self, thread: u64) -> (zero: Option<Zero>)
        requires
            old(self).wf(),
        ensures
            final(self).wf(),
            match old(self)@.sender_for(thread) {
                Some(k) => {
                    &&& zero == Some(old(self)@.offers[k])
                    &&& final(self)@ == old(self)@.accept(k)
                },
                None => zero is None && final(self)@ == old(self)@,
            },
    {
        proof {
            self.lemma_first(self.inner.senders@, thread, 0);
            lemma_first_selectable(self.inner.senders@, self.contexts@, thread, 0);
        }
        match self.inner.senders.try_select(&mut self.contexts, thread) {
            Some(entry) => {
                proof {
                    let k = old(self)@.sender_for(thread)->Some_0;
                    let z = old(self)@.offers[k];
                    assert(old(self).at(z));
                    self.places@ = self.places@.insert(
                        z,
                        Place::Accepted {
                            thread: old(self)@.places[z].thread(),
                            msg: old(self)@.places[z]->Offering_msg,
                        },
                    );
                    lemma_remove(old(self)@.offers, k);
                    assert(self@.offers =~= old(self)@.offers.remove(k));
                    assert forall|y: usize| #[trigger] self.at(y) by {
                        assert(old(self).at(y));
                    }
                }
                Some(entry.packet)
            },
            None => {
                proof {
                    assert forall|y: usize| #[trigger] self.at(y) by {
                        assert(old(self).at(y));
                    }
                }
                None
            },
        }
    }

    /// Writes a message into the packet.
    pub fn write(&mut self, zero: &mut Zero, msg: T) -> (res: Result<(), T>)
        requires
            old(self).wf(),
            *old(zero) != 0 ==> old(self)@.places.dom().contains(*old(zero)) && old(
                self,
            )@.places[*old(zero)] is Promised,
        ensures
            final(self).wf(),
            *final(zero) == *old(zero),
            *old(zero) == 0 ==> res == Err::<(), T>(msg) && final(self)@ == old(self)@,
            *old(zero) != 0 ==> res is Ok && final(self)@ == old(self)@.give(*old(zero), msg),
    {
        // If there is no packet, the channel is disconnected.
        if *zero == 0 {
            return Err(msg);
        }
        proof {
            assert(self.at(*zero));
        }
        self.receivers.wake();
        self.packets.set(*zero, Some(Packet { ready: true, msg: Some(msg) }));
        proof {
            let thread = self.places@[*zero].thread();
            self.places@ = self.places@.insert(*zero, Place::Given { thread, msg });
            assert forall|y: usize| #[trigger] self.at(y) by {
                assert(old(self).at(y));
            }
        }
        Ok(())
    }

    /// Reads a message from the packet.
    pub fn read(&mut self, zero: &mut Zero) -> (res: Result<T, ()>)
        requires
            old(self).wf(),
            *old(zero) != 0 ==> old(self)@.places.dom().contains(*old(zero)) && old(
                self,
            )@.places[*old(zero)] is Accepted,
        ensures
            final(self).wf(),
            *final(zero) == *old(zero),
            *old(zero) == 0 ==> res is Err && final(self)@ == old(self)@,
            *old(zero) != 0 ==> {
                &&& res == Ok::<T, ()>(old(self)@.places[*old(zero)]->Accepted_msg)
                &&& final(self)@ == old(self)@.take(*old(zero))
            },
    {
        // If there is no packet, the channel is disconnected.
        if *zero == 0 {
            return Err(());
        }
        proof {
            assert(self.at(*zero));
        }
        self.senders.wake();
        // The message has been in the packet from the beginning, so there is no need to wait for
        // it. However, after reading the message, we need to set `ready` to true in order to
        // signal that the packet can be destroyed.
        let mut packet = Some(Packet { ready: true, msg: None });
        std::mem::swap(&mut self.packets[*zero], &mut packet);
        proof {
            let thread = self.places@[*zero].thread();
            self.places@ = self.places@.insert(*zero, Place::Taken { thread });
            assert forall|y: usize| #[trigger] self.at(y) by {
                assert(old(self).at(y));
            }
        }
        match packet {
            Some(Packet { ready, msg: Some(msg) }) => Ok(msg),
            _ => Err(()),
        }
    }

    /// Attempts to send a message into the channel.
    pub fn try_send(&mut self, msg: T, thread: u64) -> (res: Result<(), TrySendError<T>>)
        requires
            old(self).wf(),
        ensures
            final(self).wf(),
            final(self)@ == old(self)@.after_try_send(msg, thread),
            res == old(self)@.try_send_result(msg, thread),
    {
        // If there's a waiting receiver, pair up with it.
        if let Some(packet) = self.select_receiver(thread) {
            let mut zero = packet;
            proof {
                assert(self.at(zero));
            }
            match self.write(&mut zero, msg) {
                Ok(()) => Ok(()),
                Err(value) => Err(TrySendError { kind: ErrorKind::Closed, value }),
            }
        } else if self.inner.is_disconnected {
            Err(TrySendError { kind: ErrorKind::Closed, value: msg })
        } else {
            Err(TrySendError { kind: ErrorKind::NoCapacity, value: msg })
        }
    }

    /// Sends a message into the channel, by the thread `thread`.
    ///
    /// Where no receiver waits, the thread has to block, and to go on with `resume_send`.
    pub fn _send(&mut self, msg: T, thread: u64) -> (res: Blocking<
        Result<(), SendTimeoutError<T>>,
    >)
        requires
            old(self).wf(),
        ensures
            final(self).wf(),
            old(self)@.sends(msg, thread, final(self)@, res),
    {
        // If there's a waiting receiver, pair up with it.
        if let Some(packet) = self.select_receiver(thread) {
            let mut zero = packet;
            proof {
                assert(self.at(zero));
            }
            return match self.write(&mut zero, msg) {
                Ok(()) => Blocking::Ready(Ok(())),
                Err(msg) => Blocking::Ready(Err(SendTimeoutError::Disconnected(msg))),
            };
        }
        if self.inner.is_disconnected {
            return Blocking::Ready(Err(SendTimeoutError::Disconnected(msg)));
        }
        // Prepare for blocking until a receiver wakes us up.

        let ghost before = *self;
        let cx = self.contexts.enter(thread);
        let packet = Packet::<T>::message_on_stack(msg);
        self.put_packet(cx.place, packet);
        let oper = Operation::hook(cx.place);
        self.inner.senders.register_with_packet(oper, cx.place, cx);
        self.receivers.wake();
        proof {
            let z = cx.place;
            assert(before.at(z));
            self.places@ = self.places@.insert(z, Place::Offering { thread, msg });
            assert(self@.offers =~= before@.offers.push(z));
            lemma_push(before@.offers, z);
            assert forall|y: usize| #[trigger] self.at(y) by {
                assert(before.at(y));
            }
        }
        Blocking::Parked(cx.place)
    }

    /// Puts the packet of an operation that begins to wait in its place.
    fn put_packet(&mut self, place: usize, packet: Packet<T>)
        requires
            place <= old(self).packets@.len(),
        ensures
            *final(self) == (Channel { packets: final(self).packets, ..*old(self) }),
            final(self).packets@ == if place == old(self).packets@.len() {
                old(self).packets@.push(Some(packet))
            } else {
                old(self).packets@.update(place as int, Some(packet))
            },
    {
        if place == self.packets.len() {
            self.packets.push(Some(packet));
        } else {
            self.packets.set(place, Some(packet));
        }
    }

    /// Goes on with a send that waits at the place, when its thread has been unparked.
    pub fn resume_send(&mut self, zero: Zero) -> (res: Blocking<Result<(), SendTimeoutError<T>>>)
        requires
            old(self).wf(),
            old(self)@.places.dom().contains(zero),
            old(self)@.places[zero].is_send(),
        ensures
            final(self).wf(),
            res == old(self)@.send_outcome(zero),
            final(self)@ == old(self)@.after_resume_send(zero),
    {
        proof {
            assert(self.at(zero));
        }
        let cx = Context { place: zero };
        match self.contexts.selected(cx) {
            Selected::Waiting | Selected::Aborted => Blocking::Parked(zero),
            Selected::Disconnected => {
                proof {
                    self.lemma_entry(self.inner.senders@, zero);
                }
                let _ = self.inner.senders.unregister(Operation::hook(zero));
                let packet = self.take_packet(zero);
                proof {
                    self.lemma_left(old(self), zero);
                }
                match packet {
                    Some(Packet { ready, msg: Some(msg) }) => Blocking::Ready(
                        Err(SendTimeoutError::Disconnected(msg)),
                    ),
                    _ => Blocking::Parked(zero),
                }
            },
            Selected::Operation(_) => {
                // Wait until the message is read, then drop the packet.
                if self.is_ready(zero) {
                    let _ = self.take_packet(zero);
                    proof {
                        self.lemma_left(old(self), zero);
                    }
                    Blocking::Ready(Ok(()))
                } else {
                    Blocking::Parked(zero)
                }
            },
        }
    }

    /// Whether the packet is ready for reading or writing.
    fn is_ready(&self, place: usize) -> (ready: bool)
        requires
            place < self.packets@.len(),
        ensures
            ready == (self.packets@[place as int] matches Some(packet) && packet.ready),
    {
        match &self.packets[place] {
            Some(packet) => packet.ready,
            None => false,
        }
    }

    /// Gives the place up, and takes the packet out of it.
    fn take_packet(&mut self, place: usize) -> (packet: Option<Packet<T>>)
        requires
            place < old(self).packets@.len(),
            place < old(self).contexts@.states.len(),
        ensures
            packet == old(self).packets@[place as int],
            final(self).packets@ == old(self).packets@.update(place as int, None),
            final(self).contexts@ == old(self).contexts@.leave(place as int),
            final(self).places@ == old(self).places@.remove(place),
            *final(self) == (Channel {
                packets: final(self).packets,
                contexts: final(self).contexts,
                places: final(self).places,
                ..*old(self)
            }),
    {
        let mut packet: Option<Packet<T>> = None;
        std::mem::swap(&mut self.packets[place], &mut packet);
        self.contexts.leave(Context { place });
        proof {
            self.places@ = self.places@.remove(place);
        }
        packet
    }

    /// The entry of an operation that waits is found by its number.
    proof fn lemma_entry(&self, entries: Seq<Entry>, z: usize)
        requires
            self.wf(),
            entries == self.inner.senders@ || entries == self.inner.receivers@,
            places_of(entries).contains(z),
        ensures
            ({
                let k = first_of(entries, Operation(z), 0);
                &&& 0 <= k < entries.len()
                &&& places_of(entries).index_of(z) == k
                &&& places_of(entries.remove(k)) == places_of(entries).remove(k)
            }),
    {
        let queue = places_of(entries);
        let k = first_of(entries, Operation(z), 0);
        lemma_first_of(entries, Operation(z), 0);
        let i = queue.index_of(z);
        assert(queue[i] == z && 0 <= i < queue.len());
        assert(entries[i] == entry_at(entries[i].packet));
        assert(k <= i);
        assert(entries[k] == entry_at(entries[k].packet));
        assert(queue[k] == z);
        assert(places_of(entries.remove(k)) =~= queue.remove(k));
    }

    /// The channel is as it should be after the operation at a place is over.
    proof fn lemma_left(&self, before: &Channel<T>, z: usize)
        requires
            before.wf(),
            before@.places.dom().contains(z),
            self.packets@ == before.packets@.update(z as int, None),
            self.contexts@ == before.contexts@.leave(z as int),
            self.places@ == before.places@.remove(z),
            entries_ok(self.inner.senders@),
            entries_ok(self.inner.receivers@),
            self.inner.is_disconnected == before.inner.is_disconnected,
            self.senders == before.senders,
            self.receivers == before.receivers,
            self.first == before.first,
            self@.offers == before@.leave(z).offers,
            self@.requests == before@.leave(z).requests,
        ensures
            self.wf(),
            self@ == before@.leave(z),
    {
        assert(before.at(z));
        let place = before@.places[z];
        if place is Offering {
            lemma_remove(before@.offers, before@.offers.index_of(z));
        }
        if place is Asking {
            lemma_remove(before@.requests, before@.requests.index_of(z));
        }
        assert forall|y: usize| #[trigger] self.at(y) by {
            assert(before.at(y));
        }
        assert forall|i: int| 0 <= i < self@.offers.len() implies self@.places.dom().contains(
            #[trigger] self@.offers[i],
        ) && self@.places[self@.offers[i]] is Offering by {
            assert(self@.offers.contains(self@.offers[i]));
            assert(before@.offers.contains(self@.offers[i]));
        }
        assert forall|i: int| 0 <= i < self@.requests.len() implies self@.places.dom().contains(
            #[trigger] self@.requests[i],
        ) && self@.places[self@.requests[i]] is Asking by {
            assert(self@.requests.contains(self@.requests[i]));
            assert(before@.requests.contains(self@.requests[i]));
        }
    }

    /// Attempts to receive a message without blocking.
    pub fn try_recv(&mut self, thread: u64) -> (res: Result<T, TryRecvError>)
        requires
            old(self).wf(),
        ensures
            final(self).wf(),
            final(self)@ == old(self)@.after_try_recv(thread),
            res == old(self)@.try_recv_result(thread),
    {
        // If there's a waiting sender, pair up with it.
        if let Some(packet) = self.select_sender(thread) {
            let mut zero = packet;
            proof {
                assert(self.at(zero));
            }
            match self.read(&mut zero) {
                Ok(msg) => Ok(msg),
                Err(()) => Err(TryRecvError::Disconnected),
            }
        } else if self.inner.is_disconnected {
            Err(TryRecvError::Disconnected)
        } else {
            Err(TryRecvError::Empty)
        }
    }

    /// Receives a message, by the thread `thread`.
    ///
    /// Where no sender waits, the thread has to block, and to go on with `resume_recv`.
    pub fn recv(&mut self, thread: u64) -> (res: Blocking<Result<T, RecvTimeoutError>>)
        requires
            old(self).wf(),
        ensures
            final(self).wf(),
            old(self)@.receives(thread, final(self)@, res),
    {
        // If there's a waiting sender, pair up with it.
        if let Some(packet) = self.select_sender(thread) {
            let mut zero = packet;
            proof {
                assert(self.at(zero));
            }
            return match self.read(&mut zero) {
                Ok(msg) => Blocking::Ready(Ok(msg)),
                Err(()) => Blocking::Ready(Err(RecvTimeoutError::Disconnected)),
            };
        }
        if self.inner.is_disconnected {
            return Blocking::Ready(Err(RecvTimeoutError::Disconnected));
        }
        // Prepare for blocking until a sender wakes us up.

        let ghost before = *self;
        let cx = self.contexts.enter(thread);
        let packet = Packet::<T>::empty_on_stack();
        self.put_packet(cx.place, packet);
        let oper = Operation::hook(cx.place);
        self.inner.receivers.register_with_packet(oper, cx.place, cx);
        self.senders.wake();
        proof {
            let z = cx.place;
            assert(before.at(z));
            self.places@ = self.places@.insert(z, Place::Asking { thread });
            assert(self@.requests =~= before@.requests.push(z));
            lemma_push(before@.requests, z);
            assert forall|y: usize| #[trigger] self.at(y) by {
                assert(before.at(y));
            }
        }
        Blocking::Parked(cx.place)
    }

    /// Goes on with a receive that waits at the place, when its thread has been unparked.
    pub fn resume_recv(&mut self, zero: Zero) -> (res: Blocking<Result<T, RecvTimeoutError>>)
        requires
            old(self).wf(),
            old(self)@.places.dom().contains(zero),
            !old(self)@.places[zero].is_send(),
        ensures
            final(self).wf(),
            res == old(self)@.recv_outcome(zero),
            final(self)@ == old(self)@.after_resume_recv(zero),
    {
        proof {
            assert(self.at(zero));
        }
        let cx = Context { place: zero };
        match self.contexts.selected(cx) {
            Selected::Waiting | Selected::Aborted => Blocking::Parked(zero),
            Selected::Disconnected => {
                proof {
                    self.lemma_entry(self.inner.receivers@, zero);
                }
                let _ = self.inner.receivers.unregister(Operation::hook(zero));
                let _ = self.take_packet(zero);
                proof {
                    self.lemma_left(old(self), zero);
                }
                Blocking::Ready(Err(RecvTimeoutError::Disconnected))
            },
            Selected::Operation(_) => {
                // Wait until the message is provided, then read it.
                if self.is_ready(zero) {
                    let packet = self.take_packet(zero);
                    proof {
                        self.lemma_left(old(self), zero);
                    }
                    match packet {
                        Some(Packet { ready, msg: Some(msg) }) => Blocking::Ready(Ok(msg)),
                        _ => Blocking::Parked(zero),
                    }
                } else {
                    Blocking::Parked(zero)
                }
            },
        }
    }

    /// Returns the number of messages inside the channel, which holds none.
    pub fn len(&self) -> (len: usize)
        ensures
            len == 0,
    {
        0
    }

    /// Returns the capacity of the channel.
    pub fn capacity(&self) -> (cap: Option<usize>)
        ensures
            cap == Some(0usize),
    {
        Some(0)
    }

    /// Returns `true`: the channel is always empty.
    pub fn is_empty(&self) -> (empty: bool)
        ensures
            empty,
    {
        true
    }

    /// Returns `true`: the channel is always full.
    pub fn is_full(&self) -> (full: bool)
        ensures
            full,
    {
        true
    }

    /// Whether a poll by the thread would have its task wait.
    pub fn poll_registers(&self, thread: u64) -> (registers: bool)
        requires
            self.wf(),
        ensures
            registers == self@.poll_registers(thread),
    {
        proof {
            self.lemma_first(self.inner.senders@, thread, 0);
            lemma_first_selectable(self.inner.senders@, self.contexts@, thread, 0);
        }
        !self.inner.senders.can_select(&self.contexts, thread) && !self.inner.is_disconnected && (
        self.first || self.receivers.to_answer())
    }

    /// Whether a send into the sink by the thread would have its task wait.
    pub fn sink_registers(&self, thread: u64) -> (registers: bool)
        requires
            self.wf(),
        ensures
            registers == self@.sink_registers(thread),
    {
        proof {
            self.lemma_first(self.inner.receivers@, thread, 0);
            lemma_first_selectable(self.inner.receivers@, self.contexts@, thread, 0);
        }
        !self.inner.receivers.can_select(&self.contexts, thread) && !self.inner.is_disconnected
    }

    /// Receives a message as a stream does, by the thread `thread` that runs the task `task`.
    ///
    /// Where no sender waits, the thread has to block, and to go on with `resume_poll`.
    pub fn poll(&mut self, thread: u64, task: u64) -> (res: Blocking<Async<Option<T>>>)
        requires
            old(self).wf(),
        ensures
            final(self).wf(),
            old(self)@.polls(thread, task, final(self)@, res),
    {
        match self.try_recv(thread) {
            Ok(msg) => return Blocking::Ready(Async::Ready(Some(msg))),
            Err(TryRecvError::Disconnected) => return Blocking::Ready(Async::Ready(None)),
            Err(TryRecvError::Empty) => {},
        }
        let ghost before = *self;
        if self.first {
            self.first = false;
            self.receivers.register(task);
            proof {
                self.lemma_kept(&before);
            }
            poll_outcome(self.recv(thread))
        } else if self.receivers.answer() {
            self.receivers.register(task);
            proof {
                self.lemma_kept(&before);
            }
            poll_outcome(self.recv(thread))
        } else {
            proof {
                self.lemma_kept(&before);
            }
            Blocking::Ready(Async::NotReady)
        }
    }

    /// Goes on with a poll that waits at the place, when its thread has been unparked.
    pub fn resume_poll(&mut self, zero: Zero) -> (res: Blocking<Async<Option<T>>>)
        requires
            old(self).wf(),
            old(self)@.places.dom().contains(zero),
            !old(self)@.places[zero].is_send(),
        ensures
            final(self).wf(),
            res == polled(old(self)@.recv_outcome(zero)),
            final(self)@ == old(self)@.after_resume_recv(zero),
    {
        poll_outcome(self.resume_recv(zero))
    }

    /// Sends an item into the channel as into a sink, by the thread `thread` that runs the task
    /// `task`.
    ///
    /// Where no receiver waits, the thread has to block, and to go on with `resume_sink`.
    pub fn sink_start_send(&mut self, item: T, thread: u64, task: u64) -> (res: Blocking<
        Result<AsyncSink<T>, SendError>,
    >)
        requires
            old(self).wf(),
        ensures
            final(self).wf(),
            old(self)@.sinks(item, thread, task, final(self)@, res),
    {
        match self.try_send(item, thread) {
            Ok(()) => Blocking::Ready(Ok(AsyncSink::Ready)),
            Err(e) => {
                if e.is_closed() {
                    Blocking::Ready(Err(SendError))
                } else {
                    let ghost before = *self;
                    self.senders.register(task);
                    proof {
                        self.lemma_kept(&before);
                    }
                    sink_outcome(self._send(e.into_inner(), thread))
                }
            },
        }
    }

    /// Goes on with a send into the sink that waits at the place, when its thread has been
    /// unparked.
    pub fn resume_sink(&mut self, zero: Zero) -> (res: Blocking<Result<AsyncSink<T>, SendError>>)
        requires
            old(self).wf(),
            old(self)@.places.dom().contains(zero),
            old(self)@.places[zero].is_send(),
        ensures
            final(self).wf(),
            res == sunk(old(self)@.send_outcome(zero)),
            final(self)@ == old(self)@.after_resume_send(zero),
    {
        sink_outcome(self.resume_send(zero))
    }

    /// There is never anything left to be flushed.
    pub fn poll_complete(&mut self) -> (res: Result<Async<()>, SendError>)
        ensures
            *final(self) == *old(self),
            res is Ok,
            res->Ok_0 == Async::Ready(()),
    {
        Ok(Async::Ready(()))
    }

    /// The tasks that the channel has notified: first the senders, then the receivers.
    pub fn take_notified(&mut self) -> (tasks: Vec<u64>)
        requires
            old(self).wf(),
        ensures
            final(self).wf(),
            tasks@ == old(self)@.senders.notified + old(self)@.receivers.notified,
            final(self)@ == old(self)@.after_take_notified(),
    {
        let mut tasks = self.senders.take_notified();
        let mut receivers = self.receivers.take_notified();
        tasks.append(&mut receivers);
        proof {
            self.lemma_kept(old(self));
        }
        tasks
    }

    /// The threads that the channel has unparked.
    pub fn take_unparked(&mut self) -> (threads: Vec<u64>)
        requires
            old(self).wf(),
        ensures
            final(self).wf(),
            threads@ == old(self)@.unparked,
            final(self)@ == old(self)@.after_take_unparked(),
    {
        let threads = self.contexts.take_unparked();
        proof {
            self.lemma_kept(old(self));
        }
        threads
    }

    /// The channel is as it should be where nothing but the waiting tasks has changed.
    proof fn lemma_kept(&self, before: &Channel<T>)
        requires
            before.wf(),
            self.inner == before.inner,
            self.contexts@.states == before.contexts@.states,
            self.packets == before.packets,
            self.places == before.places,
            self.senders.wf(),
            self.receivers.wf(),
        ensures
            self.wf(),
    {
        assert forall|y: usize| #[trigger] self.at(y) by {
            assert(before.at(y));
        }
    }

    /// The entries of the queue are distinct, and wait while the channel is open.
    proof fn lemma_waiting(&self, entries: Seq<Entry>)
        requires
            self.wf(),
            entries == self.inner.senders@ || entries == self.inner.receivers@,
        ensures
            known(entries, self.contexts@),
            forall|i: int|
                0 <= i < entries.len() ==> {
                    let place = (#[trigger] entries[i]).cx.place;
                    &&& place == places_of(entries)[i]
                    &&& self.contexts@.states[place as int].thread_id
                        == self@.places[place].thread()
                    &&& !self@.closed ==> self.contexts@.states[place as int].select is Waiting
                },
            forall|i: int, j: int|
                #![trigger entries[i], entries[j]]
                0 <= i < j < entries.len() ==> entries[i].cx.place != entries[j].cx.place,
    {
        let queue = places_of(entries);
        assert forall|i: int| 0 <= i < entries.len() implies {
            let place = (#[trigger] entries[i]).cx.place;
            &&& place == queue[i]
            &&& place < self.contexts@.states.len()
            &&& self.contexts@.states[place as int].thread_id == self@.places[place].thread()
            &&& !self@.closed ==> self.contexts@.states[place as int].select is Waiting
        } by {
            assert(queue[i] == entries[i].packet);
            assert(self.at(entries[i].packet));
        }
        assert forall|i: int, j: int|
            #![trigger entries[i], entries[j]]
            0 <= i < j < entries.len() implies entries[i].cx.place != entries[j].cx.place by {
            assert(queue[i] != queue[j]);
        }
    }
}

/// What a receive comes to as the poll of a stream.
pub open spec fn polled<T>(res: Blocking<Result<T, RecvTimeoutError>>) -> Blocking<
    Async<Option<T>>,
> {
    match res {
        Blocking::Ready(Ok(msg)) => Blocking::Ready(Async::Ready(Some(msg))),
        Blocking::Ready(Err(RecvTimeoutError::Timeout)) => Blocking::Ready(Async::NotReady),
        Blocking::Ready(Err(RecvTimeoutError::Disconnected)) => Blocking::Ready(
            Async::Ready(None),
        ),
        Blocking::Parked(zero) => Blocking::Parked(zero),
    }
}

/// What a receive comes to as the poll of a stream.
fn poll_outcome<T>(res: Blocking<Result<T, RecvTimeoutError>>) -> (poll: Blocking<
    Async<Option<T>>,
>)
    ensures
        poll == polled(res),
{
    match res {
        Blocking::Ready(Ok(msg)) => Blocking::Ready(Async::Ready(Some(msg))),
        Blocking::Ready(Err(RecvTimeoutError::Timeout)) => Blocking::Ready(Async::NotReady),
        Blocking::Ready(Err(_)) => Blocking::Ready(Async::Ready(None)),
        Blocking::Parked(zero) => Blocking::Parked(zero),
    }
}

/// What a send comes to as a send into a sink.
pub open spec fn sunk<T>(res: Blocking<Result<(), SendTimeoutError<T>>>) -> Blocking<
    Result<AsyncSink<T>, SendError>,
> {
    match res {
        Blocking::Ready(Ok(_)) => Blocking::Ready(Ok(AsyncSink::Ready)),
        Blocking::Ready(Err(_)) => Blocking::Ready(Err(SendError)),
        Blocking::Parked(zero) => Blocking::Parked(zero),
    }
}

/// What a send comes to as a send into a sink.
fn sink_outcome<T>(res: Blocking<Result<(), SendTimeoutError<T>>>) -> (sink: Blocking<
    Result<AsyncSink<T>, SendError>,
>)
    ensures
        sink == sunk(res),
{
    match res {
        Blocking::Ready(Ok(())) => Blocking::Ready(Ok(AsyncSink::Ready)),
        Blocking::Ready(Err(_)) => Blocking::Ready(Err(SendError)),
        Blocking::Parked(zero) => Blocking::Parked(zero),
    }
}

/// Telling distinct entries that wait that the channel is disconnected tells each of them once.
proof fn lemma_disconnect(entries: Seq<Entry>, contexts: Blocked, count: nat)
    requires
        known(entries, contexts),
        count <= entries.len(),
        forall|i: int|
            0 <= i < entries.len() ==> contexts.states[(
            #[trigger] entries[i]).cx.place as int].select is Waiting,
        forall|i: int, j: int|
            #![trigger entries[i], entries[j]]
            0 <= i < j < entries.len() ==> entries[i].cx.place != entries[j].cx.place,
    ensures
        ({
            let after = after_disconnect(entries, contexts, count);
            &&& after.states.len() == contexts.states.len()
            &&& forall|i: int|
                0 <= i < count ==> after.states[(#[trigger] entries[i]).cx.place as int] == (State {
                    select: Selected::Disconnected,
                    ..contexts.states[entries[i].cx.place as int]
                })
            &&& forall|z: int|
                0 <= z < contexts.states.len() && (forall|i: int|
                    0 <= i < count ==> (#[trigger] entries[i]).cx.place != z)
                    ==> #[trigger] after.states[z] == contexts.states[z]
            &&& after.unparked == contexts.unparked + Seq::new(
                count,
                |i: int| contexts.states[entries[i].cx.place as int].thread_id,
            )
        }),
    decreases count,
{
    let after = after_disconnect(entries, contexts, count);
    if count > 0 {
        let rest = (count - 1) as nat;
        lemma_disconnect(entries, contexts, rest);
        let before = after_disconnect(entries, contexts, rest);
        let place = entries[count - 1].cx.place as int;
        assert(before.states[place] == contexts.states[place]);
        assert(after.unparked =~= contexts.unparked + Seq::new(
            count,
            |i: int| contexts.states[entries[i].cx.place as int].thread_id,
        ));
    } else {
        assert(after.unparked =~= contexts.unparked + Seq::new(
            0,
            |i: int| contexts.states[entries[i].cx.place as int].thread_id,
        ));
    }
}

impl<T> Default for Channel<T> {
    fn default() -> (chan: Self)
        ensures
            chan.wf(),
            chan@ == Rendezvous::<T>::initial(),
    {
        Self::new()
    }
}

impl<T> Shutdown for Channel<T> {
    open spec fn inv(&self) -> bool {
        self.wf()
    }

    open spec fn at_rest(&self) -> bool {
        self@.settled()
    }

    open spec fn limit(&self) -> Option<nat> {
        Some(0)
    }

    open spec fn shut(&self) -> bool {
        self@.closed
    }

    open spec fn closes(&self, before: &Self) -> bool {
        self@ == before@.after_shutdown()
    }

    /// Closes the channel and unparks the threads that block on it.
    fn shutdown(&mut self) -> (closed: bool)
        ensures
            final(self)@ == old(self)@.after_shutdown(),
    {
        if !self.inner.is_disconnected {
            self.inner.is_disconnected = true;
            proof {
                old(self).lemma_waiting(old(self).inner.senders@);
                old(self).lemma_waiting(old(self).inner.receivers@);
                lemma_disconnect(
                    self.inner.senders@,
                    self.contexts@,
                    self.inner.senders@.len(),
                );
            }
            self.inner.senders.disconnect(&mut self.contexts);
            proof {
                let senders = self.inner.senders@;
                let receivers = self.inner.receivers@;
                assert forall|i: int| 0 <= i < receivers.len() implies self.contexts@.states[(
                #[trigger] receivers[i]).cx.place as int] == old(
                    self,
                ).contexts@.states[receivers[i].cx.place as int] by {
                    assert forall|j: int| 0 <= j < senders.len() implies (
                    #[trigger] senders[j]).cx.place != receivers[i].cx.place by {
                        assert(places_of(senders)[j] == senders[j].packet);
                        assert(places_of(receivers)[i] == receivers[i].packet);
                    }
                }
                lemma_disconnect(receivers, self.contexts@, receivers.len());
            }
            let ghost middle = *self;
            self.inner.receivers.disconnect(&mut self.contexts);
            proof {
                let senders = self.inner.senders@;
                let receivers = self.inner.receivers@;
                assert forall|y: usize| #[trigger] self.at(y) by {
                    assert(old(self).at(y));
                    if old(self)@.places.dom().contains(y) {
                        let place = old(self)@.places[y];
                        if place is Offering {
                            let i = places_of(senders).index_of(y);
                            assert(senders[i].cx.place == y);
                        }
                        if place is Asking {
                            let i = places_of(receivers).index_of(y);
                            assert(receivers[i].cx.place == y);
                        }
                    }
                    if !(old(self)@.places.dom().contains(y) && old(self)@.places[y] is Offering) {
                        assert forall|i: int| 0 <= i < senders.len() implies (
                        #[trigger] senders[i]).cx.place != y by {
                            assert(places_of(senders)[i] == senders[i].packet);
                        }
                    }
                    if !(old(self)@.places.dom().contains(y) && old(self)@.places[y] is Asking) {
                        assert forall|i: int| 0 <= i < receivers.len() implies (
                        #[trigger] receivers[i]).cx.place != y by {
                            assert(places_of(receivers)[i] == receivers[i].packet);
                        }
                    }
                }
                assert forall|z: int| 0 <= z < RESERVED implies (
                #[trigger] self.contexts@.states[z]).busy by {
                    assert(old(self).contexts@.states[z].busy);
                    assert forall|i: int| 0 <= i < senders.len() implies (
                    #[trigger] senders[i]).cx.place != z by {
                        assert(places_of(senders)[i] == senders[i].packet);
                        assert(old(self).at(senders[i].packet));
                    }
                    assert forall|i: int| 0 <= i < receivers.len() implies (
                    #[trigger] receivers[i]).cx.place != z by {
                        assert(places_of(receivers)[i] == receivers[i].packet);
                        assert(old(self).at(receivers[i].packet));
                    }
                    assert(middle.contexts@.states[z].busy);
                }
                assert(self@.unparked =~= old(self)@.after_shutdown().unparked);
            }
            true
        } else {
            false
        }
    }

    fn is_shutdown(&self) -> (shut: bool) {
        self.inner.is_disconnected
    }
}

/// What is in a queue, and nothing else but the new one, is in it after a push.
pub proof fn lemma_push(queue: Seq<usize>, z: usize)
    ensures
        queue.push(z).contains(z),
        forall|y: usize| queue.contains(y) ==> #[trigger] queue.push(z).contains(y),
        queue.no_duplicates() && !queue.contains(z) ==> queue.push(z).no_duplicates(),
{
    assert(queue.push(z)[queue.len() as int] == z);
    assert forall|y: usize| queue.contains(y) implies #[trigger] queue.push(z).contains(y) by {
        let i = queue.index_of(y);
        assert(queue.push(z)[i] == y);
    }
}

/// What is in a queue without duplicates is in it after another was removed.
pub proof fn lemma_remove(queue: Seq<usize>, k: int)
    requires
        queue.no_duplicates(),
        0 <= k < queue.len(),
    ensures
        queue.remove(k).no_duplicates(),
        !queue.remove(k).contains(queue[k]),
        forall|z: usize|
            z != queue[k] ==> #[trigger] queue.remove(k).contains(z) == queue.contains(z),
{
    let rest = queue.remove(k);
    assert forall|z: usize| z != queue[k] implies #[trigger] rest.contains(z) == queue.contains(
        z,
    ) by {
        if queue.contains(z) {
            let i = queue.index_of(z);
            assert(rest[if i < k {
                i
            } else {
                i - 1
            }] == z);
        }
        if rest.contains(z) {
            let i = rest.index_of(z);
            assert(queue[if i < k {
                i
            } else {
                i + 1
            }] == z);
        }
    }
}

} // verus!
