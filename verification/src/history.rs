//! What the calls on a channel of capacity zero come to, taken together.
//!
//! A history numbers the sends and the receives, each from its first call on. It keeps of every send
//! which receive it was paired up with, and the other way round, and what the call has returned.
//! Finding a partner and passing the message occur here together, as they do in `try_send` and
//! `try_recv`.
use crate::atomic_serial_waker::WaitingTasks;
use crate::error::{RecvTimeoutError, SendError, SendTimeoutError, TrySendError};
use crate::laws::TaskCall;
use crate::zero::{lemma_push, lemma_remove, polled, sunk, Blocking, Place, Rendezvous};
use futures::{Async, AsyncSink};
use std::sync::mpsc::TryRecvError;
use vstd::prelude::*;

verus! {

/// A call on the channel, with what it returned.
#[allow(inconsistent_fields)]
#[verifier::reject_recursive_types(T)]
pub enum Call<T> {
    /// `try_send`.
    TrySend { msg: T, thread: u64, res: Result<(), TrySendError<T>> },
    /// `_send`.
    Send { msg: T, thread: u64, res: Blocking<Result<(), SendTimeoutError<T>>> },
    /// `resume_send`.
    ResumeSend { zero: usize, res: Blocking<Result<(), SendTimeoutError<T>>> },
    /// `sink_start_send`.
    Sink { msg: T, thread: u64, task: u64, res: Blocking<Result<AsyncSink<T>, SendError>> },
    /// `resume_sink`.
    ResumeSink { zero: usize, res: Blocking<Result<AsyncSink<T>, SendError>> },
    /// `try_recv`.
    TryRecv { thread: u64, res: Result<T, TryRecvError> },
    /// `recv`.
    Recv { thread: u64, res: Blocking<Result<T, RecvTimeoutError>> },
    /// `resume_recv`.
    ResumeRecv { zero: usize, res: Blocking<Result<T, RecvTimeoutError>> },
    /// `poll`.
    Poll { thread: u64, task: u64, res: Blocking<Async<Option<T>>> },
    /// `resume_poll`.
    ResumePoll { zero: usize, res: Blocking<Async<Option<T>>> },
    /// `shutdown`.
    Shutdown,
    /// `take_notified`.
    TakeNotified,
    /// `take_unparked`.
    TakeUnparked,
}

impl<T> Rendezvous<T> {
    /// The call can be made on this channel, returns what it says, and leads to the channel `after`.
    pub open spec fn calls(self, call: Call<T>, after: Rendezvous<T>) -> bool {
        match call {
            Call::TrySend { msg, thread, res } => {
                &&& res == self.try_send_result(msg, thread)
                &&& after == self.after_try_send(msg, thread)
            },
            Call::Send { msg, thread, res } => self.sends(msg, thread, after, res),
            Call::ResumeSend { zero, res } => {
                &&& self.places.dom().contains(zero)
                &&& self.places[zero].is_send()
                &&& res == self.send_outcome(zero)
                &&& after == self.after_resume_send(zero)
            },
            Call::Sink { msg, thread, task, res } => self.sinks(msg, thread, task, after, res),
            Call::ResumeSink { zero, res } => {
                &&& self.places.dom().contains(zero)
                &&& self.places[zero].is_send()
                &&& res == sunk(self.send_outcome(zero))
                &&& after == self.after_resume_send(zero)
            },
            Call::TryRecv { thread, res } => {
                &&& res == self.try_recv_result(thread)
                &&& after == self.after_try_recv(thread)
            },
            Call::Recv { thread, res } => self.receives(thread, after, res),
            Call::ResumeRecv { zero, res } => {
                &&& self.places.dom().contains(zero)
                &&& !self.places[zero].is_send()
                &&& res == self.recv_outcome(zero)
                &&& after == self.after_resume_recv(zero)
            },
            Call::Poll { thread, task, res } => self.polls(thread, task, after, res),
            Call::ResumePoll { zero, res } => {
                &&& self.places.dom().contains(zero)
                &&& !self.places[zero].is_send()
                &&& res == polled(self.recv_outcome(zero))
                &&& after == self.after_resume_recv(zero)
            },
            Call::Shutdown => after == self.after_shutdown(),
            Call::TakeNotified => after == self.after_take_notified(),
            Call::TakeUnparked => after == self.after_take_unparked(),
        }
    }
}

/// What a send has come to.
pub enum Sent<T> {
    /// It waits at a place.
    Waits(usize),
    /// It has succeeded.
    Done,
    /// It has failed, and handed the message back.
    Back(T),
    /// It has failed, and the message is gone.
    Dropped,
}

/// What a receive has come to.
pub enum Got<T> {
    /// It waits at a place.
    Waits(usize),
    /// It has returned a message.
    Done(T),
    /// It has returned without a message.
    Nothing,
}

/// A send, from its first call on.
pub struct Sending<T> {
    /// The message.
    pub msg: T,
    /// What it has come to.
    pub end: Sent<T>,
    /// The receive that it was paired up with.
    pub to: Option<int>,
}

/// A receive, from its first call on.
pub struct Receiving<T> {
    /// What it has come to.
    pub end: Got<T>,
    /// The send that it was paired up with.
    pub from: Option<int>,
}

/// What `try_send` has come to.
pub open spec fn try_sent<T>(res: Result<(), TrySendError<T>>) -> Sent<T> {
    match res {
        Ok(_) => Sent::Done,
        Err(e) => Sent::Back(e.value),
    }
}

/// What `_send` has come to.
pub open spec fn sent<T>(res: Blocking<Result<(), SendTimeoutError<T>>>) -> Sent<T> {
    match res {
        Blocking::Ready(Ok(_)) => Sent::Done,
        Blocking::Ready(Err(SendTimeoutError::Disconnected(msg))) => Sent::Back(msg),
        Blocking::Ready(Err(SendTimeoutError::Timeout(msg))) => Sent::Back(msg),
        Blocking::Parked(zero) => Sent::Waits(zero),
    }
}

/// What `sink_start_send` has come to.
pub open spec fn sink_sent<T>(res: Blocking<Result<AsyncSink<T>, SendError>>) -> Sent<T> {
    match res {
        Blocking::Ready(Ok(AsyncSink::Ready)) => Sent::Done,
        Blocking::Ready(Ok(AsyncSink::NotReady(msg))) => Sent::Back(msg),
        Blocking::Ready(Err(_)) => Sent::Dropped,
        Blocking::Parked(zero) => Sent::Waits(zero),
    }
}

/// What `try_recv` has come to.
pub open spec fn try_got<T>(res: Result<T, TryRecvError>) -> Got<T> {
    match res {
        Ok(msg) => Got::Done(msg),
        Err(_) => Got::Nothing,
    }
}

/// What `recv` has come to.
pub open spec fn got<T>(res: Blocking<Result<T, RecvTimeoutError>>) -> Got<T> {
    match res {
        Blocking::Ready(Ok(msg)) => Got::Done(msg),
        Blocking::Ready(Err(_)) => Got::Nothing,
        Blocking::Parked(zero) => Got::Waits(zero),
    }
}

/// What `poll` has come to.
pub open spec fn poll_got<T>(res: Blocking<Async<Option<T>>>) -> Got<T> {
    match res {
        Blocking::Ready(Async::Ready(Some(msg))) => Got::Done(msg),
        Blocking::Ready(_) => Got::Nothing,
        Blocking::Parked(zero) => Got::Waits(zero),
    }
}

/// A channel, and all sends and receives that there have been on it.
pub struct History<T> {
    /// The channel.
    pub chan: Rendezvous<T>,
    /// The sends, in the order of their first calls.
    pub sends: Seq<Sending<T>>,
    /// The receives, in the order of their first calls.
    pub recvs: Seq<Receiving<T>>,
    /// Which send waits at a place.
    pub sending: Map<usize, int>,
    /// Which receive waits at a place.
    pub receiving: Map<usize, int>,
}

impl<T> History<T> {
    /// A new channel has no history.
    pub open spec fn initial() -> History<T> {
        History {
            chan: Rendezvous::initial(),
            sends: Seq::empty(),
            recvs: Seq::empty(),
            sending: Map::empty(),
            receiving: Map::empty(),
        }
    }

    /// A send begins, by the thread, and comes to `end` for now.
    pub open spec fn begin_send(self, msg: T, thread: u64, end: Sent<T>) -> History<T> {
        let i = self.sends.len() as int;
        let sending = match end {
            Sent::Waits(zero) => self.sending.insert(zero, i),
            _ => self.sending,
        };
        match self.chan.receiver_for(thread) {
            Some(k) => {
                let j = self.receiving[self.chan.requests[k]];
                History {
                    sends: self.sends.push(Sending { msg, end, to: Some(j) }),
                    recvs: self.recvs.update(j, Receiving { from: Some(i), ..self.recvs[j] }),
                    sending,
                    ..self
                }
            },
            None => History {
                sends: self.sends.push(Sending { msg, end, to: None }),
                sending,
                ..self
            },
        }
    }

    /// The send that waits at the place comes to `end`.
    pub open spec fn end_send(self, zero: usize, end: Sent<T>) -> History<T> {
        let i = self.sending[zero];
        History { sends: self.sends.update(i, Sending { end, ..self.sends[i] }), ..self }
    }

    /// A receive begins, by the thread, and comes to `end` for now.
    pub open spec fn begin_recv(self, thread: u64, end: Got<T>) -> History<T> {
        let j = self.recvs.len() as int;
        let receiving = match end {
            Got::Waits(zero) => self.receiving.insert(zero, j),
            _ => self.receiving,
        };
        match self.chan.sender_for(thread) {
            Some(k) => {
                let i = self.sending[self.chan.offers[k]];
                History {
                    recvs: self.recvs.push(Receiving { end, from: Some(i) }),
                    sends: self.sends.update(i, Sending { to: Some(j), ..self.sends[i] }),
                    receiving,
                    ..self
                }
            },
            None => History {
                recvs: self.recvs.push(Receiving { end, from: None }),
                receiving,
                ..self
            },
        }
    }

    /// The receive that waits at the place comes to `end`.
    pub open spec fn end_recv(self, zero: usize, end: Got<T>) -> History<T> {
        let j = self.receiving[zero];
        History { recvs: self.recvs.update(j, Receiving { end, ..self.recvs[j] }), ..self }
    }

    /// The history goes on with a call that leads to the channel `after`.
    pub open spec fn step(self, call: Call<T>, after: Rendezvous<T>) -> History<T> {
        let next = match call {
            Call::TrySend { msg, thread, res } => self.begin_send(msg, thread, try_sent(res)),
            Call::Send { msg, thread, res } => self.begin_send(msg, thread, sent(res)),
            Call::ResumeSend { zero, res } => self.end_send(zero, sent(res)),
            Call::Sink { msg, thread, task, res } => self.begin_send(msg, thread, sink_sent(res)),
            Call::ResumeSink { zero, res } => self.end_send(zero, sink_sent(res)),
            Call::TryRecv { thread, res } => self.begin_recv(thread, try_got(res)),
            Call::Recv { thread, res } => self.begin_recv(thread, got(res)),
            Call::ResumeRecv { zero, res } => self.end_recv(zero, got(res)),
            Call::Poll { thread, task, res } => self.begin_recv(thread, poll_got(res)),
            Call::ResumePoll { zero, res } => self.end_recv(zero, poll_got(res)),
            Call::Shutdown => self,
            Call::TakeNotified => self,
            Call::TakeUnparked => self,
        };
        History { chan: after, ..next }
    }

    /// The two are each other's partner: a send, and the receive that gets its message.
    pub open spec fn paired(self, i: int, j: int) -> bool {
        &&& 0 <= i < self.sends.len()
        &&& 0 <= j < self.recvs.len()
        &&& self.sends[i].to == Some(j)
        &&& self.recvs[j].from == Some(i)
    }

    /// The send has succeeded, or waits only to be told so.
    pub open spec fn succeeds(self, i: int) -> bool {
        match self.sends[i].end {
            Sent::Done => true,
            Sent::Waits(zero) => self.chan.send_outcome(zero) == Blocking::Ready(
                Ok::<(), SendTimeoutError<T>>(()),
            ),
            _ => false,
        }
    }

    /// The receive has returned the message, or waits only to be told it.
    pub open spec fn gets(self, j: int, msg: T) -> bool {
        match self.recvs[j].end {
            Got::Done(got) => got == msg,
            Got::Waits(zero) => self.chan.recv_outcome(zero) == Blocking::Ready(
                Ok::<T, RecvTimeoutError>(msg),
            ),
            Got::Nothing => false,
        }
    }

    /// What is known of the send `i`.
    spec fn send_ok(self, i: int) -> bool {
        let send = self.sends[i];
        &&& send.to matches Some(j) ==> self.paired(i, j) && self.gets(j, send.msg)
        &&& match send.end {
            Sent::Waits(zero) => {
                &&& self.chan.places.dom().contains(zero)
                &&& self.chan.places[zero].is_send()
                &&& self.sending[zero] == i
                &&& self.chan.places[zero] is Taken <==> send.to is Some
                &&& self.chan.places[zero] matches Place::Offering { thread, msg } ==> msg
                    == send.msg
            },
            Sent::Done => send.to is Some,
            Sent::Back(msg) => send.to is None && msg == send.msg,
            Sent::Dropped => send.to is None,
        }
    }

    /// What is known of the receive `j`.
    spec fn recv_ok(self, j: int) -> bool {
        let recv = self.recvs[j];
        &&& recv.from matches Some(i) ==> self.paired(i, j)
        &&& match recv.end {
            Got::Waits(zero) => {
                &&& self.chan.places.dom().contains(zero)
                &&& !self.chan.places[zero].is_send()
                &&& self.receiving[zero] == j
                &&& self.chan.places[zero] is Given <==> recv.from is Some
            },
            Got::Done(_) => recv.from is Some,
            Got::Nothing => recv.from is None,
        }
    }

    /// What is known of the operation at the place.
    spec fn place_ok(self, zero: usize) -> bool {
        if self.chan.places[zero].is_send() {
            &&& 0 <= self.sending[zero] < self.sends.len()
            &&& self.sends[self.sending[zero]].end == Sent::<T>::Waits(zero)
        } else {
            &&& 0 <= self.receiving[zero] < self.recvs.len()
            &&& self.recvs[self.receiving[zero]].end == Got::<T>::Waits(zero)
        }
    }

    /// What holds of every history.
    pub closed spec fn wf(self) -> bool {
        &&& self.chan.wf()
        &&& self.chan.settled()
        &&& forall|i: int| 0 <= i < self.sends.len() ==> #[trigger] self.send_ok(i)
        &&& forall|j: int| 0 <= j < self.recvs.len() ==> #[trigger] self.recv_ok(j)
        &&& forall|zero: usize| #[trigger]
            self.chan.places.dom().contains(zero) ==> self.place_ok(zero)
    }

    /// The channel has changed, but not what its operations are.
    proof fn lemma_same(self, after: Rendezvous<T>)
        requires
            self.wf(),
            after.places == self.chan.places,
            after.offers == self.chan.offers,
            after.requests == self.chan.requests,
            self.chan.closed ==> after.closed,
        ensures
            (History { chan: after, ..self }).wf(),
    {
        let next = History { chan: after, ..self };
        assert forall|i: int| 0 <= i < next.sends.len() implies #[trigger] next.send_ok(i) by {
            assert(self.send_ok(i));
            if let Some(j) = self.sends[i].to {
                assert(self.recv_ok(j));
            }
        }
        assert forall|j: int| 0 <= j < next.recvs.len() implies #[trigger] next.recv_ok(j) by {
            assert(self.recv_ok(j));
        }
        assert forall|z: usize| #[trigger] next.chan.places.dom().contains(
            z,
        ) implies next.place_ok(z) by {
            assert(self.place_ok(z));
        }
    }

    /// A send pairs up with a receive that waits.
    proof fn lemma_send_pairs(self, msg: T, thread: u64, after: Rendezvous<T>)
        requires
            self.wf(),
            self.chan.receiver_for(thread) is Some,
            after == self.chan.after_try_send(msg, thread),
        ensures
            (History { chan: after, ..self.begin_send(msg, thread, Sent::Done) }).wf(),
    {
        let next = History { chan: after, ..self.begin_send(msg, thread, Sent::Done) };
        self.chan.law_longest_wait_first(thread);
        let k = self.chan.receiver_for(thread)->Some_0;
        let z = self.chan.requests[k];
        assert(self.chan.places.dom().contains(z));
        assert(self.place_ok(z));
        let j = self.receiving[z];
        assert(self.recv_ok(j));
        lemma_remove(self.chan.requests, k);
        assert forall|i: int| 0 <= i < next.sends.len() implies #[trigger] next.send_ok(i) by {
            if i < self.sends.len() {
                assert(self.send_ok(i));
            }
        }
        assert forall|m: int| 0 <= m < next.recvs.len() implies #[trigger] next.recv_ok(m) by {
            assert(self.recv_ok(m));
        }
        assert forall|y: usize| #[trigger] next.chan.places.dom().contains(
            y,
        ) implies next.place_ok(y) by {
            assert(self.place_ok(y));
        }
    }

    /// A send fails at once.
    proof fn lemma_send_fails(self, msg: T, thread: u64, end: Sent<T>)
        requires
            self.wf(),
            self.chan.receiver_for(thread) is None,
            end == Sent::Back(msg) || end is Dropped,
        ensures
            self.begin_send(msg, thread, end).wf(),
    {
        let next = self.begin_send(msg, thread, end);
        assert forall|i: int| 0 <= i < next.sends.len() implies #[trigger] next.send_ok(i) by {
            if i < self.sends.len() {
                assert(self.send_ok(i));
            }
        }
        assert forall|m: int| 0 <= m < next.recvs.len() implies #[trigger] next.recv_ok(m) by {
            assert(self.recv_ok(m));
        }
        assert forall|y: usize| #[trigger] next.chan.places.dom().contains(
            y,
        ) implies next.place_ok(y) by {
            assert(self.place_ok(y));
        }
    }

    /// A send begins to wait.
    proof fn lemma_send_waits(self, msg: T, thread: u64, z: usize)
        requires
            self.wf(),
            self.chan.receiver_for(thread) is None,
            !self.chan.places.dom().contains(z),
        ensures
            (History {
                chan: self.chan.offer(z, thread, msg),
                ..self.begin_send(msg, thread, Sent::Waits(z))
            }).wf(),
    {
        let next = History {
            chan: self.chan.offer(z, thread, msg),
            ..self.begin_send(msg, thread, Sent::Waits(z))
        };
        lemma_push(self.chan.offers, z);
        assert forall|i: int| 0 <= i < next.sends.len() implies #[trigger] next.send_ok(i) by {
            if i < self.sends.len() {
                assert(self.send_ok(i));
                if let Some(j) = self.sends[i].to {
                    assert(self.recv_ok(j));
                }
            }
        }
        assert forall|m: int| 0 <= m < next.recvs.len() implies #[trigger] next.recv_ok(m) by {
            assert(self.recv_ok(m));
        }
        assert forall|y: usize| #[trigger] next.chan.places.dom().contains(
            y,
        ) implies next.place_ok(y) by {
            if y != z {
                assert(self.place_ok(y));
            }
        }
    }

    /// A send that waited is over.
    proof fn lemma_send_ends(self, z: usize, end: Sent<T>)
        requires
            self.wf(),
            self.chan.places.dom().contains(z),
            self.chan.places[z].is_send(),
            self.chan.send_over(z),
            match self.chan.places[z] {
                Place::Offering { thread, msg } => end == Sent::Back(msg) || end is Dropped,
                _ => end is Done,
            },
        ensures
            (History { chan: self.chan.leave(z), ..self.end_send(z, end) }).wf(),
    {
        let next = History { chan: self.chan.leave(z), ..self.end_send(z, end) };
        assert(self.place_ok(z));
        let n = self.sending[z];
        assert(self.send_ok(n));
        self.chan.lemma_leave(z);
        assert forall|i: int| 0 <= i < next.sends.len() implies #[trigger] next.send_ok(i) by {
            assert(self.send_ok(i));
            if let Some(j) = self.sends[i].to {
                assert(self.recv_ok(j));
            }
        }
        assert forall|m: int| 0 <= m < next.recvs.len() implies #[trigger] next.recv_ok(m) by {
            assert(self.recv_ok(m));
        }
        assert forall|y: usize| #[trigger] next.chan.places.dom().contains(
            y,
        ) implies next.place_ok(y) by {
            assert(self.place_ok(y));
        }
    }

    /// A receive pairs up with a send that waits.
    proof fn lemma_recv_pairs(self, thread: u64, after: Rendezvous<T>)
        requires
            self.wf(),
            self.chan.sender_for(thread) is Some,
            after == self.chan.after_try_recv(thread),
        ensures
            (History {
                chan: after,
                ..self.begin_recv(thread, try_got(self.chan.try_recv_result(thread)))
            }).wf(),
    {
        let next = History {
            chan: after,
            ..self.begin_recv(thread, try_got(self.chan.try_recv_result(thread)))
        };
        self.chan.law_longest_wait_first(thread);
        let k = self.chan.sender_for(thread)->Some_0;
        let z = self.chan.offers[k];
        assert(self.chan.places.dom().contains(z));
        assert(self.place_ok(z));
        let n = self.sending[z];
        assert(self.send_ok(n));
        lemma_remove(self.chan.offers, k);
        assert forall|i: int| 0 <= i < next.sends.len() implies #[trigger] next.send_ok(i) by {
            assert(self.send_ok(i));
            if let Some(j) = self.sends[i].to {
                assert(self.recv_ok(j));
            }
        }
        assert forall|m: int| 0 <= m < next.recvs.len() implies #[trigger] next.recv_ok(m) by {
            if m < self.recvs.len() {
                assert(self.recv_ok(m));
            }
        }
        assert forall|y: usize| #[trigger] next.chan.places.dom().contains(
            y,
        ) implies next.place_ok(y) by {
            assert(self.place_ok(y));
        }
    }

    /// A receive fails at once.
    proof fn lemma_recv_fails(self, thread: u64)
        requires
            self.wf(),
            self.chan.sender_for(thread) is None,
        ensures
            self.begin_recv(thread, Got::Nothing).wf(),
    {
        let next = self.begin_recv(thread, Got::Nothing);
        assert forall|i: int| 0 <= i < next.sends.len() implies #[trigger] next.send_ok(i) by {
            assert(self.send_ok(i));
        }
        assert forall|m: int| 0 <= m < next.recvs.len() implies #[trigger] next.recv_ok(m) by {
            if m < self.recvs.len() {
                assert(self.recv_ok(m));
            }
        }
        assert forall|y: usize| #[trigger] next.chan.places.dom().contains(
            y,
        ) implies next.place_ok(y) by {
            assert(self.place_ok(y));
        }
    }

    /// A receive begins to wait.
    proof fn lemma_recv_waits(self, thread: u64, z: usize)
        requires
            self.wf(),
            self.chan.sender_for(thread) is None,
            !self.chan.places.dom().contains(z),
        ensures
            (History {
                chan: self.chan.ask(z, thread),
                ..self.begin_recv(thread, Got::Waits(z))
            }).wf(),
    {
        let next = History {
            chan: self.chan.ask(z, thread),
            ..self.begin_recv(thread, Got::Waits(z))
        };
        lemma_push(self.chan.requests, z);
        assert forall|i: int| 0 <= i < next.sends.len() implies #[trigger] next.send_ok(i) by {
            assert(self.send_ok(i));
            if let Some(j) = self.sends[i].to {
                assert(self.recv_ok(j));
            }
        }
        assert forall|m: int| 0 <= m < next.recvs.len() implies #[trigger] next.recv_ok(m) by {
            if m < self.recvs.len() {
                assert(self.recv_ok(m));
            }
        }
        assert forall|y: usize| #[trigger] next.chan.places.dom().contains(
            y,
        ) implies next.place_ok(y) by {
            if y != z {
                assert(self.place_ok(y));
            }
        }
    }

    /// A receive that waited is over.
    proof fn lemma_recv_ends(self, z: usize, end: Got<T>)
        requires
            self.wf(),
            self.chan.places.dom().contains(z),
            !self.chan.places[z].is_send(),
            self.chan.recv_over(z),
            end == got(self.chan.recv_outcome(z)),
        ensures
            (History { chan: self.chan.leave(z), ..self.end_recv(z, end) }).wf(),
    {
        let next = History { chan: self.chan.leave(z), ..self.end_recv(z, end) };
        assert(self.place_ok(z));
        let n = self.receiving[z];
        assert(self.recv_ok(n));
        self.chan.lemma_leave(z);
        assert forall|i: int| 0 <= i < next.sends.len() implies #[trigger] next.send_ok(i) by {
            assert(self.send_ok(i));
            if let Some(j) = self.sends[i].to {
                assert(self.recv_ok(j));
            }
        }
        assert forall|m: int| 0 <= m < next.recvs.len() implies #[trigger] next.recv_ok(m) by {
            assert(self.recv_ok(m));
        }
        assert forall|y: usize| #[trigger] next.chan.places.dom().contains(
            y,
        ) implies next.place_ok(y) by {
            assert(self.place_ok(y));
        }
    }

    /// A call keeps what holds of a history.
    proof fn lemma_step(self, call: Call<T>, after: Rendezvous<T>)
        requires
            self.wf(),
            self.chan.calls(call, after),
        ensures
            self.step(call, after).wf(),
    {
        match call {
            Call::TrySend { msg, thread, res } => {
                if self.chan.receiver_for(thread) is Some {
                    self.lemma_send_pairs(msg, thread, after);
                } else {
                    self.lemma_send_fails(msg, thread, Sent::Back(msg));
                }
            },
            Call::Send { msg, thread, res } => {
                if self.chan.receiver_for(thread) is Some {
                    self.lemma_send_pairs(msg, thread, after);
                } else if self.chan.closed {
                    self.lemma_send_fails(msg, thread, Sent::Back(msg));
                } else {
                    self.lemma_send_waits(msg, thread, res->Parked_0);
                }
            },
            Call::Sink { msg, thread, task, res } => {
                if self.chan.receiver_for(thread) is Some {
                    self.lemma_send_pairs(msg, thread, after);
                } else if self.chan.closed {
                    self.lemma_send_fails(msg, thread, Sent::Dropped);
                } else {
                    let registered = Rendezvous {
                        senders: self.chan.senders.register(task),
                        ..self.chan
                    };
                    self.lemma_same(registered);
                    let next = History { chan: registered, ..self };
                    next.lemma_send_waits(msg, thread, res->Parked_0);
                }
            },
            Call::ResumeSend { zero, res } => {
                self.lemma_resume_send(zero, sent(res), after);
            },
            Call::ResumeSink { zero, res } => {
                self.lemma_resume_send(zero, sink_sent(res), after);
            },
            Call::TryRecv { thread, res } => {
                if self.chan.sender_for(thread) is Some {
                    self.lemma_recv_pairs(thread, after);
                } else {
                    self.lemma_recv_fails(thread);
                }
            },
            Call::Recv { thread, res } => {
                if self.chan.sender_for(thread) is Some {
                    self.lemma_recv_pairs(thread, after);
                } else if self.chan.closed {
                    self.lemma_recv_fails(thread);
                } else {
                    self.lemma_recv_waits(thread, res->Parked_0);
                }
            },
            Call::Poll { thread, task, res } => {
                if self.chan.sender_for(thread) is Some {
                    self.lemma_recv_pairs(thread, after);
                } else if !self.chan.poll_registers(thread) {
                    self.lemma_recv_fails(thread);
                } else {
                    let registered = Rendezvous {
                        first: false,
                        receivers: if self.chan.first {
                            self.chan.receivers.register(task)
                        } else {
                            self.chan.receivers.answer().register(task)
                        },
                        ..self.chan
                    };
                    self.lemma_same(registered);
                    let next = History { chan: registered, ..self };
                    next.lemma_recv_waits(thread, res->Parked_0);
                }
            },
            Call::ResumeRecv { zero, res } => {
                self.lemma_resume_recv(zero, got(res), after);
            },
            Call::ResumePoll { zero, res } => {
                self.lemma_resume_recv(zero, poll_got(res), after);
            },
            Call::Shutdown | Call::TakeNotified | Call::TakeUnparked => {
                self.lemma_same(after);
            },
        }
    }

    /// A send that waits is resumed.
    proof fn lemma_resume_send(self, z: usize, end: Sent<T>, after: Rendezvous<T>)
        requires
            self.wf(),
            self.chan.places.dom().contains(z),
            self.chan.places[z].is_send(),
            after == self.chan.after_resume_send(z),
            end == sent(self.chan.send_outcome(z)) || end == sink_sent(
                sunk(self.chan.send_outcome(z)),
            ),
        ensures
            (History { chan: after, ..self.end_send(z, end) }).wf(),
    {
        if self.chan.send_over(z) {
            self.lemma_send_ends(z, end);
        } else {
            assert(self.place_ok(z));
            let i = self.sending[z];
            assert(self.sends.update(i, Sending { end, ..self.sends[i] }) =~= self.sends);
        }
    }

    /// A receive that waits is resumed.
    proof fn lemma_resume_recv(self, z: usize, end: Got<T>, after: Rendezvous<T>)
        requires
            self.wf(),
            self.chan.places.dom().contains(z),
            !self.chan.places[z].is_send(),
            after == self.chan.after_resume_recv(z),
            end == got(self.chan.recv_outcome(z)),
        ensures
            (History { chan: after, ..self.end_recv(z, end) }).wf(),
    {
        if self.chan.recv_over(z) {
            self.lemma_recv_ends(z, end);
        } else {
            assert(self.place_ok(z));
            let j = self.receiving[z];
            assert(self.recvs.update(j, Receiving { end, ..self.recvs[j] }) =~= self.recvs);
        }
    }
}

/// The calls are made one after the other: `chans` are the channels before, between and after them.
pub open spec fn follows<T>(calls: Seq<Call<T>>, chans: Seq<Rendezvous<T>>) -> bool {
    &&& chans.len() == calls.len() + 1
    &&& forall|n: int|
        0 <= n < calls.len() ==> #[trigger] chans[n].calls(calls[n], chans[n + 1])
}

/// The calls are made one after the other, from a new channel on.
pub open spec fn happens<T>(calls: Seq<Call<T>>, chans: Seq<Rendezvous<T>>) -> bool {
    follows(calls, chans) && chans[0] == Rendezvous::<T>::initial()
}

/// The history of the calls.
pub open spec fn history<T>(calls: Seq<Call<T>>, chans: Seq<Rendezvous<T>>) -> History<T>
    decreases calls.len(),
{
    if calls.len() == 0 {
        History::initial()
    } else {
        history(calls.drop_last(), chans.drop_last()).step(calls.last(), chans.last())
    }
}

/// What holds of every history holds of that of any calls.
proof fn lemma_history<T>(calls: Seq<Call<T>>, chans: Seq<Rendezvous<T>>)
    requires
        happens(calls, chans),
    ensures
        history(calls, chans).wf(),
        history(calls, chans).chan == chans.last(),
    decreases calls.len(),
{
    if calls.len() > 0 {
        let (calls0, chans0) = (calls.drop_last(), chans.drop_last());
        assert forall|n: int| 0 <= n < calls0.len() implies #[trigger] chans0[n].calls(
            calls0[n],
            chans0[n + 1],
        ) by {
            assert(chans[n].calls(calls[n], chans[n + 1]));
        }
        lemma_history(calls0, chans0);
        let n = calls.len() - 1;
        assert(chans[n].calls(calls[n], chans[n + 1]));
        history(calls0, chans0).lemma_step(calls.last(), chans.last());
    }
}

/// Whichever of these calls are made on a channel: the message of a send that succeeds goes to exactly one
/// receive, which gets it; the message of a send that fails goes to none, and where it is handed
/// back it is the message that was to be sent.
pub proof fn law_sent_message_is_received_once<T>(
    calls: Seq<Call<T>>,
    chans: Seq<Rendezvous<T>>,
    i: int,
)
    requires
        happens(calls, chans),
        0 <= i < history(calls, chans).sends.len(),
    ensures
        ({
            let h = history(calls, chans);
            let send = h.sends[i];
            &&& h.chan == chans.last()
            &&& h.succeeds(i) <==> send.to is Some
            &&& send.to matches Some(j) ==> h.paired(i, j) && h.gets(j, send.msg)
            &&& forall|j: int|
                0 <= j < h.recvs.len() && (#[trigger] h.recvs[j]).from == Some(i) ==> send.to
                    == Some(j)
            &&& send.end matches Sent::Back(msg) ==> msg == send.msg && send.to is None
            &&& send.end is Dropped ==> send.to is None
        }),
{
    lemma_history(calls, chans);
    let h = history(calls, chans);
    assert(h.send_ok(i));
    assert forall|j: int|
        0 <= j < h.recvs.len() && (#[trigger] h.recvs[j]).from == Some(i) implies h.sends[i].to
        == Some(j) by {
        assert(h.recv_ok(j));
    }
}

/// Whichever of these calls are made on a channel: a message that is received is that of exactly one send,
/// which succeeds; a receive that returns without a message has taken none.
pub proof fn law_received_message_was_sent_once<T>(
    calls: Seq<Call<T>>,
    chans: Seq<Rendezvous<T>>,
    j: int,
)
    requires
        happens(calls, chans),
        0 <= j < history(calls, chans).recvs.len(),
    ensures
        ({
            let h = history(calls, chans);
            let recv = h.recvs[j];
            &&& recv.from matches Some(i) ==> h.paired(i, j) && h.succeeds(i) && h.gets(
                j,
                h.sends[i].msg,
            )
            &&& recv.end matches Got::Done(msg) ==> recv.from is Some && msg
                == h.sends[recv.from->Some_0].msg
            &&& forall|i: int|
                0 <= i < h.sends.len() && (#[trigger] h.sends[i]).to == Some(j) ==> recv.from
                    == Some(i)
            &&& recv.end is Nothing ==> recv.from is None
        }),
{
    lemma_history(calls, chans);
    let h = history(calls, chans);
    assert(h.recv_ok(j));
    if let Some(i) = h.recvs[j].from {
        assert(h.send_ok(i));
    }
    assert forall|i: int|
        0 <= i < h.sends.len() && (#[trigger] h.sends[i]).to == Some(j) implies h.recvs[j].from
        == Some(i) by {
        assert(h.send_ok(i));
    }
}

/// What the calls mean for the tasks that wait to send. A receive that meets a send, or begins to
/// wait for one, wakes such a task.
pub open spec fn sender_calls<T>(calls: Seq<Call<T>>, chans: Seq<Rendezvous<T>>) -> Seq<TaskCall>
    decreases calls.len(),
{
    if calls.len() == 0 {
        Seq::empty()
    } else {
        let before = sender_calls(calls.drop_last(), chans.drop_last());
        let chan = chans[calls.len() - 1];
        match calls.last() {
            Call::Sink { msg, thread, task, res } => if chan.sink_registers(thread) {
                before.push(TaskCall::Register { task })
            } else {
                before
            },
            Call::TryRecv { thread, res } => if chan.sender_for(thread) is Some {
                before.push(TaskCall::Wake)
            } else {
                before
            },
            Call::Recv { thread, res } => if chan.closed {
                before
            } else {
                before.push(TaskCall::Wake)
            },
            Call::Poll { thread, task, res } => if chan.sender_for(thread) is Some
                || chan.poll_registers(thread) {
                before.push(TaskCall::Wake)
            } else {
                before
            },
            Call::TakeNotified => before.push(TaskCall::TakeNotified),
            _ => before,
        }
    }
}

/// What the calls mean for the tasks that wait to receive. A send that meets a receive, or begins to
/// wait for one, wakes such a task.
pub open spec fn receiver_calls<T>(calls: Seq<Call<T>>, chans: Seq<Rendezvous<T>>) -> Seq<TaskCall>
    decreases calls.len(),
{
    if calls.len() == 0 {
        Seq::empty()
    } else {
        let before = receiver_calls(calls.drop_last(), chans.drop_last());
        let chan = chans[calls.len() - 1];
        match calls.last() {
            Call::TrySend { msg, thread, res } => if chan.receiver_for(thread) is Some {
                before.push(TaskCall::Wake)
            } else {
                before
            },
            Call::Send { msg, thread, res } => if chan.closed {
                before
            } else {
                before.push(TaskCall::Wake)
            },
            Call::Sink { msg, thread, task, res } => if chan.closed {
                before
            } else {
                before.push(TaskCall::Wake)
            },
            Call::Poll { thread, task, res } => if !chan.poll_registers(thread) {
                before
            } else if chan.first {
                before.push(TaskCall::Register { task })
            } else {
                before.push(TaskCall::Answer).push(TaskCall::Register { task })
            },
            Call::TakeNotified => before.push(TaskCall::TakeNotified),
            _ => before,
        }
    }
}

/// What the calls mean for the tasks is what happens to them.
proof fn lemma_task_calls<T>(calls: Seq<Call<T>>, chans: Seq<Rendezvous<T>>)
    requires
        follows(calls, chans),
    ensures
        chans.last().senders == chans[0].senders.run(sender_calls(calls, chans)),
        chans.last().receivers == chans[0].receivers.run(receiver_calls(calls, chans)),
    decreases calls.len(),
{
    reveal_with_fuel(WaitingTasks::run, 3);
    if calls.len() > 0 {
        let (calls0, chans0) = (calls.drop_last(), chans.drop_last());
        assert forall|n: int| 0 <= n < calls0.len() implies #[trigger] chans0[n].calls(
            calls0[n],
            chans0[n + 1],
        ) by {
            assert(chans[n].calls(calls[n], chans[n + 1]));
        }
        lemma_task_calls(calls0, chans0);
        let n = calls.len() - 1;
        assert(chans[n].calls(calls[n], chans[n + 1]));
        let senders0 = sender_calls(calls0, chans0);
        let senders = sender_calls(calls, chans);
        assert(senders == senders0 || senders.drop_last() =~= senders0);
        let receivers0 = receiver_calls(calls0, chans0);
        let receivers = receiver_calls(calls, chans);
        if receivers.len() == receivers0.len() + 2 {
            assert(receivers.drop_last() =~= receivers0.push(TaskCall::Answer));
            assert(receivers.drop_last().drop_last() =~= receivers0);
        } else {
            assert(receivers == receivers0 || receivers.drop_last() =~= receivers0);
        }
    }
}

/// A task that waits to send is notified once as many receives have met a send, or begun to wait, as
/// there were tasks up to it, whatever other calls are made.
pub proof fn law_waiting_sender_is_notified<T>(
    calls: Seq<Call<T>>,
    chans: Seq<Rendezvous<T>>,
    k: int,
)
    requires
        follows(calls, chans),
        0 <= k < chans[0].senders.queue.len(),
        k < WaitingTasks::wakes(sender_calls(calls, chans)),
    ensures
        chans.last().senders == chans[0].senders.run(sender_calls(calls, chans)),
        chans[0].senders.told(sender_calls(calls, chans)).contains(chans[0].senders.queue[k]),
{
    lemma_task_calls(calls, chans);
    chans[0].senders.law_waiting_task_is_notified(sender_calls(calls, chans), k);
}

/// A task that waits to receive is notified once as many sends have met a receive, or begun to wait,
/// as there were tasks up to it, whatever other calls are made.
pub proof fn law_waiting_receiver_is_notified<T>(
    calls: Seq<Call<T>>,
    chans: Seq<Rendezvous<T>>,
    k: int,
)
    requires
        follows(calls, chans),
        0 <= k < chans[0].receivers.queue.len(),
        k < WaitingTasks::wakes(receiver_calls(calls, chans)),
    ensures
        chans.last().receivers == chans[0].receivers.run(receiver_calls(calls, chans)),
        chans[0].receivers.told(receiver_calls(calls, chans)).contains(
            chans[0].receivers.queue[k],
        ),
{
    lemma_task_calls(calls, chans);
    chans[0].receivers.law_waiting_task_is_notified(receiver_calls(calls, chans), k);
}

impl<T> Rendezvous<T> {
    /// A send that may block fails only on a closed channel, with the message in the error, and
    /// never by running out of time; so does a receive. On a channel that is closed neither blocks.
    pub proof fn law_blocking_calls_fail_only_when_closed(
        self,
        msg: T,
        thread: u64,
        zero: usize,
        after: Rendezvous<T>,
        sent: Blocking<Result<(), SendTimeoutError<T>>>,
        got: Blocking<Result<T, RecvTimeoutError>>,
    )
        ensures
            self.sends(msg, thread, after, sent) ==> {
                &&& sent matches Blocking::Ready(Err(e)) ==> self.closed && e
                    == SendTimeoutError::Disconnected(msg)
                &&& self.closed ==> sent is Ready && after == self
            },
            self.send_outcome(zero) matches Blocking::Ready(Err(e)) ==> {
                &&& self.closed
                &&& self.places[zero] is Offering
                &&& e == SendTimeoutError::Disconnected(self.places[zero]->Offering_msg)
            },
            self.receives(thread, after, got) ==> {
                &&& got matches Blocking::Ready(Err(e)) ==> self.closed && e
                    == RecvTimeoutError::Disconnected && after == self
                &&& self.closed ==> got is Ready && after == self
            },
            self.recv_outcome(zero) matches Blocking::Ready(Err(e)) ==> {
                &&& self.closed
                &&& self.places[zero] is Asking
                &&& e == RecvTimeoutError::Disconnected
            },
    {
    }

    /// The queues are as they should be after the operation at a place is over.
    proof fn lemma_leave(self, z: usize)
        requires
            self.wf(),
            self.settled(),
            self.places.dom().contains(z),
        ensures
            self.leave(z).wf(),
            self.leave(z).settled(),
    {
        let next = self.leave(z);
        if self.places[z] is Offering {
            lemma_remove(self.offers, self.offers.index_of(z));
        }
        if self.places[z] is Asking {
            lemma_remove(self.requests, self.requests.index_of(z));
        }
        assert forall|i: int| 0 <= i < next.offers.len() implies next.places.dom().contains(
            #[trigger] next.offers[i],
        ) && next.places[next.offers[i]] is Offering by {
            assert(next.offers.contains(next.offers[i]));
            assert(self.offers.contains(next.offers[i]));
        }
        assert forall|i: int| 0 <= i < next.requests.len() implies next.places.dom().contains(
            #[trigger] next.requests[i],
        ) && next.places[next.requests[i]] is Asking by {
            assert(next.requests.contains(next.requests[i]));
            assert(self.requests.contains(next.requests[i]));
        }
    }
}

} // verus!
