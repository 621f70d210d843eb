//! What the operations on a channel of capacity zero answer, and what they change, told in terms of
//! who waits on it and with which message.
use crate::atomic_serial_waker::WaitingTasks;
use crate::error::{RecvTimeoutError, SendError, SendTimeoutError};
use crate::laws::lemma_first_other;
use crate::zero::{polled, sunk, Blocking, Place, Rendezvous};
use futures::{Async, AsyncSink};
use std::sync::mpsc::TryRecvError;
use vstd::prelude::*;

verus! {

impl<T> Place<T> {
    /// What an operation that blocks is: whose it is, which side it is on, whether it has a partner,
    /// and where its message is.
    pub proof fn law_what_a_place_is(thread: u64, msg: T)
        ensures
            ({
                let offering = Place::Offering { thread, msg };
                let asking = Place::<T>::Asking { thread };
                let accepted = Place::Accepted { thread, msg };
                let promised = Place::<T>::Promised { thread };
                let taken = Place::<T>::Taken { thread };
                let given = Place::Given { thread, msg };
                &&& offering.thread() == thread && asking.thread() == thread && accepted.thread()
                    == thread && promised.thread() == thread && taken.thread() == thread
                    && given.thread() == thread
                &&& offering.is_send() && accepted.is_send() && taken.is_send()
                &&& !asking.is_send() && !promised.is_send() && !given.is_send()
                &&& offering.waits() && asking.waits()
                &&& !accepted.waits() && !promised.waits() && !taken.waits() && !given.waits()
                &&& taken.ready() && given.ready()
                &&& !offering.ready() && !asking.ready() && !accepted.ready() && !promised.ready()
                &&& offering.message() == Some(msg) && accepted.message() == Some(msg)
                    && given.message() == Some(msg)
                &&& asking.message() is None && promised.message() is None && taken.message() is
                    None
            }),
    {
    }
}

impl<T> Rendezvous<T> {
    /// A new channel is open, and nobody waits on it.
    pub proof fn law_starts_open_with_nobody()
        ensures
            !Rendezvous::<T>::initial().closed,
            Rendezvous::<T>::initial().offers.len() == 0,
            Rendezvous::<T>::initial().requests.len() == 0,
            forall|z: usize| !#[trigger] Rendezvous::<T>::initial().places.dom().contains(z),
            Rendezvous::<T>::initial().senders == WaitingTasks::initial(),
            Rendezvous::<T>::initial().receivers == WaitingTasks::initial(),
            Rendezvous::<T>::initial().first,
            Rendezvous::<T>::initial().unparked.len() == 0,
            Rendezvous::<T>::initial().wf(),
            Rendezvous::<T>::initial().settled(),
    {
    }

    /// Of every channel: those in the queues wait, each once, and those that wait are in the queues.
    pub proof fn law_queues_hold_those_who_wait(self, z: usize)
        requires
            self.wf(),
        ensures
            self.offers.no_duplicates(),
            self.requests.no_duplicates(),
            self.offers.contains(z) <==> self.places.dom().contains(z) && self.places[z] is Offering,
            self.requests.contains(z) <==> self.places.dom().contains(z) && self.places[z] is Asking,
    {
    }

    /// A partner is found exactly where the channel is open and another thread's operation waits on
    /// the other side; it is the one that has waited longest.
    pub proof fn law_when_a_partner_is_found(self, thread: u64)
        ensures
            self.receiver_for(thread) is Some <==> !self.closed && exists|i: int|
                0 <= i < self.requests.len() && self.places[#[trigger] self.requests[i]].thread()
                    != thread,
            self.sender_for(thread) is Some <==> !self.closed && exists|i: int|
                0 <= i < self.offers.len() && self.places[#[trigger] self.offers[i]].thread()
                    != thread,
            self.receiver_for(thread) matches Some(k) ==> {
                &&& 0 <= k < self.requests.len()
                &&& self.places[self.requests[k]].thread() != thread
                &&& forall|i: int|
                    0 <= i < k ==> self.places[#[trigger] self.requests[i]].thread() == thread
            },
            self.sender_for(thread) matches Some(k) ==> {
                &&& 0 <= k < self.offers.len()
                &&& self.places[self.offers[k]].thread() != thread
                &&& forall|i: int|
                    0 <= i < k ==> self.places[#[trigger] self.offers[i]].thread() == thread
            },
    {
        lemma_first_other(self.places, self.requests, thread, 0);
        lemma_first_other(self.places, self.offers, thread, 0);
    }

    /// A send that does not wait succeeds exactly where it finds a partner. Otherwise the message
    /// comes back: a closed channel says that it is closed, an open one that it has no room.
    pub proof fn law_send_answers(self, msg: T, thread: u64)
        ensures
            self.try_send_result(msg, thread) is Ok <==> !self.closed && exists|i: int|
                0 <= i < self.requests.len() && self.places[#[trigger] self.requests[i]].thread()
                    != thread,
            self.try_send_result(msg, thread) matches Err(e) ==> {
                &&& e.value == msg
                &&& e.kind is Closed <==> self.closed
                &&& e.kind is NoCapacity <==> !self.closed
            },
    {
        self.law_when_a_partner_is_found(thread);
    }

    /// What a send that does not wait changes: with a partner, the partner has the message and is
    /// told so, and a task that waits to receive is woken; without one, nothing.
    pub proof fn law_what_a_send_changes(self, msg: T, thread: u64)
        ensures
            self.receiver_for(thread) is None ==> self.after_try_send(msg, thread) == self,
            self.receiver_for(thread) matches Some(k) ==> {
                let after = self.after_try_send(msg, thread);
                let z = self.requests[k];
                let partner = self.places[z].thread();
                &&& after.places == self.places.insert(z, Place::Given { thread: partner, msg })
                &&& after.requests == self.requests.remove(k)
                &&& after.unparked == self.unparked.push(partner)
                &&& after.receivers == self.receivers.wake()
                &&& after.offers == self.offers
                &&& after.closed == self.closed
                &&& after.senders == self.senders
                &&& after.first == self.first
            },
    {
        if let Some(k) = self.receiver_for(thread) {
            let z = self.requests[k];
            let partner = self.places[z].thread();
            assert(self.after_try_send(msg, thread).places =~= self.places.insert(
                z,
                Place::Given { thread: partner, msg },
            ));
        }
    }

    /// The two halves of such a send: the partner is taken out of its queue and unparked; then it is
    /// given the message, and a task that waits to receive is woken.
    pub proof fn law_halves_of_a_send(self, k: int, z: usize, msg: T)
        requires
            0 <= k < self.requests.len(),
        ensures
            ({
                let after = self.promise(k);
                let partner = self.places[self.requests[k]].thread();
                &&& after.places == self.places.insert(
                    self.requests[k],
                    Place::Promised { thread: partner },
                )
                &&& after.requests == self.requests.remove(k)
                &&& after.unparked == self.unparked.push(partner)
                &&& after.offers == self.offers
                &&& after.closed == self.closed
                &&& after.senders == self.senders
                &&& after.receivers == self.receivers
                &&& after.first == self.first
            }),
            ({
                let after = self.give(z, msg);
                let partner = self.places[z].thread();
                &&& after.places == self.places.insert(z, Place::Given { thread: partner, msg })
                &&& after.receivers == self.receivers.wake()
                &&& after.requests == self.requests
                &&& after.unparked == self.unparked
                &&& after.offers == self.offers
                &&& after.closed == self.closed
                &&& after.senders == self.senders
                &&& after.first == self.first
            }),
    {
    }

    /// A receive that does not wait returns the message of the partner that it finds. Without one, it
    /// says that there will be none exactly where the channel is closed.
    pub proof fn law_receive_answers(self, thread: u64)
        ensures
            self.sender_for(thread) matches Some(k) ==> (self.places[self.offers[k]] matches
                Place::Offering { thread: partner, msg } ==> self.try_recv_result(thread) == Ok::<
                T,
                TryRecvError,
            >(msg)),
            self.try_recv_result(thread) is Ok <==> !self.closed && exists|i: int|
                0 <= i < self.offers.len() && self.places[#[trigger] self.offers[i]].thread()
                    != thread,
            self.try_recv_result(thread) == Err::<T, TryRecvError>(TryRecvError::Disconnected)
                <==> self.closed,
            self.try_recv_result(thread) == Err::<T, TryRecvError>(TryRecvError::Empty)
                <==> !self.closed && self.sender_for(thread) is None,
    {
        self.law_when_a_partner_is_found(thread);
    }

    /// What a receive that does not wait changes: with a partner, the partner's message is taken and
    /// it is told so, and a task that waits to send is woken; without one, nothing.
    pub proof fn law_what_a_receive_changes(self, thread: u64)
        ensures
            self.sender_for(thread) is None ==> self.after_try_recv(thread) == self,
            self.sender_for(thread) matches Some(k) ==> {
                let after = self.after_try_recv(thread);
                let z = self.offers[k];
                let partner = self.places[z].thread();
                &&& after.places == self.places.insert(z, Place::Taken { thread: partner })
                &&& after.offers == self.offers.remove(k)
                &&& after.unparked == self.unparked.push(partner)
                &&& after.senders == self.senders.wake()
                &&& after.requests == self.requests
                &&& after.closed == self.closed
                &&& after.receivers == self.receivers
                &&& after.first == self.first
            },
    {
        if let Some(k) = self.sender_for(thread) {
            let z = self.offers[k];
            let partner = self.places[z].thread();
            assert(self.after_try_recv(thread).places =~= self.places.insert(
                z,
                Place::Taken { thread: partner },
            ));
        }
    }

    /// The two halves of such a receive: the partner is taken out of its queue and unparked, its
    /// message still there; then the message is taken, and a task that waits to send is woken.
    pub proof fn law_halves_of_a_receive(self, k: int, z: usize)
        requires
            0 <= k < self.offers.len(),
        ensures
            self.places[self.offers[k]] matches Place::Offering { thread, msg } ==> {
                let after = self.accept(k);
                &&& after.places == self.places.insert(
                    self.offers[k],
                    Place::Accepted { thread, msg },
                )
                &&& after.offers == self.offers.remove(k)
                &&& after.unparked == self.unparked.push(thread)
                &&& after.requests == self.requests
                &&& after.closed == self.closed
                &&& after.senders == self.senders
                &&& after.receivers == self.receivers
                &&& after.first == self.first
            },
            ({
                let after = self.take(z);
                let partner = self.places[z].thread();
                &&& after.places == self.places.insert(z, Place::Taken { thread: partner })
                &&& after.senders == self.senders.wake()
                &&& after.requests == self.requests
                &&& after.unparked == self.unparked
                &&& after.offers == self.offers
                &&& after.closed == self.closed
                &&& after.receivers == self.receivers
                &&& after.first == self.first
            }),
    {
    }

    /// What beginning to wait changes: a send waits with its message as the last one of the sends,
    /// and a task that waits to receive is woken; a receive waits as the last one of the receives,
    /// and a task that waits to send is woken.
    pub proof fn law_what_beginning_to_wait_changes(self, z: usize, thread: u64, msg: T)
        ensures
            ({
                let after = self.offer(z, thread, msg);
                &&& after.places == self.places.insert(z, Place::Offering { thread, msg })
                &&& after.offers == self.offers.push(z)
                &&& after.receivers == self.receivers.wake()
                &&& after.requests == self.requests
                &&& after.closed == self.closed
                &&& after.senders == self.senders
                &&& after.first == self.first
                &&& after.unparked == self.unparked
            }),
            ({
                let after = self.ask(z, thread);
                &&& after.places == self.places.insert(z, Place::Asking { thread })
                &&& after.requests == self.requests.push(z)
                &&& after.senders == self.senders.wake()
                &&& after.offers == self.offers
                &&& after.closed == self.closed
                &&& after.receivers == self.receivers
                &&& after.first == self.first
                &&& after.unparked == self.unparked
            }),
    {
    }

    /// A send that may block, whatever happened before: with a partner it succeeds at once and does
    /// what a send that does not wait does; on a closed channel it fails at once and hands the
    /// message back; else it waits at a place of its own.
    pub proof fn law_blocking_send_answers(
        self,
        msg: T,
        thread: u64,
        after: Rendezvous<T>,
        res: Blocking<Result<(), SendTimeoutError<T>>>,
    )
        requires
            self.sends(msg, thread, after, res),
        ensures
            res is Ready <==> self.closed || self.try_send_result(msg, thread) is Ok,
            res matches Blocking::Ready(Ok(_)) ==> !self.closed && self.try_send_result(
                msg,
                thread,
            ) is Ok && after == self.after_try_send(msg, thread),
            res matches Blocking::Ready(Err(e)) ==> self.closed && e
                == SendTimeoutError::Disconnected(msg) && after == self,
            res matches Blocking::Parked(z) ==> {
                &&& !self.closed
                &&& !self.places.dom().contains(z)
                &&& after == self.offer(z, thread, msg)
            },
    {
        self.law_when_a_partner_is_found(thread);
    }

    /// A receive that may block, whatever happened before: with a partner it returns the message that
    /// a receive that does not wait returns; on a closed channel it fails at once; else it waits at a
    /// place of its own.
    pub proof fn law_blocking_receive_answers(
        self,
        thread: u64,
        after: Rendezvous<T>,
        res: Blocking<Result<T, RecvTimeoutError>>,
    )
        requires
            self.receives(thread, after, res),
        ensures
            res is Ready <==> self.closed || self.try_recv_result(thread) is Ok,
            res matches Blocking::Ready(Ok(msg)) ==> !self.closed && self.try_recv_result(thread)
                == Ok::<T, TryRecvError>(msg) && after == self.after_try_recv(thread),
            res matches Blocking::Ready(Err(e)) ==> self.closed && e
                == RecvTimeoutError::Disconnected && after == self,
            res matches Blocking::Parked(z) ==> {
                &&& !self.closed
                &&& !self.places.dom().contains(z)
                &&& after == self.ask(z, thread)
            },
    {
        self.law_when_a_partner_is_found(thread);
    }

    /// A send into the sink, whatever happened before: it is an error exactly where the channel is
    /// closed, and changes nothing then; with a partner the item is taken at once; else the task and
    /// the thread wait. The item never comes back.
    pub proof fn law_sink_answers(
        self,
        item: T,
        thread: u64,
        task: u64,
        after: Rendezvous<T>,
        res: Blocking<Result<AsyncSink<T>, SendError>>,
    )
        requires
            self.sinks(item, thread, task, after, res),
        ensures
            res matches Blocking::Ready(Err(_)) <==> self.closed,
            self.closed ==> after == self,
            res matches Blocking::Ready(Ok(sink)) ==> {
                &&& sink is Ready
                &&& !self.closed
                &&& self.try_send_result(item, thread) is Ok
                &&& after == self.after_try_send(item, thread)
            },
            self.try_send_result(item, thread) is Ok ==> res is Ready,
            res matches Blocking::Parked(z) ==> {
                &&& !self.closed
                &&& !self.places.dom().contains(z)
                &&& after.senders == self.senders.register(task)
                &&& after == Rendezvous {
                    senders: after.senders,
                    ..self.offer(z, thread, item)
                }
            },
            self.sink_registers(thread) <==> res is Parked,
    {
        self.law_when_a_partner_is_found(thread);
    }

    /// A poll, whatever happened before: the message that a receive would return; the end exactly
    /// where the channel is closed; else the task and the thread wait, if no poll has waited before or
    /// a notification is there to be answered, and if not, the poll is not ready and changes nothing.
    pub proof fn law_poll_answers(
        self,
        thread: u64,
        task: u64,
        after: Rendezvous<T>,
        res: Blocking<Async<Option<T>>>,
    )
        requires
            self.polls(thread, task, after, res),
        ensures
            res matches Blocking::Ready(Async::Ready(None)) <==> self.closed,
            self.closed ==> after == self,
            res matches Blocking::Ready(Async::Ready(Some(msg))) ==> {
                &&& self.try_recv_result(thread) == Ok::<T, TryRecvError>(msg)
                &&& after == self.after_try_recv(thread)
            },
            self.try_recv_result(thread) is Ok ==> res matches Blocking::Ready(
                Async::Ready(Some(_)),
            ),
            res matches Blocking::Ready(Async::NotReady) <==> !self.closed && !(
            self.try_recv_result(thread) is Ok) && !self.first && self.receivers.from_me == 0,
            res matches Blocking::Ready(Async::NotReady) ==> after == self,
            res matches Blocking::Parked(z) ==> {
                &&& !self.closed
                &&& !self.places.dom().contains(z)
                &&& self.first || self.receivers.from_me > 0
                &&& !after.first
                &&& after.receivers == if self.first {
                    self.receivers.register(task)
                } else {
                    self.receivers.answer().register(task)
                }
                &&& after == Rendezvous {
                    first: after.first,
                    receivers: after.receivers,
                    ..self.ask(z, thread)
                }
            },
            self.poll_registers(thread) <==> res is Parked,
    {
        self.law_when_a_partner_is_found(thread);
    }

    /// How a send that waits goes on: it succeeds exactly where its message has been taken; it gets
    /// the message back exactly where it still has it and the channel is closed; else it waits on.
    pub proof fn law_how_a_waiting_send_goes_on(self, z: usize)
        ensures
            self.send_outcome(z) matches Blocking::Ready(Ok(_)) <==> self.places[z] is Taken,
            self.send_outcome(z) matches Blocking::Ready(Err(_)) <==> self.closed && self.places[z] is
                Offering,
            self.send_outcome(z) matches Blocking::Ready(Err(e)) ==> e
                == SendTimeoutError::Disconnected(self.places[z]->Offering_msg),
            self.send_outcome(z) matches Blocking::Parked(y) ==> y == z,
            self.after_resume_send(z) == if self.send_outcome(z) is Ready {
                self.leave(z)
            } else {
                self
            },
    {
    }

    /// How a receive that waits goes on: it has a message exactly where it has been given one; it
    /// fails exactly where it has none and the channel is closed; else it waits on.
    pub proof fn law_how_a_waiting_receive_goes_on(self, z: usize)
        ensures
            self.recv_outcome(z) matches Blocking::Ready(Ok(_)) <==> self.places[z] is Given,
            self.recv_outcome(z) matches Blocking::Ready(Ok(msg)) ==> msg
                == self.places[z]->Given_msg,
            self.recv_outcome(z) matches Blocking::Ready(Err(_)) <==> self.closed && self.places[z] is
                Asking,
            self.recv_outcome(z) matches Blocking::Ready(Err(e)) ==> e
                == RecvTimeoutError::Disconnected,
            self.recv_outcome(z) matches Blocking::Parked(y) ==> y == z,
            self.after_resume_recv(z) == if self.recv_outcome(z) is Ready {
                self.leave(z)
            } else {
                self
            },
    {
    }

    /// What the end of a wait changes: the operation is gone from its place and from its queue, and
    /// nothing else is.
    pub proof fn law_what_the_end_of_a_wait_changes(self, z: usize, y: usize)
        requires
            self.wf(),
            self.places.dom().contains(z),
        ensures
            ({
                let after = self.leave(z);
                &&& after.places == self.places.remove(z)
                &&& !after.offers.contains(z)
                &&& !after.requests.contains(z)
                &&& y != z ==> after.offers.contains(y) == self.offers.contains(y)
                &&& y != z ==> after.requests.contains(y) == self.requests.contains(y)
                &&& self.places[z] is Offering ==> exists|k: int|
                    0 <= k < self.offers.len() && self.offers[k] == z && after.offers
                        == #[trigger] self.offers.remove(k)
                &&& !(self.places[z] is Offering) ==> after.offers == self.offers
                &&& self.places[z] is Asking ==> exists|k: int|
                    0 <= k < self.requests.len() && self.requests[k] == z && after.requests
                        == #[trigger] self.requests.remove(k)
                &&& !(self.places[z] is Asking) ==> after.requests == self.requests
                &&& after.closed == self.closed
                &&& after.senders == self.senders
                &&& after.receivers == self.receivers
                &&& after.first == self.first
                &&& after.unparked == self.unparked
            }),
    {
        if self.places[z] is Offering {
            let k = self.offers.index_of(z);
            crate::zero::lemma_remove(self.offers, k);
            assert(self.leave(z).offers == self.offers.remove(k));
        }
        if self.places[z] is Asking {
            let k = self.requests.index_of(z);
            crate::zero::lemma_remove(self.requests, k);
            assert(self.leave(z).requests == self.requests.remove(k));
        }
    }

    /// What closing changes: the channel is closed, and the threads of all who wait are unparked, the
    /// sends first; what they wait for stays for them to find. What is closed already stays as it is.
    pub proof fn law_what_closing_changes(self, i: int)
        ensures
            ({
                let after = self.after_shutdown();
                let told = self.unparked.len();
                let (sends, recvs) = (self.offers.len(), self.requests.len());
                &&& after.closed
                &&& after.places == self.places
                &&& after.offers == self.offers
                &&& after.requests == self.requests
                &&& after.senders == self.senders
                &&& after.receivers == self.receivers
                &&& after.first == self.first
                &&& self.closed ==> after == self
                &&& !self.closed ==> {
                    &&& after.unparked.len() == told + sends + recvs
                    &&& 0 <= i < told ==> after.unparked[i] == self.unparked[i]
                    &&& 0 <= i < sends ==> after.unparked[told + i]
                        == self.places[self.offers[i]].thread()
                    &&& 0 <= i < recvs ==> after.unparked[told + sends + i]
                        == self.places[self.requests[i]].thread()
                }
            }),
    {
    }

    /// Taking a record changes that record alone.
    pub proof fn law_what_taking_the_records_changes(self)
        ensures
            ({
                let after = self.after_take_notified();
                &&& after.senders == self.senders.hand_out()
                &&& after.receivers == self.receivers.hand_out()
                &&& after == Rendezvous {
                    senders: after.senders,
                    receivers: after.receivers,
                    ..self
                }
            }),
            self.after_take_unparked().unparked.len() == 0,
            self.after_take_unparked() == (Rendezvous {
                unparked: self.after_take_unparked().unparked,
                ..self
            }),
            self.settled() <==> forall|z: usize| #[trigger]
                self.places.dom().contains(z) ==> self.places[z].waits() || self.places[z].ready(),
    {
        if forall|z: usize| #[trigger]
            self.places.dom().contains(z) ==> self.places[z].waits() || self.places[z].ready() {
            assert(self.settled());
        }
    }
}

/// What a receive that may block means to a poll, and a send that may block to a sink: a message, the
/// end, or the wait; success, an error, or the wait.
pub proof fn law_what_blocking_means_to_streams_and_sinks<T>(
    got: Blocking<Result<T, RecvTimeoutError>>,
    sent: Blocking<Result<(), SendTimeoutError<T>>>,
)
    ensures
        got matches Blocking::Ready(Ok(msg)) ==> polled(got) == Blocking::Ready(
            Async::Ready(Some(msg)),
        ),
        got matches Blocking::Ready(Err(e)) ==> polled(got) == if e
            == RecvTimeoutError::Disconnected {
            Blocking::Ready(Async::Ready(None::<T>))
        } else {
            Blocking::Ready(Async::<Option<T>>::NotReady)
        },
        got matches Blocking::Parked(z) ==> polled(got) == Blocking::<Async<Option<T>>>::Parked(z),
        sent matches Blocking::Ready(Ok(_)) ==> sunk(sent) == Blocking::Ready(
            Ok::<AsyncSink<T>, SendError>(AsyncSink::Ready),
        ),
        sent matches Blocking::Ready(Err(_)) ==> sunk(sent) == Blocking::Ready(
            Err::<AsyncSink<T>, SendError>(SendError),
        ),
        sent matches Blocking::Parked(z) ==> sunk(sent) == Blocking::<
            Result<AsyncSink<T>, SendError>,
        >::Parked(z),
{
}

} // verus!
