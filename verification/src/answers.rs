//! What the operations answer, and what they change, told in terms of the messages in a channel and
//! of those who wait on it.
use crate::array::{Bounded, Claim, SendAttempt};
use crate::atomic_serial_waker::{lemma_wrapping_plus, wrapping_plus, WaitingTasks};
use crate::error::SendTimeoutError;
use crate::laws::{law_recv_takes_the_first, Step};
use crate::list::Unbounded;
use crate::log::{Cell, Log};
use futures::Async;
use std::sync::mpsc::TryRecvError;
use vstd::prelude::*;

verus! {

impl<T> Log<T> {
    /// There are as many messages sent as positions, as many received as claimed by receives, and the
    /// others wait.
    pub proof fn law_every_position_counts(self)
        requires
            self.head <= self.cells.len(),
        ensures
            self.tail() == self.cells.len(),
            self.len() == self.cells.len() - self.head,
            self.queue().len() == self.cells.len() - self.head,
            self.received().len() == self.head,
            self.sent().len() == self.cells.len(),
    {
    }

    /// The messages of a log, and their order, are those of its positions: first the ones received,
    /// then the ones that wait.
    pub proof fn law_messages_are_at_their_positions(self, p: int)
        requires
            self.head <= self.cells.len(),
            0 <= p < self.cells.len(),
        ensures
            self.cells[p] matches Cell::Full(msg) ==> self.message(p) == msg,
            self.cells[p] matches Cell::Read(msg) ==> self.message(p) == msg,
            self.sent()[p] == self.message(p),
            p < self.head ==> self.received()[p] == self.message(p),
            p >= self.head ==> self.queue()[p - self.head] == self.message(p),
    {
    }

    /// A new log is open and has carried nothing.
    pub proof fn law_starts_empty()
        ensures
            Log::<T>::initial().cells.len() == 0,
            Log::<T>::initial().head == 0,
            !Log::<T>::initial().closed,
            Log::<T>::initial().len() == 0,
            Log::<T>::initial().queue().len() == 0,
            Log::<T>::initial().settled(),
            Log::<T>::initial().wf(),
    {
    }

    /// Nothing is under way exactly where all messages that were claimed by receives are gone, and
    /// all others are there.
    pub proof fn law_settled_is_nothing_under_way(self)
        ensures
            self.settled() <==> {
                &&& self.head <= self.cells.len()
                &&& forall|p: int|
                    0 <= p < self.cells.len() ==> ((#[trigger] self.cells[p] is Read) == (p
                        < self.head) && !(self.cells[p] is Writing))
            },
            self.wf() <==> {
                &&& self.head <= self.cells.len()
                &&& forall|p: int|
                    self.head <= p < self.cells.len() ==> !(#[trigger] self.cells[p] is Read)
            },
    {
        if self.settled() {
            assert forall|p: int| 0 <= p < self.cells.len() implies ((#[trigger] self.cells[p] is
                Read) == (p < self.head) && !(self.cells[p] is Writing)) by {}
        }
        if self.head <= self.cells.len() && (forall|p: int|
            0 <= p < self.cells.len() ==> ((#[trigger] self.cells[p] is Read) == (p < self.head)
                && !(self.cells[p] is Writing))) {
            assert forall|p: int| self.head <= p < self.tail() implies #[trigger] self.cells[p] is
                Full by {}
        }
    }

    /// A claim for a send adds one position, whose message is still to come, and nothing else.
    pub proof fn law_claim_send_adds_a_position(self)
        ensures
            self.claim_send().cells == self.cells.push(Cell::Writing),
            self.claim_send().head == self.head,
            self.claim_send().closed == self.closed,
    {
    }

    /// A claim for a receive takes the next position, and changes nothing else.
    pub proof fn law_claim_recv_takes_a_position(self)
        ensures
            self.claim_recv().cells == self.cells,
            self.claim_recv().head == self.head + 1,
            self.claim_recv().closed == self.closed,
    {
    }

    /// The move of a message concerns its position alone.
    pub proof fn law_moves_concern_one_position(self, p: nat, msg: T, q: int)
        requires
            p < self.cells.len(),
            0 <= q < self.cells.len(),
        ensures
            self.write(p, msg).cells.len() == self.cells.len(),
            self.write(p, msg).head == self.head,
            self.write(p, msg).closed == self.closed,
            self.write(p, msg).cells[q] == if q == p {
                Cell::Full(msg)
            } else {
                self.cells[q]
            },
            self.read(p).cells.len() == self.cells.len(),
            self.read(p).head == self.head,
            self.read(p).closed == self.closed,
            q != p ==> self.read(p).cells[q] == self.cells[q],
            self.cells[p as int] matches Cell::Full(there) ==> self.read(p).cells[p as int]
                == Cell::Read(there),
    {
    }

    /// A whole send adds a position with its message; a whole receive takes the message of the next
    /// position; closing changes neither.
    pub proof fn law_whole_operations(self, msg: T)
        requires
            self.head <= self.cells.len(),
        ensures
            self.send(msg).cells == self.cells.push(Cell::Full(msg)),
            self.send(msg).head == self.head,
            self.send(msg).closed == self.closed,
            self.head < self.cells.len() ==> {
                &&& self.recv().head == self.head + 1
                &&& self.recv().closed == self.closed
                &&& self.recv().cells == self.cells.update(
                    self.head as int,
                    Cell::Read(self.queue()[0]),
                )
            },
            self.close().cells == self.cells,
            self.close().head == self.head,
            self.close().closed,
    {
        assert(self.send(msg).cells =~= self.cells.push(Cell::Full(msg)));
    }
}

impl<T> Bounded<T> {
    /// A new channel is open and empty, and nobody waits on it.
    pub proof fn law_starts_open_and_empty(cap: nat)
        ensures
            Bounded::<T>::initial(cap).cap == cap,
            Bounded::<T>::initial(cap).log == Log::<T>::initial(),
            Bounded::<T>::initial(cap).senders == WaitingTasks::initial(),
            Bounded::<T>::initial(cap).receivers == WaitingTasks::initial(),
            Bounded::<T>::initial(cap).first,
            cap > 0 ==> Bounded::<T>::initial(cap).wf(),
    {
    }

    /// In every channel there are at most as many messages as its capacity.
    pub proof fn law_capacity_is_kept(self)
        requires
            self.wf(),
        ensures
            0 < self.cap,
            self.log.head <= self.log.cells.len() <= self.log.head + self.cap,
            self.log.queue().len() <= self.cap,
    {
    }

    /// A channel is full exactly where as many messages are in it as its capacity.
    pub proof fn law_full_is_at_capacity(self)
        requires
            self.log.head <= self.log.cells.len(),
        ensures
            self.is_full() <==> self.log.queue().len() == self.cap,
            self.is_full() <==> self.log.cells.len() == self.log.head + self.cap,
    {
    }

    /// A send succeeds exactly where the channel is open and fewer messages are in it than its
    /// capacity. Otherwise the message comes back: a closed channel says that it is closed, an open
    /// one that it has no room.
    pub proof fn law_send_succeeds_exactly_where_there_is_room(self, msg: T)
        requires
            self.log.head <= self.log.cells.len(),
            self.log.queue().len() <= self.cap,
        ensures
            self.try_send_result(msg) is Ok <==> !self.log.closed && self.log.queue().len()
                < self.cap,
            self.try_send_result(msg) matches Err(e) ==> {
                &&& e.value == msg
                &&& e.kind is Closed <==> self.log.closed
                &&& e.kind is NoCapacity <==> !self.log.closed && self.log.queue().len()
                    == self.cap
            },
    {
    }

    /// A send with a deadline succeeds where one without does. On a closed channel it fails, whatever
    /// the deadline; on a full one the deadline decides. The message is never lost.
    pub proof fn law_send_with_a_deadline(self, msg: T, expired: bool)
        requires
            self.log.head <= self.log.cells.len(),
            self.log.queue().len() <= self.cap,
        ensures
            self.send_result(msg, expired) is Sent <==> self.try_send_result(msg) is Ok,
            self.send_result(msg, expired) is Sent <==> !self.log.closed && self.log.queue().len()
                < self.cap,
            self.send_result(msg, expired) matches SendAttempt::Failed(e) ==> {
                ||| self.log.closed && e == SendTimeoutError::Disconnected(msg)
                ||| !self.log.closed && expired && self.log.queue().len() == self.cap && e
                    == SendTimeoutError::Timeout(msg)
            },
            self.send_result(msg, expired) matches SendAttempt::Blocked(back) ==> {
                &&& back == msg
                &&& !self.log.closed
                &&& !expired
                &&& self.log.queue().len() == self.cap
            },
    {
    }

    /// What a send changes: where it succeeds, the message is in the channel and a receiver is woken;
    /// where there is no room, its task waits; a closed channel stays as it is. A send with a
    /// deadline has no task wait, and is otherwise the same.
    pub proof fn law_what_a_send_changes(self, msg: T, task: u64)
        requires
            self.log.head <= self.log.cells.len(),
            self.log.queue().len() <= self.cap,
        ensures
            ({
                let after = self.after_try_send(msg, task);
                let room = self.log.queue().len() < self.cap;
                &&& after.cap == self.cap
                &&& after.first == self.first
                &&& after.log.closed == self.log.closed
                &&& after.log.head == self.log.head
                &&& after.log.cells == if !self.log.closed && room {
                    self.log.cells.push(Cell::Full(msg))
                } else {
                    self.log.cells
                }
                &&& after.receivers == if !self.log.closed && room {
                    self.receivers.wake()
                } else {
                    self.receivers
                }
                &&& after.senders == if !self.log.closed && !room {
                    self.senders.register(task)
                } else {
                    self.senders
                }
                &&& self.after_send(msg) == Bounded { senders: self.senders, ..after }
                &&& self.send_registers() <==> !self.log.closed && !room
            }),
    {
        self.log.law_whole_operations(msg);
    }

    /// A receive returns the first message where there is one. Without a message, it says that there
    /// will be none exactly where the channel is closed.
    pub proof fn law_receive_answers(self)
        requires
            self.log.head <= self.log.cells.len(),
        ensures
            self.log.queue().len() > 0 ==> self.try_recv_result() == Ok::<T, TryRecvError>(
                self.log.queue()[0],
            ),
            self.try_recv_result() is Ok <==> self.log.queue().len() > 0,
            self.try_recv_result() == Err::<T, TryRecvError>(TryRecvError::Disconnected)
                <==> self.log.closed && self.log.queue().len() == 0,
            self.try_recv_result() == Err::<T, TryRecvError>(TryRecvError::Empty)
                <==> !self.log.closed && self.log.queue().len() == 0,
    {
    }

    /// A poll answers as a receive does: a message where that has one, the end where that is
    /// disconnected, and not ready where that is empty.
    pub proof fn law_poll_answers(self)
        requires
            self.log.head <= self.log.cells.len(),
        ensures
            self.log.queue().len() > 0 ==> self.poll_result() == Async::Ready(
                Some(self.log.queue()[0]),
            ),
            self.poll_result() == Async::Ready(None::<T>) <==> self.log.closed
                && self.log.queue().len() == 0,
            self.poll_result() is NotReady <==> !self.log.closed && self.log.queue().len() == 0,
            self.poll_result() is NotReady <==> self.try_recv_result() == Err::<T, TryRecvError>(
                TryRecvError::Empty,
            ),
    {
    }

    /// What a receive changes: it takes the first message and wakes a sender, or changes nothing.
    pub proof fn law_what_a_receive_changes(self)
        requires
            self.log.head <= self.log.cells.len(),
        ensures
            ({
                let after = self.after_try_recv();
                let some = self.log.queue().len() > 0;
                &&& after.cap == self.cap
                &&& after.first == self.first
                &&& after.receivers == self.receivers
                &&& after.log.closed == self.log.closed
                &&& after.log.head == if some {
                    self.log.head + 1
                } else {
                    self.log.head
                }
                &&& after.log.cells == if some {
                    self.log.cells.update(self.log.head as int, Cell::Read(self.log.queue()[0]))
                } else {
                    self.log.cells
                }
                &&& after.senders == if some {
                    self.senders.wake()
                } else {
                    self.senders
                }
            }),
    {
    }

    /// What a poll changes: with a message or at the end it is a receive. Else its task waits, if no
    /// poll has waited before or a notification is there to be answered; and nothing else changes.
    pub proof fn law_what_a_poll_changes(self, task: u64)
        requires
            self.log.head <= self.log.cells.len(),
        ensures
            ({
                let after = self.after_poll(task);
                let waits = !self.log.closed && self.log.queue().len() == 0;
                &&& !waits ==> after == self.after_try_recv()
                &&& waits ==> {
                    &&& after.cap == self.cap
                    &&& after.log == self.log
                    &&& after.senders == self.senders
                    &&& !after.first
                    &&& after.receivers == if self.first {
                        self.receivers.register(task)
                    } else if self.receivers.from_me > 0 {
                        self.receivers.answer().register(task)
                    } else {
                        self.receivers
                    }
                }
                &&& self.poll_registers() <==> waits && (self.first || self.receivers.from_me > 0)
                &&& waits && !self.poll_registers() ==> after == self
            }),
    {
    }

    /// What closing changes: the channel is closed, and all who wait are notified; the messages stay.
    /// What is closed already stays as it is.
    pub proof fn law_what_closing_changes(self)
        ensures
            ({
                let after = self.after_shutdown();
                &&& after.log.closed
                &&& after.log.cells == self.log.cells
                &&& after.log.head == self.log.head
                &&& after.cap == self.cap
                &&& after.first == self.first
                &&& after.senders == if self.log.closed {
                    self.senders
                } else {
                    self.senders.wake_all()
                }
                &&& after.receivers == if self.log.closed {
                    self.receivers
                } else {
                    self.receivers.wake_all()
                }
            }),
    {
    }

    /// Taking the record of the notified tasks changes that record alone.
    pub proof fn law_what_taking_the_record_changes(self)
        ensures
            ({
                let after = self.after_take_notified();
                &&& after.cap == self.cap
                &&& after.log == self.log
                &&& after.first == self.first
                &&& after.senders == self.senders.hand_out()
                &&& after.receivers == self.receivers.hand_out()
            }),
    {
    }

    /// How claims end. A send gets the next slot where the channel is closed, or where the message
    /// that was in the slot before, if there was one, has left it. It gets none where the channel is
    /// full of messages that are there. A receive gets the next message where it is there, or the
    /// news that there will be none.
    pub proof fn law_how_claims_end(self)
        requires
            self.log.head <= self.log.cells.len(),
            0 < self.cap,
        ensures
            ({
                let tail = self.log.cells.len() as int;
                let free = tail < self.cap || self.log.cells[tail - self.cap] is Read;
                &&& self.send_claim() == Claim::Ready <==> self.log.closed || free
                &&& self.send_claim() == Claim::NotReady <==> !self.log.closed && !free && tail
                    == self.log.head + self.cap && self.log.cells[tail - self.cap] is Full
                &&& self.recv_claim() == Claim::Ready <==> if tail > self.log.head {
                    self.log.cells[self.log.head as int] is Full
                } else {
                    free && self.log.closed
                }
                &&& self.recv_claim() == Claim::NotReady <==> tail == self.log.head && free
                    && !self.log.closed
            }),
    {
    }

    /// With nothing under way no claim has to be tried again.
    pub proof fn law_nothing_to_retry_at_rest(self)
        requires
            self.log.settled(),
            0 < self.cap,
            self.log.cells.len() <= self.log.head + self.cap,
        ensures
            self.send_claim() != Claim::Retry,
            self.recv_claim() != Claim::Retry,
    {
    }

    /// What reading a claimed message gives and changes; a claim that found the end gives nothing.
    pub proof fn law_what_reading_gives(self, target: Option<nat>)
        ensures
            target matches Some(p) ==> {
                &&& self.read_result(target) == Ok::<T, ()>(self.log.message(p as int))
                &&& self.after_read(target).log == self.log.read(p)
                &&& self.after_read(target).senders == self.senders.wake()
                &&& self.after_read(target).receivers == self.receivers
                &&& self.after_read(target).first == self.first
                &&& self.after_read(target).cap == self.cap
            },
            target is None ==> self.read_result(target) is Err && self.after_read(target) == self,
    {
    }

    /// Of a closed channel the stream ends: the messages that wait come in order, then
    /// the end, for every poll from then on.
    pub proof fn law_closed_stream_ends(self, n: nat, task: u64)
        requires
            self.log.settled(),
            self.log.closed,
        ensures
            self.run(polls(n, task)).poll_result() == if n < self.log.queue().len() {
                Async::Ready(Some(self.log.queue()[n as int]))
            } else {
                Async::Ready(None::<T>)
            },
        decreases n,
    {
        self.lemma_polled(n, task);
        let rest = self.run(polls(n, task)).log;
        assert(rest.queue().len() == rest.len());
    }

    /// The channel after `n` polls.
    proof fn lemma_polled(self, n: nat, task: u64)
        requires
            self.log.settled(),
            self.log.closed,
        ensures
            self.run(polls(n, task)).log.settled(),
            self.run(polls(n, task)).log.closed,
            self.run(polls(n, task)).log.queue() == if n < self.log.queue().len() {
                self.log.queue().subrange(n as int, self.log.queue().len() as int)
            } else {
                Seq::empty()
            },
        decreases n,
    {
        let whole = self.log.queue();
        if n == 0 {
            assert(whole =~= whole.subrange(0, whole.len() as int));
            assert(whole.len() == 0 ==> whole =~= Seq::empty());
        } else {
            let m = (n - 1) as nat;
            self.lemma_polled(m, task);
            assert(polls::<T>(n, task).drop_last() =~= polls(m, task));
            let chan = self.run(polls(m, task));
            assert(chan.log.queue().len() == chan.log.len());
            if chan.log.len() > 0 {
                law_recv_takes_the_first(chan.log);
            }
            assert(self.run(polls(n, task)).log.queue() =~= if n < whole.len() {
                whole.subrange(n as int, whole.len() as int)
            } else {
                Seq::empty()
            });
        }
    }

    /// Only shutting down closes a channel: without it the channel is open after any operations
    /// exactly where it was open before.
    pub proof fn law_only_shutdown_closes(self, steps: Seq<Step<T>>)
        requires
            forall|i: int| 0 <= i < steps.len() ==> !(#[trigger] steps[i] is Shutdown),
        ensures
            self.run(steps).log.closed == self.log.closed,
        decreases steps.len(),
    {
        if steps.len() > 0 {
            let rest = steps.drop_last();
            assert forall|i: int| 0 <= i < rest.len() implies !(#[trigger] rest[i] is Shutdown) by {
                assert(rest[i] == steps[i]);
            }
            self.law_only_shutdown_closes(rest);
            assert(!(steps[steps.len() - 1] is Shutdown));
        }
    }
}

impl<T> Unbounded<T> {
    /// A new channel is open and empty, and nobody waits on it.
    pub proof fn law_starts_open_and_empty()
        ensures
            Unbounded::<T>::initial().log == Log::<T>::initial(),
            Unbounded::<T>::initial().receivers == WaitingTasks::initial(),
            Unbounded::<T>::initial().first,
    {
    }

    /// What a send changes: on an open channel the message is in the channel and a receiver is woken;
    /// a closed channel stays as it is.
    pub proof fn law_what_a_send_changes(self, msg: T)
        requires
            self.log.head <= self.log.cells.len(),
        ensures
            ({
                let after = self.after_send(msg);
                &&& after.first == self.first
                &&& after.log.closed == self.log.closed
                &&& after.log.head == self.log.head
                &&& after.log.cells == if !self.log.closed {
                    self.log.cells.push(Cell::Full(msg))
                } else {
                    self.log.cells
                }
                &&& after.receivers == if !self.log.closed {
                    self.receivers.wake()
                } else {
                    self.receivers
                }
            }),
    {
        self.log.law_whole_operations(msg);
    }

    /// A receive can be made at once exactly where no message is to come first.
    pub proof fn law_when_a_receive_can_be_made(self)
        requires
            self.log.head <= self.log.cells.len(),
        ensures
            self.recv_ready() <==> self.log.head == self.log.cells.len()
                || self.log.cells[self.log.head as int] is Full,
            self.log.settled() ==> self.recv_ready(),
    {
    }

    /// A receive returns the first message where there is one. Without a message, it says that there
    /// will be none exactly where the channel is closed.
    pub proof fn law_receive_answers(self)
        requires
            self.log.head <= self.log.cells.len(),
        ensures
            self.log.queue().len() > 0 ==> self.try_recv_result() == Ok::<T, TryRecvError>(
                self.log.queue()[0],
            ),
            self.try_recv_result() is Ok <==> self.log.queue().len() > 0,
            self.try_recv_result() == Err::<T, TryRecvError>(TryRecvError::Disconnected)
                <==> self.log.closed && self.log.queue().len() == 0,
            self.try_recv_result() == Err::<T, TryRecvError>(TryRecvError::Empty)
                <==> !self.log.closed && self.log.queue().len() == 0,
    {
    }

    /// A poll answers as a receive does: a message where that has one, the end where that is
    /// disconnected, and not ready where that is empty.
    pub proof fn law_poll_answers(self)
        requires
            self.log.head <= self.log.cells.len(),
        ensures
            self.log.queue().len() > 0 ==> self.poll_result() == Async::Ready(
                Some(self.log.queue()[0]),
            ),
            self.poll_result() == Async::Ready(None::<T>) <==> self.log.closed
                && self.log.queue().len() == 0,
            self.poll_result() is NotReady <==> !self.log.closed && self.log.queue().len() == 0,
            self.poll_result() is NotReady <==> self.try_recv_result() == Err::<T, TryRecvError>(
                TryRecvError::Empty,
            ),
    {
    }

    /// What a receive changes: it takes the first message, or changes nothing.
    pub proof fn law_what_a_receive_changes(self)
        requires
            self.log.head <= self.log.cells.len(),
        ensures
            ({
                let after = self.after_try_recv();
                let some = self.log.queue().len() > 0;
                &&& after.first == self.first
                &&& after.receivers == self.receivers
                &&& after.log.closed == self.log.closed
                &&& after.log.head == if some {
                    self.log.head + 1
                } else {
                    self.log.head
                }
                &&& after.log.cells == if some {
                    self.log.cells.update(self.log.head as int, Cell::Read(self.log.queue()[0]))
                } else {
                    self.log.cells
                }
            }),
    {
    }

    /// What a poll changes: with a message or at the end it is a receive. Else its task waits, if no
    /// poll has waited before or a notification is there to be answered; and nothing else changes.
    pub proof fn law_what_a_poll_changes(self, task: u64)
        requires
            self.log.head <= self.log.cells.len(),
        ensures
            ({
                let after = self.after_poll(task);
                let waits = !self.log.closed && self.log.queue().len() == 0;
                &&& !waits ==> after == self.after_try_recv()
                &&& waits ==> {
                        &&& after.log == self.log
                    &&& !after.first
                    &&& after.receivers == if self.first {
                        self.receivers.register(task)
                    } else if self.receivers.from_me > 0 {
                        self.receivers.answer().register(task)
                    } else {
                        self.receivers
                    }
                }
                &&& self.poll_registers() <==> waits && (self.first || self.receivers.from_me > 0)
                &&& waits && !self.poll_registers() ==> after == self
            }),
    {
    }

    /// What closing changes: the channel is closed, and all who wait are notified; the messages stay.
    /// What is closed already stays as it is.
    pub proof fn law_what_closing_changes(self)
        ensures
            ({
                let after = self.after_shutdown();
                &&& after.log.closed
                &&& after.log.cells == self.log.cells
                &&& after.log.head == self.log.head
                &&& after.first == self.first
                &&& after.receivers == if self.log.closed {
                    self.receivers
                } else {
                    self.receivers.wake_all()
                }
            }),
    {
    }

    /// Taking the record of the notified tasks changes that record alone.
    pub proof fn law_what_taking_the_record_changes(self)
        ensures
            ({
                let after = self.after_take_notified();
                &&& after.log == self.log
                &&& after.first == self.first
                &&& after.receivers == self.receivers.hand_out()
            }),
    {
    }

    /// What reading a claimed message gives and changes; a claim that found the end gives nothing.
    pub proof fn law_what_reading_gives(self, target: Option<nat>)
        ensures
            target matches Some(p) ==> {
                &&& self.read_result(target) == Ok::<T, ()>(self.log.message(p as int))
                &&& self.after_read(target).log == self.log.read(p)
                &&& self.after_read(target).receivers == self.receivers
                &&& self.after_read(target).first == self.first
            },
            target is None ==> self.read_result(target) is Err && self.after_read(target) == self,
    {
    }

    /// Of a closed channel the stream ends: the messages that wait come in order, then
    /// the end, for every poll from then on.
    pub proof fn law_closed_stream_ends(self, n: nat, task: u64)
        requires
            self.log.settled(),
            self.log.closed,
        ensures
            self.run(polls(n, task)).poll_result() == if n < self.log.queue().len() {
                Async::Ready(Some(self.log.queue()[n as int]))
            } else {
                Async::Ready(None::<T>)
            },
        decreases n,
    {
        self.lemma_polled(n, task);
        let rest = self.run(polls(n, task)).log;
        assert(rest.queue().len() == rest.len());
    }

    /// The channel after `n` polls.
    proof fn lemma_polled(self, n: nat, task: u64)
        requires
            self.log.settled(),
            self.log.closed,
        ensures
            self.run(polls(n, task)).log.settled(),
            self.run(polls(n, task)).log.closed,
            self.run(polls(n, task)).log.queue() == if n < self.log.queue().len() {
                self.log.queue().subrange(n as int, self.log.queue().len() as int)
            } else {
                Seq::empty()
            },
        decreases n,
    {
        let whole = self.log.queue();
        if n == 0 {
            assert(whole =~= whole.subrange(0, whole.len() as int));
            assert(whole.len() == 0 ==> whole =~= Seq::empty());
        } else {
            let m = (n - 1) as nat;
            self.lemma_polled(m, task);
            assert(polls::<T>(n, task).drop_last() =~= polls(m, task));
            let chan = self.run(polls(m, task));
            assert(chan.log.queue().len() == chan.log.len());
            if chan.log.len() > 0 {
                law_recv_takes_the_first(chan.log);
            }
            assert(self.run(polls(n, task)).log.queue() =~= if n < whole.len() {
                whole.subrange(n as int, whole.len() as int)
            } else {
                Seq::empty()
            });
        }
    }

    /// Only shutting down closes a channel: without it the channel is open after any operations
    /// exactly where it was open before.
    pub proof fn law_only_shutdown_closes(self, steps: Seq<Step<T>>)
        requires
            forall|i: int| 0 <= i < steps.len() ==> !(#[trigger] steps[i] is Shutdown),
        ensures
            self.run(steps).log.closed == self.log.closed,
        decreases steps.len(),
    {
        if steps.len() > 0 {
            let rest = steps.drop_last();
            assert forall|i: int| 0 <= i < rest.len() implies !(#[trigger] rest[i] is Shutdown) by {
                assert(rest[i] == steps[i]);
            }
            self.law_only_shutdown_closes(rest);
            assert(!(steps[steps.len() - 1] is Shutdown));
        }
    }
}

/// `n` times `poll`, by the task.
pub open spec fn polls<T>(n: nat, task: u64) -> Seq<Step<T>> {
    Seq::new(n, |i: int| Step::Poll { task })
}

impl WaitingTasks {
    /// At first nobody waits, and nothing is owed.
    pub proof fn law_starts_with_nobody()
        ensures
            WaitingTasks::initial().queue.len() == 0,
            WaitingTasks::initial().notified.len() == 0,
            WaitingTasks::initial().waiting == 0,
            WaitingTasks::initial().from_me == 0,
    {
    }

    /// The counts go up by one at a time, and start again after the largest number.
    pub proof fn law_counts_go_round(x: usize, n: nat)
        ensures
            wrapping_plus(x, 0) == x,
            x < usize::MAX ==> wrapping_plus(x, 1) == x + 1,
            x == usize::MAX ==> wrapping_plus(x, 1) == 0,
            wrapping_plus(x, n + 1) == wrapping_plus(wrapping_plus(x, n), 1),
    {
        lemma_wrapping_plus(x, n, 1);
    }

    /// A task that comes to wait: where the queue is full it is notified at once; where a wake-up is
    /// owed the first one is, and one less is owed; else it waits as the last one.
    pub proof fn law_what_coming_to_wait_changes(self, task: u64)
        ensures
            ({
                let after = self.register(task);
                let queue = self.queue.push(task);
                if self.queue.len() >= 4 {
                    &&& after.queue == self.queue
                    &&& after.waiting == self.waiting
                    &&& after.notified == self.notified.push(task)
                    &&& after.from_me == wrapping_plus(self.from_me, 1)
                } else if self.waiting > 0 {
                    &&& after.queue == queue.drop_first()
                    &&& after.waiting == self.waiting - 1
                    &&& after.notified == self.notified.push(queue[0])
                    &&& after.from_me == wrapping_plus(self.from_me, 1)
                } else {
                    &&& after.queue == queue
                    &&& after.waiting == self.waiting
                    &&& after.notified == self.notified
                    &&& after.from_me == self.from_me
                }
            }),
    {
    }

    /// A wake-up: the first one in the queue is notified; with nobody there it is owed.
    pub proof fn law_what_a_wake_up_changes(self)
        ensures
            ({
                let after = self.wake();
                if self.queue.len() > 0 {
                    &&& after.queue == self.queue.drop_first()
                    &&& after.waiting == self.waiting
                    &&& after.notified == self.notified.push(self.queue[0])
                    &&& after.from_me == wrapping_plus(self.from_me, 1)
                } else {
                    &&& after.queue == self.queue
                    &&& after.waiting == wrapping_plus(self.waiting, 1)
                    &&& after.notified == self.notified
                    &&& after.from_me == self.from_me
                }
            }),
    {
    }

    /// Waking all is waking one after the other until nobody is left.
    pub proof fn law_waking_all_is_waking_each(self)
        ensures
            self.queue.len() == 0 ==> self.wake_all() == self,
            self.queue.len() > 0 ==> self.wake_all() == self.wake().wake_all(),
            self.wake_all().queue.len() == 0,
            self.wake_all().waiting == self.waiting,
            self.wake_all().notified == self.notified + self.queue,
    {
        lemma_wrapping_plus(self.from_me, 0, 0);
        if self.queue.len() > 0 {
            lemma_wrapping_plus(self.from_me, 1, (self.queue.len() - 1) as nat);
            assert(self.wake().wake_all().notified =~= self.wake_all().notified);
        } else {
            assert(self.wake_all().notified =~= self.notified);
            assert(self.wake_all().queue =~= self.queue);
        }
    }

    /// An answer takes one notification off those that are unanswered; handing out takes the record
    /// of the notified tasks; neither changes who waits or what is owed.
    pub proof fn law_what_answers_and_handing_out_change(self)
        ensures
            self.answer().queue == self.queue,
            self.answer().waiting == self.waiting,
            self.answer().notified == self.notified,
            self.from_me > 0 ==> self.answer().from_me == self.from_me - 1,
            self.from_me == 0 ==> self.answer().from_me == 0,
            self.hand_out().queue == self.queue,
            self.hand_out().waiting == self.waiting,
            self.hand_out().from_me == self.from_me,
            self.hand_out().notified.len() == 0,
    {
    }
}

} // verus!
