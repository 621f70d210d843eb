//! What holds of the channels as a whole, whatever happens to them.
use crate::array::{Bounded, Claim};
use crate::atomic_serial_waker::{wrapping_plus, WaitingTasks, MAX_WAITING_TASKS};
use crate::error::{RecvTimeoutError, SendTimeoutError};
use crate::list::Unbounded;
use crate::log::{Cell, Log};
use crate::zero::{first_other, Blocking, Place, Rendezvous};
use futures::Async;
use std::sync::mpsc::TryRecvError;
use vstd::prelude::*;

verus! {

/// One operation on a channel, from beginning to end.
pub enum Step<T> {
    /// `try_send` or `sink_start_send` of a message, by a task.
    Send { msg: T, task: u64 },
    /// `send` of a message.
    SendUntil { msg: T },
    /// `try_recv`.
    Recv,
    /// `poll`, by a task.
    Poll { task: u64 },
    /// `shutdown`.
    Shutdown,
    /// `take_notified`.
    TakeNotified,
}

/// One call on the tasks that wait on one side of a channel.
pub enum TaskCall {
    /// `register` of a task.
    Register { task: u64 },
    /// `wake`.
    Wake,
    /// `wake_all`.
    WakeAll,
    /// `answer`.
    Answer,
    /// `take_notified`.
    TakeNotified,
}

/// `n` times `try_recv`.
pub open spec fn receives<T>(n: nat) -> Seq<Step<T>> {
    Seq::new(n, |i: int| Step::Recv)
}

/// What is sent comes in order: the messages received and those that still wait, one after the
/// other, are the messages sent.
pub proof fn law_sent_is_received_then_queued<T>(log: Log<T>)
    requires
        log.head <= log.tail(),
    ensures
        log.sent() == log.received() + log.queue(),
{
    assert(log.sent() =~= log.received() + log.queue());
}

/// A send adds its message to the end of the messages that wait, and changes nothing else.
pub proof fn law_send_appends<T>(log: Log<T>, msg: T)
    requires
        log.settled(),
    ensures
        log.send(msg).settled(),
        log.send(msg).closed == log.closed,
        log.send(msg).sent() == log.sent().push(msg),
        log.send(msg).received() == log.received(),
        log.send(msg).queue() == log.queue().push(msg),
{
    assert(log.send(msg).sent() =~= log.sent().push(msg));
    assert(log.send(msg).received() =~= log.received());
    assert(log.send(msg).queue() =~= log.queue().push(msg));
}

/// A receive takes the first of the messages that wait, and changes nothing else.
pub proof fn law_recv_takes_the_first<T>(log: Log<T>)
    requires
        log.settled(),
        log.len() > 0,
    ensures
        log.recv().settled(),
        log.recv().closed == log.closed,
        log.recv().sent() == log.sent(),
        log.recv().received() == log.received().push(log.queue()[0]),
        log.recv().queue() == log.queue().drop_first(),
{
    assert(log.recv().sent() =~= log.sent());
    assert(log.recv().received() =~= log.received().push(log.queue()[0]));
    assert(log.recv().queue() =~= log.queue().drop_first());
}

/// However sends and receives are interleaved, a message that has arrived at its position stays
/// what it is.
pub proof fn law_messages_are_kept<T>(log: Log<T>, p: int, q: nat, msg: T)
    requires
        0 <= p < log.tail(),
        !(log.cells[p] is Writing),
        q < log.tail(),
    ensures
        log.claim_send().message(p) == log.message(p),
        log.claim_recv().message(p) == log.message(p),
        log.read(q).message(p) == log.message(p),
        log.cells[q as int] is Writing ==> log.write(q, msg).message(p) == log.message(p),
        log.close().message(p) == log.message(p),
{
}

/// A message is at its position from its arrival on until it leaves, and then it is gone: it is not
/// there to be read a second time.
pub proof fn law_written_once_read_once<T>(log: Log<T>, p: nat, msg: T)
    requires
        p < log.tail(),
    ensures
        log.write(p, msg).cells[p as int] == Cell::Full(msg),
        log.write(p, msg).message(p as int) == msg,
        log.write(p, msg).read(p).cells[p as int] == Cell::Read(msg),
{
}

impl<T> Bounded<T> {
    /// The channel after one operation.
    pub open spec fn step(self, step: Step<T>) -> Bounded<T> {
        match step {
            Step::Send { msg, task } => self.after_try_send(msg, task),
            Step::SendUntil { msg } => self.after_send(msg),
            Step::Recv => self.after_try_recv(),
            Step::Poll { task } => self.after_poll(task),
            Step::Shutdown => self.after_shutdown(),
            Step::TakeNotified => self.after_take_notified(),
        }
    }

    /// The channel after operations one after the other.
    pub open spec fn run(self, steps: Seq<Step<T>>) -> Bounded<T>
        decreases steps.len(),
    {
        if steps.len() == 0 {
            self
        } else {
            self.run(steps.drop_last()).step(steps.last())
        }
    }

    /// The messages that were sent successfully by the operations.
    pub open spec fn accepted(self, steps: Seq<Step<T>>) -> Seq<T>
        decreases steps.len(),
    {
        if steps.len() == 0 {
            Seq::empty()
        } else {
            let before = self.accepted(steps.drop_last());
            match steps.last() {
                Step::Send { msg, task } => if self.run(steps.drop_last()).try_send_result(
                    msg,
                ) is Ok {
                    before.push(msg)
                } else {
                    before
                },
                Step::SendUntil { msg } => if self.run(steps.drop_last()).send_result(
                    msg,
                    false,
                ) is Sent {
                    before.push(msg)
                } else {
                    before
                },
                _ => before,
            }
        }
    }

    /// The messages that the operations returned.
    pub open spec fn delivered(self, steps: Seq<Step<T>>) -> Seq<T>
        decreases steps.len(),
    {
        if steps.len() == 0 {
            Seq::empty()
        } else {
            let before = self.delivered(steps.drop_last());
            let chan = self.run(steps.drop_last());
            match steps.last() {
                Step::Recv => match chan.try_recv_result() {
                    Ok(msg) => before.push(msg),
                    Err(_) => before,
                },
                Step::Poll { task } => match chan.poll_result() {
                    Async::Ready(Some(msg)) => before.push(msg),
                    _ => before,
                },
                _ => before,
            }
        }
    }

    /// First in, first out: what has been sent successfully is what has been returned, followed by
    /// what waits in the channel, and no more waits than the capacity.
    pub proof fn law_first_in_first_out(self, steps: Seq<Step<T>>)
        requires
            self.wf(),
            self.log.settled(),
        ensures
            self.run(steps).wf(),
            self.run(steps).log.settled(),
            self.run(steps).cap == self.cap,
            self.run(steps).log.len() <= self.cap,
            self.log.queue() + self.accepted(steps) == self.delivered(steps) + self.run(
                steps,
            ).log.queue(),
        decreases steps.len(),
    {
        if steps.len() == 0 {
            assert(self.log.queue() + self.accepted(steps) =~= self.delivered(steps)
                + self.log.queue());
        } else {
            let rest = steps.drop_last();
            self.law_first_in_first_out(rest);
            let chan = self.run(rest);
            let waiting = chan.log.queue();
            let returned = self.delivered(rest);
            assert(chan.log.close().queue() =~= waiting);
            if let Step::Send { msg, task } = steps.last() {
                law_send_appends(chan.log, msg);
                assert(self.log.queue() + self.accepted(rest).push(msg) =~= (self.log.queue()
                    + self.accepted(rest)).push(msg));
                assert(returned + waiting.push(msg) =~= (returned + waiting).push(msg));
            }
            if let Step::SendUntil { msg } = steps.last() {
                law_send_appends(chan.log, msg);
                assert(self.log.queue() + self.accepted(rest).push(msg) =~= (self.log.queue()
                    + self.accepted(rest)).push(msg));
                assert(returned + waiting.push(msg) =~= (returned + waiting).push(msg));
            }
            if chan.log.len() > 0 {
                law_recv_takes_the_first(chan.log);
                assert(returned.push(waiting[0]) + waiting.drop_first() =~= returned + waiting);
            }
        }
    }

    /// A send fails exactly on a channel that is closed or full, and hands the message back; no
    /// message enters the channel then.
    pub proof fn law_refused_send(self, msg: T, task: u64)
        ensures
            self.try_send_result(msg) is Err <==> self.log.closed || self.is_full(),
            self.try_send_result(msg) matches Err(e) ==> {
                &&& e.value == msg
                &&& e.kind is Closed <==> self.log.closed
                &&& self.after_try_send(msg, task).log == self.log
            },
    {
    }

    /// A closed channel stays closed, whatever happens to it, and no send into it succeeds.
    pub proof fn law_closed_for_good(self, steps: Seq<Step<T>>)
        requires
            self.log.closed,
        ensures
            self.run(steps).log.closed,
            self.accepted(steps).len() == 0,
        decreases steps.len(),
    {
        if steps.len() > 0 {
            self.law_closed_for_good(steps.drop_last());
        }
    }

    /// Of a closed channel, the messages that wait can still be received, one after the other in
    /// their order; then receives fail.
    pub proof fn law_closed_channel_drains(self, n: nat)
        requires
            self.log.settled(),
            self.log.closed,
        ensures
            self.run(receives(n)).try_recv_result() == if n < self.log.len() {
                Ok::<T, TryRecvError>(self.log.queue()[n as int])
            } else {
                Err::<T, TryRecvError>(TryRecvError::Disconnected)
            },
    {
        self.lemma_drained(n);
        let rest = self.run(receives(n)).log;
        assert(rest.queue().len() == rest.len());
        assert(self.log.queue().len() == self.log.len());
    }

    /// The channel after `n` receives.
    proof fn lemma_drained(self, n: nat)
        requires
            self.log.settled(),
        ensures
            self.run(receives(n)).log.settled(),
            self.run(receives(n)).log.closed == self.log.closed,
            self.run(receives(n)).log.queue() == if n < self.log.len() {
                self.log.queue().subrange(n as int, self.log.len() as int)
            } else {
                Seq::empty()
            },
        decreases n,
    {
        let whole = self.log.queue();
        if n == 0 {
            assert(whole =~= whole.subrange(0, whole.len() as int));
            assert(whole.len() == 0 ==> whole =~= Seq::empty());
        } else {
            let m = (n - 1) as nat;
            self.lemma_drained(m);
            assert(receives::<T>(n).drop_last() =~= receives(m));
            let chan = self.run(receives(m));
            assert(chan.log.queue().len() == chan.log.len());
            if chan.log.len() > 0 {
                law_recv_takes_the_first(chan.log);
            }
            assert(self.run(receives(n)).log.queue() =~= if n < whole.len() {
                whole.subrange(n as int, whole.len() as int)
            } else {
                Seq::empty()
            });
        }
    }

    /// Reading for a poll is reading: it ends where `read` fails, gives the message that `read` gives,
    /// and is always ready.
    pub proof fn law_poll_read_agrees_with_read(self, target: Option<nat>, msg: T)
        ensures
            self.poll_read_result(target) matches Ok(poll) && poll is Ready,
            self.poll_read_result(target) == Ok::<Async<Option<T>>, ()>(Async::Ready(None))
                <==> self.read_result(target) is Err,
            self.poll_read_result(target) == Ok::<Async<Option<T>>, ()>(Async::Ready(Some(msg)))
                <==> self.read_result(target) == Ok::<T, ()>(msg),
            target is None ==> self.after_read(target) == self,
    {
    }

    /// Closing is done once: a second time it changes nothing.
    pub proof fn law_shutdown_once(self)
        ensures
            self.after_shutdown().log.closed,
            self.after_shutdown().after_shutdown() == self.after_shutdown(),
            self.after_shutdown().log.queue() == self.log.queue(),
    {
        assert(self.after_shutdown().log.queue() =~= self.log.queue());
    }

    /// Closing leaves no task waiting: all of them are notified.
    pub proof fn law_shutdown_notifies_all(self)
        requires
            !self.log.closed,
        ensures
            self.after_shutdown().senders.queue.len() == 0,
            self.after_shutdown().receivers.queue.len() == 0,
            self.after_shutdown().senders.notified == self.senders.notified + self.senders.queue,
            self.after_shutdown().receivers.notified == self.receivers.notified
                + self.receivers.queue,
    {
    }

    /// Somebody will poll the channel again: a task waits, or one has been notified and has not
    /// answered yet. Before the first poll there is no one to wait.
    pub open spec fn watched(self) -> bool {
        !self.first ==> self.receivers.queue.len() > 0 || self.receivers.from_me > 0
    }

    /// A channel that has been polled stays watched, whatever happens to it, as long as the count
    /// of unanswered notifications does not overflow.
    pub proof fn law_polled_channel_is_watched(self, step: Step<T>)
        requires
            self.watched(),
            self.receivers.queue.len() <= MAX_WAITING_TASKS,
            self.receivers.from_me + MAX_WAITING_TASKS <= usize::MAX,
        ensures
            self.step(step).watched(),
            self.step(step).receivers.queue.len() <= MAX_WAITING_TASKS,
    {
        self.receivers.lemma_counts();
        self.receivers.answer().lemma_counts();
    }

    /// A poll that finds an open channel empty, for the first time, is not forgotten: the next send
    /// has its task notified.
    pub proof fn law_waiting_poll_is_notified(self, task: u64, msg: T)
        requires
            !self.log.closed,
            self.log.len() == 0,
            self.cap > 0,
            self.first,
            self.receivers.queue.len() == 0,
        ensures
            self.poll_result() == Async::<Option<T>>::NotReady,
            self.after_poll(task).after_try_send(msg, task).receivers.notified.contains(task),
    {
        let tasks = self.receivers;
        assert(tasks.queue.push(task)[0] == task);
        let polled = tasks.register(task);
        if tasks.waiting > 0 {
            assert(polled.notified == tasks.notified.push(task));
            assert(polled.notified[tasks.notified.len() as int] == task);
            let woken = polled.wake();
            assert(woken.notified[tasks.notified.len() as int] == task);
        } else {
            assert(polled.queue =~= seq![task]);
            let woken = polled.wake();
            assert(woken.notified[tasks.notified.len() as int] == task);
        }
    }

    /// What the operations mean for the tasks that wait to send.
    pub open spec fn sender_calls(self, steps: Seq<Step<T>>) -> Seq<TaskCall>
        decreases steps.len(),
    {
        if steps.len() == 0 {
            Seq::empty()
        } else {
            let before = self.sender_calls(steps.drop_last());
            let chan = self.run(steps.drop_last());
            match steps.last() {
                Step::Send { msg, task } => if chan.send_registers() {
                    before.push(TaskCall::Register { task })
                } else {
                    before
                },
                Step::SendUntil { msg } => before,
                Step::Recv => if chan.log.len() > 0 {
                    before.push(TaskCall::Wake)
                } else {
                    before
                },
                Step::Poll { task } => if chan.log.len() > 0 {
                    before.push(TaskCall::Wake)
                } else {
                    before
                },
                Step::Shutdown => if chan.log.closed {
                    before
                } else {
                    before.push(TaskCall::WakeAll)
                },
                Step::TakeNotified => before.push(TaskCall::TakeNotified),
            }
        }
    }

    /// The tasks that wait to send are woken by the receives.
    proof fn lemma_sender_calls(self, steps: Seq<Step<T>>)
        ensures
            self.run(steps).senders == self.senders.run(self.sender_calls(steps)),
            WaitingTasks::wakes(self.sender_calls(steps)) == self.delivered(steps).len(),
        decreases steps.len(),
    {
        if steps.len() > 0 {
            let rest = steps.drop_last();
            self.lemma_sender_calls(rest);
            let before = self.sender_calls(rest);
            let calls = self.sender_calls(steps);
            assert(calls == before || calls.drop_last() =~= before);
        }
    }

    /// A task that waits for room is notified once as many messages have been received as there
    /// were tasks up to it, whatever else happens to the channel.
    pub proof fn law_waiting_sender_is_notified(self, steps: Seq<Step<T>>, k: int)
        requires
            0 <= k < self.senders.queue.len(),
            k < self.delivered(steps).len(),
        ensures
            self.run(steps).senders == self.senders.run(self.sender_calls(steps)),
            self.senders.told(self.sender_calls(steps)).contains(self.senders.queue[k]),
    {
        self.lemma_sender_calls(steps);
        self.senders.law_waiting_task_is_notified(self.sender_calls(steps), k);
    }

    /// A task that was refused for lack of room, with nobody waiting before it, is notified by the
    /// next receive at the latest.
    pub proof fn law_refused_sender_is_notified(self, msg: T, task: u64)
        requires
            self.wf(),
            self.send_registers(),
            self.senders.queue.len() == 0,
        ensures
            self.after_try_send(msg, task).after_try_recv().senders.notified.contains(task),
    {
        let tasks = self.senders;
        let refused = tasks.register(task);
        let woken = refused.wake();
        assert(tasks.queue.push(task)[0] == task);
        assert(woken.notified[tasks.notified.len() as int] == task);
    }

    /// Whether a send succeeds.
    pub open spec fn takes_send(self) -> bool {
        !self.log.closed && !self.is_full()
    }

    /// What the operations mean for the tasks that wait to receive.
    pub open spec fn receiver_calls(self, steps: Seq<Step<T>>) -> Seq<TaskCall>
        decreases steps.len(),
    {
        if steps.len() == 0 {
            Seq::empty()
        } else {
            let before = self.receiver_calls(steps.drop_last());
            let chan = self.run(steps.drop_last());
            match steps.last() {
                Step::Send { msg, task } => if chan.takes_send() {
                    before.push(TaskCall::Wake)
                } else {
                    before
                },
                Step::SendUntil { msg } => if chan.takes_send() {
                    before.push(TaskCall::Wake)
                } else {
                    before
                },
                Step::Recv => before,
                Step::Poll { task } => if !chan.poll_registers() {
                    before
                } else if chan.first {
                    before.push(TaskCall::Register { task })
                } else {
                    before.push(TaskCall::Answer).push(TaskCall::Register { task })
                },
                Step::Shutdown => if chan.log.closed {
                    before
                } else {
                    before.push(TaskCall::WakeAll)
                },
                Step::TakeNotified => before.push(TaskCall::TakeNotified),
            }
        }
    }

    /// The tasks that wait to receive are woken by the sends.
    proof fn lemma_receiver_calls(self, steps: Seq<Step<T>>)
        ensures
            self.run(steps).receivers == self.receivers.run(self.receiver_calls(steps)),
            WaitingTasks::wakes(self.receiver_calls(steps)) == self.accepted(steps).len(),
        decreases steps.len(),
    {
        reveal_with_fuel(WaitingTasks::run, 3);
        reveal_with_fuel(WaitingTasks::wakes, 3);
        if steps.len() > 0 {
            let rest = steps.drop_last();
            self.lemma_receiver_calls(rest);
            let before = self.receiver_calls(rest);
            let calls = self.receiver_calls(steps);
            if calls.len() == before.len() + 2 {
                assert(calls.drop_last() =~= before.push(TaskCall::Answer));
                assert(calls.drop_last().drop_last() =~= before);
            } else {
                assert(calls == before || calls.drop_last() =~= before);
            }
        }
    }

    /// A task that waits for a message is notified once as many messages have been sent as there
    /// were tasks up to it, whatever else happens to the channel.
    pub proof fn law_waiting_receiver_is_notified(self, steps: Seq<Step<T>>, k: int)
        requires
            0 <= k < self.receivers.queue.len(),
            k < self.accepted(steps).len(),
        ensures
            self.run(steps).receivers == self.receivers.run(self.receiver_calls(steps)),
            self.receivers.told(self.receiver_calls(steps)).contains(self.receivers.queue[k]),
    {
        self.lemma_receiver_calls(steps);
        self.receivers.law_waiting_task_is_notified(self.receiver_calls(steps), k);
    }

    /// A send that found a free slot can have it as long as no other send claims it: neither the
    /// moves of messages nor the claims of receives take it away.
    pub proof fn law_free_slot_stays_free(self, p: nat, msg: T)
        requires
            self.wf(),
            self.send_claim() == Claim::Ready,
            p < self.log.tail(),
        ensures
            self.log.cells[p as int] is Writing ==> (Bounded {
                log: self.log.write(p, msg),
                ..self
            }).send_claim() == Claim::Ready,
            self.log.cells[p as int] is Full ==> (Bounded {
                log: self.log.read(p),
                ..self
            }).send_claim() == Claim::Ready,
            (Bounded { log: self.log.claim_recv(), ..self }).send_claim() == Claim::Ready,
            (Bounded { log: self.log.close(), ..self }).send_claim() == Claim::Ready,
    {
    }

    /// A receive that found a message can have it as long as no other receive claims it: neither
    /// the moves of messages nor the claims of sends take it away.
    pub proof fn law_message_stays_there(self, p: nat, msg: T)
        requires
            self.wf(),
            self.log.len() > 0,
            self.recv_claim() == Claim::Ready,
            p < self.log.tail(),
        ensures
            (Bounded { log: self.log.claim_send(), ..self }).recv_claim() == Claim::Ready,
            self.log.cells[p as int] is Writing ==> (Bounded {
                log: self.log.write(p, msg),
                ..self
            }).recv_claim() == Claim::Ready,
            self.log.cells[p as int] is Full && p < self.log.head ==> (Bounded {
                log: self.log.read(p),
                ..self
            }).recv_claim() == Claim::Ready,
            (Bounded { log: self.log.close(), ..self }).recv_claim() == Claim::Ready,
    {
    }
}

impl<T> Unbounded<T> {
    /// The channel after one operation.
    pub open spec fn step(self, step: Step<T>) -> Unbounded<T> {
        match step {
            Step::Send { msg, task } => self.after_send(msg),
            Step::SendUntil { msg } => self.after_send(msg),
            Step::Recv => self.after_try_recv(),
            Step::Poll { task } => self.after_poll(task),
            Step::Shutdown => self.after_shutdown(),
            Step::TakeNotified => self.after_take_notified(),
        }
    }

    /// The channel after operations one after the other.
    pub open spec fn run(self, steps: Seq<Step<T>>) -> Unbounded<T>
        decreases steps.len(),
    {
        if steps.len() == 0 {
            self
        } else {
            self.run(steps.drop_last()).step(steps.last())
        }
    }

    /// The messages that were sent successfully by the operations.
    pub open spec fn accepted(self, steps: Seq<Step<T>>) -> Seq<T>
        decreases steps.len(),
    {
        if steps.len() == 0 {
            Seq::empty()
        } else {
            let before = self.accepted(steps.drop_last());
            match steps.last() {
                Step::Send { msg, task } => if self.run(steps.drop_last()).log.closed {
                    before
                } else {
                    before.push(msg)
                },
                Step::SendUntil { msg } => if self.run(steps.drop_last()).log.closed {
                    before
                } else {
                    before.push(msg)
                },
                _ => before,
            }
        }
    }

    /// The messages that the operations returned.
    pub open spec fn delivered(self, steps: Seq<Step<T>>) -> Seq<T>
        decreases steps.len(),
    {
        if steps.len() == 0 {
            Seq::empty()
        } else {
            let before = self.delivered(steps.drop_last());
            let chan = self.run(steps.drop_last());
            match steps.last() {
                Step::Recv => match chan.try_recv_result() {
                    Ok(msg) => before.push(msg),
                    Err(_) => before,
                },
                Step::Poll { task } => match chan.poll_result() {
                    Async::Ready(Some(msg)) => before.push(msg),
                    _ => before,
                },
                _ => before,
            }
        }
    }

    /// First in, first out: what has been sent successfully is what has been returned, followed by
    /// what waits in the channel.
    pub proof fn law_first_in_first_out(self, steps: Seq<Step<T>>)
        requires
            self.log.settled(),
        ensures
            self.run(steps).log.settled(),
            self.log.queue() + self.accepted(steps) == self.delivered(steps) + self.run(
                steps,
            ).log.queue(),
        decreases steps.len(),
    {
        if steps.len() == 0 {
            assert(self.log.queue() + self.accepted(steps) =~= self.delivered(steps)
                + self.log.queue());
        } else {
            let rest = steps.drop_last();
            self.law_first_in_first_out(rest);
            let chan = self.run(rest);
            let waiting = chan.log.queue();
            let returned = self.delivered(rest);
            assert(chan.log.close().queue() =~= waiting);
            if let Step::Send { msg, task } = steps.last() {
                law_send_appends(chan.log, msg);
                assert(self.log.queue() + self.accepted(rest).push(msg) =~= (self.log.queue()
                    + self.accepted(rest)).push(msg));
                assert(returned + waiting.push(msg) =~= (returned + waiting).push(msg));
            }
            if let Step::SendUntil { msg } = steps.last() {
                law_send_appends(chan.log, msg);
                assert(self.log.queue() + self.accepted(rest).push(msg) =~= (self.log.queue()
                    + self.accepted(rest)).push(msg));
                assert(returned + waiting.push(msg) =~= (returned + waiting).push(msg));
            }
            if chan.log.len() > 0 {
                law_recv_takes_the_first(chan.log);
                assert(returned.push(waiting[0]) + waiting.drop_first() =~= returned + waiting);
            }
        }
    }

    /// A closed channel stays closed, whatever happens to it, and no send into it succeeds.
    pub proof fn law_closed_for_good(self, steps: Seq<Step<T>>)
        requires
            self.log.closed,
        ensures
            self.run(steps).log.closed,
            self.accepted(steps).len() == 0,
        decreases steps.len(),
    {
        if steps.len() > 0 {
            self.law_closed_for_good(steps.drop_last());
        }
    }

    /// Of a closed channel, the messages that wait can still be received, one after the other in
    /// their order; then receives fail.
    pub proof fn law_closed_channel_drains(self, n: nat)
        requires
            self.log.settled(),
            self.log.closed,
        ensures
            self.run(receives(n)).try_recv_result() == if n < self.log.len() {
                Ok::<T, TryRecvError>(self.log.queue()[n as int])
            } else {
                Err::<T, TryRecvError>(TryRecvError::Disconnected)
            },
    {
        self.lemma_drained(n);
        let rest = self.run(receives(n)).log;
        assert(rest.queue().len() == rest.len());
        assert(self.log.queue().len() == self.log.len());
    }

    /// The channel after `n` receives.
    proof fn lemma_drained(self, n: nat)
        requires
            self.log.settled(),
        ensures
            self.run(receives(n)).log.settled(),
            self.run(receives(n)).log.closed == self.log.closed,
            self.run(receives(n)).log.queue() == if n < self.log.len() {
                self.log.queue().subrange(n as int, self.log.len() as int)
            } else {
                Seq::empty()
            },
        decreases n,
    {
        let whole = self.log.queue();
        if n == 0 {
            assert(whole =~= whole.subrange(0, whole.len() as int));
            assert(whole.len() == 0 ==> whole =~= Seq::empty());
        } else {
            let m = (n - 1) as nat;
            self.lemma_drained(m);
            assert(receives::<T>(n).drop_last() =~= receives(m));
            let chan = self.run(receives(m));
            assert(chan.log.queue().len() == chan.log.len());
            if chan.log.len() > 0 {
                law_recv_takes_the_first(chan.log);
            }
            assert(self.run(receives(n)).log.queue() =~= if n < whole.len() {
                whole.subrange(n as int, whole.len() as int)
            } else {
                Seq::empty()
            });
        }
    }

    /// Reading for a poll is reading: it ends where `read` fails, gives the message that `read` gives,
    /// and is always ready.
    pub proof fn law_poll_read_agrees_with_read(self, target: Option<nat>, msg: T)
        ensures
            self.poll_read_result(target) matches Ok(poll) && poll is Ready,
            self.poll_read_result(target) == Ok::<Async<Option<T>>, ()>(Async::Ready(None))
                <==> self.read_result(target) is Err,
            self.poll_read_result(target) == Ok::<Async<Option<T>>, ()>(Async::Ready(Some(msg)))
                <==> self.read_result(target) == Ok::<T, ()>(msg),
            target is None ==> self.after_read(target) == self,
    {
    }

    /// Closing is done once: a second time it changes nothing.
    pub proof fn law_shutdown_once(self)
        ensures
            self.after_shutdown().log.closed,
            self.after_shutdown().after_shutdown() == self.after_shutdown(),
            self.after_shutdown().log.queue() == self.log.queue(),
    {
        assert(self.after_shutdown().log.queue() =~= self.log.queue());
    }

    /// Closing leaves no task waiting: all of them are notified.
    pub proof fn law_shutdown_notifies_all(self)
        requires
            !self.log.closed,
        ensures
            self.after_shutdown().receivers.queue.len() == 0,
            self.after_shutdown().receivers.notified == self.receivers.notified
                + self.receivers.queue,
    {
    }

    /// Somebody will poll the channel again: a task waits, or one has been notified and has not
    /// answered yet. Before the first poll there is no one to wait.
    pub open spec fn watched(self) -> bool {
        !self.first ==> self.receivers.queue.len() > 0 || self.receivers.from_me > 0
    }

    /// A channel that has been polled stays watched, whatever happens to it, as long as the count
    /// of unanswered notifications does not overflow.
    pub proof fn law_polled_channel_is_watched(self, step: Step<T>)
        requires
            self.watched(),
            self.receivers.queue.len() <= MAX_WAITING_TASKS,
            self.receivers.from_me + MAX_WAITING_TASKS <= usize::MAX,
        ensures
            self.step(step).watched(),
            self.step(step).receivers.queue.len() <= MAX_WAITING_TASKS,
    {
        self.receivers.lemma_counts();
        self.receivers.answer().lemma_counts();
    }

    /// A poll that finds an open channel empty, for the first time, is not forgotten: the next send
    /// has its task notified.
    pub proof fn law_waiting_poll_is_notified(self, task: u64, msg: T)
        requires
            !self.log.closed,
            self.log.len() == 0,
            self.first,
            self.receivers.queue.len() == 0,
        ensures
            self.poll_result() == Async::<Option<T>>::NotReady,
            self.after_poll(task).after_send(msg).receivers.notified.contains(task),
    {
        let tasks = self.receivers;
        assert(tasks.queue.push(task)[0] == task);
        let polled = tasks.register(task);
        if tasks.waiting > 0 {
            assert(polled.notified == tasks.notified.push(task));
            assert(polled.notified[tasks.notified.len() as int] == task);
            let woken = polled.wake();
            assert(woken.notified[tasks.notified.len() as int] == task);
        } else {
            assert(polled.queue =~= seq![task]);
            let woken = polled.wake();
            assert(woken.notified[tasks.notified.len() as int] == task);
        }
    }

    /// Whether a send succeeds.
    pub open spec fn takes_send(self) -> bool {
        !self.log.closed
    }

    /// What the operations mean for the tasks that wait to receive.
    pub open spec fn receiver_calls(self, steps: Seq<Step<T>>) -> Seq<TaskCall>
        decreases steps.len(),
    {
        if steps.len() == 0 {
            Seq::empty()
        } else {
            let before = self.receiver_calls(steps.drop_last());
            let chan = self.run(steps.drop_last());
            match steps.last() {
                Step::Send { msg, task } => if chan.takes_send() {
                    before.push(TaskCall::Wake)
                } else {
                    before
                },
                Step::SendUntil { msg } => if chan.takes_send() {
                    before.push(TaskCall::Wake)
                } else {
                    before
                },
                Step::Recv => before,
                Step::Poll { task } => if !chan.poll_registers() {
                    before
                } else if chan.first {
                    before.push(TaskCall::Register { task })
                } else {
                    before.push(TaskCall::Answer).push(TaskCall::Register { task })
                },
                Step::Shutdown => if chan.log.closed {
                    before
                } else {
                    before.push(TaskCall::WakeAll)
                },
                Step::TakeNotified => before.push(TaskCall::TakeNotified),
            }
        }
    }

    /// The tasks that wait to receive are woken by the sends.
    proof fn lemma_receiver_calls(self, steps: Seq<Step<T>>)
        ensures
            self.run(steps).receivers == self.receivers.run(self.receiver_calls(steps)),
            WaitingTasks::wakes(self.receiver_calls(steps)) == self.accepted(steps).len(),
        decreases steps.len(),
    {
        reveal_with_fuel(WaitingTasks::run, 3);
        reveal_with_fuel(WaitingTasks::wakes, 3);
        if steps.len() > 0 {
            let rest = steps.drop_last();
            self.lemma_receiver_calls(rest);
            let before = self.receiver_calls(rest);
            let calls = self.receiver_calls(steps);
            if calls.len() == before.len() + 2 {
                assert(calls.drop_last() =~= before.push(TaskCall::Answer));
                assert(calls.drop_last().drop_last() =~= before);
            } else {
                assert(calls == before || calls.drop_last() =~= before);
            }
        }
    }

    /// A task that waits for a message is notified once as many messages have been sent as there
    /// were tasks up to it, whatever else happens to the channel.
    pub proof fn law_waiting_receiver_is_notified(self, steps: Seq<Step<T>>, k: int)
        requires
            0 <= k < self.receivers.queue.len(),
            k < self.accepted(steps).len(),
        ensures
            self.run(steps).receivers == self.receivers.run(self.receiver_calls(steps)),
            self.receivers.told(self.receiver_calls(steps)).contains(self.receivers.queue[k]),
    {
        self.lemma_receiver_calls(steps);
        self.receivers.law_waiting_task_is_notified(self.receiver_calls(steps), k);
    }
}

impl WaitingTasks {
    /// A task that comes to wait where there is room and no wake-up is owed waits behind all others.
    pub proof fn law_register_queues_up(self, task: u64)
        requires
            self.queue.len() < MAX_WAITING_TASKS,
            self.waiting == 0,
        ensures
            self.register(task).queue == self.queue.push(task),
            self.register(task).notified == self.notified,
    {
    }

    /// What is left after one call.
    pub open spec fn step(self, call: TaskCall) -> WaitingTasks {
        match call {
            TaskCall::Register { task } => self.register(task),
            TaskCall::Wake => self.wake(),
            TaskCall::WakeAll => self.wake_all(),
            TaskCall::Answer => self.answer(),
            TaskCall::TakeNotified => self.hand_out(),
        }
    }

    /// What is left after calls one after the other.
    pub open spec fn run(self, calls: Seq<TaskCall>) -> WaitingTasks
        decreases calls.len(),
    {
        if calls.len() == 0 {
            self
        } else {
            self.run(calls.drop_last()).step(calls.last())
        }
    }

    /// The tasks that joined the queue by the calls, in the order in which they registered.
    pub open spec fn joined(self, calls: Seq<TaskCall>) -> Seq<u64>
        decreases calls.len(),
    {
        if calls.len() == 0 {
            Seq::empty()
        } else {
            let before = self.joined(calls.drop_last());
            match calls.last() {
                TaskCall::Register { task } => if self.run(calls.drop_last()).queue.len()
                    < MAX_WAITING_TASKS {
                    before.push(task)
                } else {
                    before
                },
                _ => before,
            }
        }
    }

    /// The tasks that found no room in the queue.
    pub open spec fn turned_away(self, calls: Seq<TaskCall>) -> Seq<u64>
        decreases calls.len(),
    {
        if calls.len() == 0 {
            Seq::empty()
        } else {
            let before = self.turned_away(calls.drop_last());
            match calls.last() {
                TaskCall::Register { task } => if self.run(calls.drop_last()).queue.len()
                    < MAX_WAITING_TASKS {
                    before
                } else {
                    before.push(task)
                },
                _ => before,
            }
        }
    }

    /// The tasks that left the queue by the calls, in the order in which they were notified.
    pub open spec fn left(self, calls: Seq<TaskCall>) -> Seq<u64>
        decreases calls.len(),
    {
        if calls.len() == 0 {
            Seq::empty()
        } else {
            let before = self.left(calls.drop_last());
            let tasks = self.run(calls.drop_last());
            match calls.last() {
                TaskCall::Register { task } => if tasks.queue.len() < MAX_WAITING_TASKS
                    && tasks.waiting > 0 {
                    before.push(tasks.queue.push(task)[0])
                } else {
                    before
                },
                TaskCall::Wake => if tasks.queue.len() > 0 {
                    before.push(tasks.queue[0])
                } else {
                    before
                },
                TaskCall::WakeAll => before + tasks.queue,
                TaskCall::Answer => before,
                TaskCall::TakeNotified => before,
            }
        }
    }

    /// Tasks leave the queue in the order in which they joined it: what joined it is what left it,
    /// followed by what still waits.
    pub proof fn law_queue_is_first_in_first_out(self, calls: Seq<TaskCall>)
        ensures
            self.queue + self.joined(calls) == self.left(calls) + self.run(calls).queue,
        decreases calls.len(),
    {
        if calls.len() == 0 {
            assert(self.queue + self.joined(calls) =~= self.left(calls) + self.queue);
        } else {
            let rest = calls.drop_last();
            self.law_queue_is_first_in_first_out(rest);
            let queue = self.run(rest).queue;
            let left = self.left(rest);
            let all = left + queue;
            if queue.len() > 0 {
                assert(left.push(queue[0]) + queue.drop_first() =~= all);
            }
            assert(left + queue + Seq::<u64>::empty() =~= all);
            if let TaskCall::Register { task } = calls.last() {
                let queue = queue.push(task);
                assert(self.queue + self.joined(rest).push(task) =~= all.push(task));
                assert(left + queue =~= all.push(task));
                assert(left.push(queue[0]) + queue.drop_first() =~= all.push(task));
            }
        }
    }

    /// The tasks that were notified and handed out by the calls.
    pub open spec fn handed_out(self, calls: Seq<TaskCall>) -> Seq<u64>
        decreases calls.len(),
    {
        if calls.len() == 0 {
            Seq::empty()
        } else {
            let before = self.handed_out(calls.drop_last());
            match calls.last() {
                TaskCall::TakeNotified => before + self.run(calls.drop_last()).notified,
                _ => before,
            }
        }
    }

    /// The tasks that have been notified after the calls, handed out or not.
    pub open spec fn told(self, calls: Seq<TaskCall>) -> Seq<u64> {
        self.handed_out(calls) + self.run(calls).notified
    }

    /// How many of the calls wake a task.
    pub open spec fn wakes(calls: Seq<TaskCall>) -> nat
        decreases calls.len(),
    {
        if calls.len() == 0 {
            0
        } else {
            let before = WaitingTasks::wakes(calls.drop_last());
            match calls.last() {
                TaskCall::Wake => before + 1,
                _ => before,
            }
        }
    }

    /// First come, first notified: as long as no task finds the queue full, the tasks that came to
    /// wait are those that were notified, followed by those that still wait, all in their order.
    pub proof fn law_first_come_first_notified(self, calls: Seq<TaskCall>)
        requires
            self.turned_away(calls).len() == 0,
        ensures
            self.notified + self.queue + self.joined(calls) == self.told(calls) + self.run(
                calls,
            ).queue,
        decreases calls.len(),
    {
        if calls.len() == 0 {
            assert(self.notified + self.queue + self.joined(calls) =~= self.told(calls)
                + self.queue);
        } else {
            let rest = calls.drop_last();
            self.law_first_come_first_notified(rest);
            let before = self.run(rest);
            let after = self.run(calls);
            let told = self.told(rest);
            let all = told + before.queue;
            match calls.last() {
                TaskCall::Register { task } => {
                    let queue = before.queue.push(task);
                    assert(self.notified + self.queue + self.joined(rest).push(task) =~= all.push(
                        task,
                    ));
                    if before.waiting > 0 {
                        assert(self.told(calls) =~= told.push(queue[0]));
                        assert(told.push(queue[0]) + queue.drop_first() =~= all.push(task));
                    } else {
                        assert(told + queue =~= all.push(task));
                    }
                },
                TaskCall::Wake => {
                    if before.queue.len() > 0 {
                        assert(self.told(calls) =~= told.push(before.queue[0]));
                        assert(told.push(before.queue[0]) + before.queue.drop_first() =~= all);
                    }
                },
                TaskCall::WakeAll => {
                    assert(self.told(calls) + after.queue =~= all);
                },
                TaskCall::Answer => {},
                TaskCall::TakeNotified => {
                    assert(self.told(calls) =~= told);
                },
            }
        }
    }

    /// Who left the queue has been notified.
    pub proof fn law_who_left_was_notified(self, calls: Seq<TaskCall>, i: int)
        requires
            0 <= i < self.left(calls).len(),
        ensures
            self.told(calls).contains(self.left(calls)[i]),
        decreases calls.len(),
    {
        let rest = calls.drop_last();
        let before = self.run(rest);
        let told = self.told(rest);
        let more = match calls.last() {
            TaskCall::Register { task } => if before.queue.len() >= MAX_WAITING_TASKS {
                seq![task]
            } else if before.waiting > 0 {
                seq![before.queue.push(task)[0]]
            } else {
                Seq::empty()
            },
            TaskCall::Wake => if before.queue.len() > 0 {
                seq![before.queue[0]]
            } else {
                Seq::empty()
            },
            TaskCall::WakeAll => before.queue,
            _ => Seq::empty(),
        };
        assert(self.told(calls) =~= told + more);
        let left = self.left(rest);
        if i < left.len() {
            self.law_who_left_was_notified(rest, i);
            let n = told.index_of(left[i]);
            assert(self.told(calls)[n] == left[i]);
        } else {
            assert(self.told(calls)[told.len() + i - left.len()] == self.left(calls)[i]);
        }
    }

    /// A task that waits is notified once as many wake-ups have come as there were tasks up to it,
    /// whatever else has happened.
    pub proof fn law_waiting_task_is_notified(self, calls: Seq<TaskCall>, k: int)
        requires
            0 <= k < self.queue.len(),
            k < WaitingTasks::wakes(calls),
        ensures
            k < self.left(calls).len(),
            self.left(calls)[k] == self.queue[k],
            self.told(calls).contains(self.queue[k]),
    {
        self.lemma_wakes(calls);
        self.law_queue_is_first_in_first_out(calls);
        assert((self.queue + self.joined(calls))[k] == self.queue[k]);
        self.law_who_left_was_notified(calls, k);
    }

    /// Each wake-up takes a task out of the queue, until all that waited have left it.
    proof fn lemma_wakes(self, calls: Seq<TaskCall>)
        ensures
            self.left(calls).len() >= WaitingTasks::wakes(calls) || self.left(calls).len()
                >= self.queue.len(),
        decreases calls.len(),
    {
        if calls.len() > 0 {
            let rest = calls.drop_last();
            self.lemma_wakes(rest);
            self.law_queue_is_first_in_first_out(rest);
            let all = self.queue + self.joined(rest);
            assert(all.len() == self.left(rest).len() + self.run(rest).queue.len());
        }
    }

    /// A task that comes to wait is the last one in the queue, or has been notified at once.
    pub proof fn law_registered_task_waits_or_is_notified(self, task: u64)
        ensures
            ({
                let after = self.register(task);
                ||| after.queue.len() > 0 && after.queue.last() == task
                ||| after.notified.len() == self.notified.len() + 1 && after.notified.last() == task
            }),
    {
    }

    /// A task that is turned away is notified at once, and changes nothing for those who wait.
    pub proof fn law_turned_away_is_notified(self, task: u64)
        requires
            self.queue.len() >= MAX_WAITING_TASKS,
        ensures
            self.register(task).notified == self.notified.push(task),
            self.register(task).queue == self.queue,
            self.register(task).waiting == self.waiting,
    {
    }

    /// A wake-up goes to the task that is first in the queue.
    pub proof fn law_wake_notifies_the_first(self)
        requires
            self.queue.len() > 0,
        ensures
            self.wake().notified == self.notified.push(self.queue[0]),
            self.wake().queue == self.queue.drop_first(),
            self.wake().waiting == self.waiting,
    {
    }

    /// No wake-up is lost: one that finds no task reaches the next task that comes to wait, at
    /// once.
    pub proof fn law_owed_wake_up_is_paid(self, task: u64)
        requires
            self.queue.len() == 0,
            self.waiting < usize::MAX,
        ensures
            self.wake().notified == self.notified,
            self.wake().register(task).notified == self.notified.push(task),
            self.wake().register(task).queue.len() == 0,
            self.wake().register(task).waiting == self.waiting,
    {
        let range = usize::MAX + 1;
        vstd::arithmetic::div_mod::lemma_small_mod((self.waiting + 1) as nat, range as nat);
        assert(self.queue.push(task).drop_first() =~= self.queue);
        let woken = self.wake();
        assert(woken.waiting == self.waiting + 1);
        assert(woken.queue.push(task)[0] == task);
    }

    /// No task is forgotten, and none is made up: a task that comes to wait does wait, or has been
    /// notified, and so it stays.
    pub proof fn law_tasks_are_kept(self, task: u64)
        ensures
            (self.register(task).queue + self.register(task).notified).to_multiset() == (self.queue
                + self.notified).to_multiset().insert(task),
            (self.wake().queue + self.wake().notified).to_multiset() == (self.queue
                + self.notified).to_multiset(),
            (self.wake_all().queue + self.wake_all().notified).to_multiset() == (self.queue
                + self.notified).to_multiset(),
    {
        let queue = self.queue;
        let notified = self.notified;
        lemma_task_joins(queue, notified, task);
        vstd::seq_lib::lemma_multiset_commutative(queue, notified);
        assert(Seq::<u64>::empty() + (notified + queue) =~= notified + queue);
        vstd::seq_lib::lemma_multiset_commutative(notified, queue);
        if queue.len() > 0 {
            lemma_task_moves(queue, notified);
        }
        if queue.len() < MAX_WAITING_TASKS {
            lemma_task_moves(queue.push(task), notified);
        }
    }

    /// No more tasks wait than there is room for.
    pub proof fn law_room_for_tasks(self, task: u64)
        requires
            self.queue.len() <= MAX_WAITING_TASKS,
        ensures
            self.register(task).queue.len() <= MAX_WAITING_TASKS,
            self.wake().queue.len() <= MAX_WAITING_TASKS,
            self.wake_all().queue.len() == 0,
    {
    }
}

impl WaitingTasks {
    /// How wake-ups count, as long as the count does not overflow.
    proof fn lemma_counts(self)
        requires
            self.queue.len() <= MAX_WAITING_TASKS,
            self.from_me + MAX_WAITING_TASKS <= usize::MAX,
        ensures
            forall|n: nat|
                n <= MAX_WAITING_TASKS ==> #[trigger] wrapping_plus(self.from_me, n) == self.from_me
                    + n,
    {
        let range = usize::MAX + 1;
        assert forall|n: nat| n <= MAX_WAITING_TASKS implies #[trigger] wrapping_plus(
            self.from_me,
            n,
        ) == self.from_me + n by {
            vstd::arithmetic::div_mod::lemma_small_mod((self.from_me + n) as nat, range as nat);
        }
    }
}

/// A task that joins the queue, or the tasks that were notified, is one more.
proof fn lemma_task_joins(queue: Seq<u64>, notified: Seq<u64>, task: u64)
    ensures
        (queue.push(task) + notified).to_multiset() == (queue + notified).to_multiset().insert(
            task,
        ),
        (queue + notified.push(task)).to_multiset() == (queue + notified).to_multiset().insert(
            task,
        ),
{
    broadcast use vstd::seq_lib::group_to_multiset_ensures;

    assert(queue + notified.push(task) =~= (queue + notified).push(task));
    vstd::seq_lib::lemma_multiset_commutative(queue.push(task), notified);
    vstd::seq_lib::lemma_multiset_commutative(queue, notified);
    assert(notified + queue.push(task) =~= (notified + queue).push(task));
}

/// The first task of the queue stays among all of them when it is notified.
proof fn lemma_task_moves(queue: Seq<u64>, notified: Seq<u64>)
    requires
        queue.len() > 0,
    ensures
        (queue.drop_first() + notified.push(queue[0])).to_multiset() == (queue
            + notified).to_multiset(),
{
    let rest = queue.drop_first();
    let first = seq![queue[0]];
    assert(queue + notified =~= first + (rest + notified));
    vstd::seq_lib::lemma_multiset_commutative(first, rest + notified);
    vstd::seq_lib::lemma_multiset_commutative(rest + notified, first);
    assert((first + (rest + notified)).to_multiset() =~= ((rest + notified) + first).to_multiset());
    assert((rest + notified) + first =~= rest + notified.push(queue[0]));
}

impl<T> Rendezvous<T> {
    /// A thread never pairs up with itself, and of the others' operations it pairs up with the one
    /// that has waited longest.
    pub proof fn law_longest_wait_first(self, thread: u64)
        ensures
            self.receiver_for(thread) matches Some(k) ==> {
                &&& 0 <= k < self.requests.len()
                &&& self.places[self.requests[k]].thread() != thread
                &&& forall|i: int|
                    0 <= i < k ==> self.places[#[trigger] self.requests[i]].thread() == thread
            },
            self.sender_for(thread) matches Some(k) ==> {
                &&& 0 <= k < self.offers.len()
                &&& self.places[self.offers[k]].thread() != thread
                &&& forall|i: int|
                    0 <= i < k ==> self.places[#[trigger] self.offers[i]].thread() == thread
            },
    {
        lemma_first_other(self.places, self.requests, thread, 0);
        lemma_first_other(self.places, self.offers, thread, 0);
    }

    /// A message that a send offers is the one that a receive takes, and the send succeeds.
    pub proof fn law_receive_takes_the_offer(self, thread: u64)
        requires
            self.wf(),
            self.sender_for(thread) is Some,
        ensures
            ({
                let z = self.offers[self.sender_for(thread)->Some_0];
                &&& self.places[z] is Offering
                &&& self.try_recv_result(thread) == Ok::<T, TryRecvError>(
                    self.places[z]->Offering_msg,
                )
                &&& self.after_try_recv(thread).send_outcome(z) == Blocking::Ready(
                    Ok::<(), SendTimeoutError<T>>(()),
                )
                &&& !self.after_try_recv(thread).offers.contains(z)
            }),
    {
        self.law_longest_wait_first(thread);
        let k = self.sender_for(thread)->Some_0;
        assert(!self.offers.remove(k).contains(self.offers[k]));
    }

    /// A receive that waits gets the message of the send that pairs up with it.
    pub proof fn law_waiting_receive_gets_the_message(self, msg: T, thread: u64)
        requires
            self.wf(),
            self.receiver_for(thread) is Some,
        ensures
            ({
                let z = self.requests[self.receiver_for(thread)->Some_0];
                &&& self.places[z] is Asking
                &&& self.try_send_result(msg, thread) is Ok
                &&& self.after_try_send(msg, thread).recv_outcome(z) == Blocking::Ready(
                    Ok::<T, RecvTimeoutError>(msg),
                )
                &&& !self.after_try_send(msg, thread).requests.contains(z)
            }),
    {
        self.law_longest_wait_first(thread);
        let k = self.receiver_for(thread)->Some_0;
        assert(!self.requests.remove(k).contains(self.requests[k]));
    }

    /// A send that waits on an open channel is met by the next receive of another thread which
    /// found no send before.
    pub proof fn law_rendezvous(self, z: usize, sender: u64, msg: T, receiver: u64)
        requires
            self.wf(),
            !self.closed,
            !self.places.dom().contains(z),
            sender != receiver,
            self.sender_for(receiver) is None,
        ensures
            self.offer(z, sender, msg).try_recv_result(receiver) == Ok::<T, TryRecvError>(msg),
            self.offer(z, sender, msg).after_try_recv(receiver).send_outcome(z) == Blocking::Ready(
                Ok::<(), SendTimeoutError<T>>(()),
            ),
    {
        let after = self.offer(z, sender, msg);
        lemma_first_other(self.places, self.offers, receiver, 0);
        lemma_first_other(after.places, after.offers, receiver, 0);
        let k = first_other(after.places, after.offers, receiver, 0);
        if k < self.offers.len() {
            assert(after.offers[k] == self.offers[k]);
            assert(self.places.dom().contains(self.offers[k]));
            assert(first_other(self.places, self.offers, receiver, 0) == self.offers.len());
        } else {
            assert(after.offers[self.offers.len() as int] == z);
        }
    }

    /// Closing the channel gives the sends that wait their messages back, and ends the receives
    /// that wait.
    pub proof fn law_shutdown_ends_waiting(self, z: usize)
        requires
            self.places.dom().contains(z),
        ensures
            self.places[z] matches Place::Offering { thread, msg }
                ==> self.after_shutdown().send_outcome(z) == Blocking::Ready(
                Err::<(), SendTimeoutError<T>>(SendTimeoutError::Disconnected(msg)),
            ),
            self.places[z] is Asking ==> self.after_shutdown().recv_outcome(z) == Blocking::Ready(
                Err::<T, RecvTimeoutError>(RecvTimeoutError::Disconnected),
            ),
    {
    }

    /// An operation that has been paired up is left alone: no other operation, and no shutdown,
    /// changes it.
    pub proof fn law_paired_operation_is_left_alone(
        self,
        z: usize,
        y: usize,
        msg: T,
        thread: u64,
    )
        requires
            self.wf(),
            self.places.dom().contains(z),
            !self.places[z].waits(),
            !self.places.dom().contains(y),
        ensures
            self.after_try_send(msg, thread).places[z] == self.places[z],
            self.after_try_recv(thread).places[z] == self.places[z],
            self.offer(y, thread, msg).places[z] == self.places[z],
            self.ask(y, thread).places[z] == self.places[z],
            self.after_shutdown().places[z] == self.places[z],
    {
        self.law_longest_wait_first(thread);
    }

    /// Somebody will poll the channel again: a task waits, or one has been notified and has not
    /// answered yet. Before the first poll there is no one to wait.
    pub open spec fn watched(self) -> bool {
        !self.first ==> self.receivers.queue.len() > 0 || self.receivers.from_me > 0
    }

    /// A channel that has been polled stays watched, whatever happens to it, as long as the count
    /// of unanswered notifications does not overflow.
    pub proof fn law_polled_channel_is_watched(
        self,
        thread: u64,
        task: u64,
        msg: T,
        z: usize,
        after: Rendezvous<T>,
        res: Blocking<Async<Option<T>>>,
    )
        requires
            self.watched(),
            self.receivers.queue.len() <= MAX_WAITING_TASKS,
            self.receivers.from_me + MAX_WAITING_TASKS <= usize::MAX,
        ensures
            self.after_try_send(msg, thread).watched(),
            self.after_try_recv(thread).watched(),
            self.offer(z, thread, msg).watched(),
            self.ask(z, thread).watched(),
            self.leave(z).watched(),
            self.after_shutdown().watched(),
            self.polls(thread, task, after, res) ==> after.watched(),
    {
        self.receivers.lemma_counts();
        self.receivers.answer().lemma_counts();
    }

    /// On a closed channel no operation pairs up, and none changes anything.
    pub proof fn law_closed_channel(self, msg: T, thread: u64)
        requires
            self.closed,
        ensures
            self.try_send_result(msg, thread) matches Err(e) && e.kind is Closed && e.value == msg,
            self.try_recv_result(thread) == Err::<T, TryRecvError>(TryRecvError::Disconnected),
            self.after_try_send(msg, thread) == self,
            self.after_try_recv(thread) == self,
            self.after_shutdown() == self,
    {
    }

    /// On an open channel a send that does not wait succeeds exactly where a receive of another
    /// thread waits, and hands the message back otherwise.
    pub proof fn law_send_needs_a_receiver(self, msg: T, thread: u64)
        requires
            !self.closed,
        ensures
            self.try_send_result(msg, thread) is Ok <==> exists|i: int|
                0 <= i < self.requests.len() && self.places[#[trigger] self.requests[i]].thread()
                    != thread,
            self.try_send_result(msg, thread) matches Err(e) ==> e.kind is NoCapacity && e.value
                == msg && self.after_try_send(msg, thread) == self,
    {
        lemma_first_other(self.places, self.requests, thread, 0);
    }
}

/// What `first_other` finds is another thread's, and nothing before it is.
pub proof fn lemma_first_other<T>(
    places: Map<usize, Place<T>>,
    queue: Seq<usize>,
    thread: u64,
    from: int,
)
    requires
        0 <= from <= queue.len(),
    ensures
        ({
            let k = first_other(places, queue, thread, from);
            &&& from <= k <= queue.len()
            &&& k < queue.len() ==> places[queue[k]].thread() != thread
            &&& forall|i: int| from <= i < k ==> places[#[trigger] queue[i]].thread() == thread
        }),
    decreases queue.len() - from,
{
    if from < queue.len() && places[queue[from]].thread() == thread {
        lemma_first_other(places, queue, thread, from + 1);
    }
}

} // verus!
