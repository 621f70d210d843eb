//! The tasks that wait on one side of a channel.
//!
//! A task is known here by a number. Notifying a task is recorded; whoever polls the channel takes
//! the record with `take_notified` and wakes the tasks it names.
use crate::task_queue::{new_queue, pop, push, queued, room};
use crossbeam::queue::ArrayQueue;
use vstd::prelude::*;

verus! {

/// How many tasks can wait at a time.
pub const MAX_WAITING_TASKS: usize = 4;

/// `x` after `n` increments of a counter that wraps around.
pub open spec fn wrapping_plus(x: usize, n: nat) -> usize {
    ((x + n) % (usize::MAX + 1)) as usize
}

/// Decrements a positive counter; returns whether there was anything to decrement.
pub fn positive_update(a: &mut usize) -> (updated: bool)
    ensures
        updated == (*old(a) > 0),
        *final(a) == if *old(a) > 0 {
            *old(a) - 1
        } else {
            0
        },
{
    if *a > 0 {
        *a = *a - 1;
        true
    } else {
        false
    }
}

/// What an `AtomicSerialWaker` keeps.
#[verifier::ext_equal]
pub struct WaitingTasks {
    /// The tasks that wait, the one to be woken next first.
    pub queue: Seq<u64>,
    /// Wake-ups that found no task to notify.
    pub waiting: usize,
    /// Notifications that no poll has answered yet.
    pub from_me: usize,
    /// The tasks that were notified, in that order.
    pub notified: Seq<u64>,
}

impl WaitingTasks {
    /// A waker that nothing has happened to.
    pub open spec fn initial() -> WaitingTasks {
        WaitingTasks {
            queue: Seq::<u64>::empty(),
            waiting: 0,
            from_me: 0,
            notified: Seq::<u64>::empty(),
        }
    }

    /// `task` is notified.
    pub open spec fn notify(self, task: u64) -> WaitingTasks {
        WaitingTasks {
            from_me: wrapping_plus(self.from_me, 1),
            notified: self.notified.push(task),
            ..self
        }
    }

    /// The first task in the queue leaves it.
    pub open spec fn pop(self) -> WaitingTasks {
        WaitingTasks { queue: self.queue.drop_first(), ..self }
    }

    /// The first task in the queue is notified where a wake-up is owed to one.
    pub open spec fn settle(self) -> WaitingTasks {
        if self.queue.len() > 0 && self.waiting > 0 {
            WaitingTasks { waiting: (self.waiting - 1) as usize, ..self.pop() }.notify(
                self.queue[0],
            )
        } else {
            self
        }
    }

    /// `task` starts to wait; it is notified at once where the queue is full.
    pub open spec fn register(self, task: u64) -> WaitingTasks {
        if self.queue.len() < MAX_WAITING_TASKS {
            WaitingTasks { queue: self.queue.push(task), ..self }.settle()
        } else {
            self.notify(task)
        }
    }

    /// The first task in the queue is notified; where there is none, a wake-up stays owed.
    pub open spec fn wake(self) -> WaitingTasks {
        if self.queue.len() > 0 {
            self.pop().notify(self.queue[0])
        } else {
            WaitingTasks { waiting: wrapping_plus(self.waiting, 1), ..self }
        }
    }

    /// Every task in the queue is notified, in its order.
    pub open spec fn wake_all(self) -> WaitingTasks {
        WaitingTasks {
            queue: Seq::<u64>::empty(),
            from_me: wrapping_plus(self.from_me, self.queue.len()),
            notified: self.notified + self.queue,
            ..self
        }
    }

    /// The tasks that were notified are handed out.
    pub open spec fn hand_out(self) -> WaitingTasks {
        WaitingTasks { notified: Seq::<u64>::empty(), ..self }
    }

    /// A poll answers one of the notifications, where there is one.
    pub open spec fn answer(self) -> WaitingTasks {
        if self.from_me > 0 {
            WaitingTasks { from_me: (self.from_me - 1) as usize, ..self }
        } else {
            self
        }
    }
}

/// Counting in two goes is counting in one.
pub proof fn lemma_wrapping_plus(x: usize, m: nat, n: nat)
    ensures
        wrapping_plus(wrapping_plus(x, m), n) == wrapping_plus(x, m + n),
        wrapping_plus(x, 0) == x,
        wrapping_plus(x, 1) == x.wrapping_add(1),
{
    let range = usize::MAX + 1;
    vstd::arithmetic::div_mod::lemma_add_mod_noop((x + m) as int, n as int, range);
    vstd::arithmetic::div_mod::lemma_small_mod(n % (range as nat), range as nat);
    vstd::arithmetic::div_mod::lemma_add_mod_noop_right(
        ((x + m) as int) % range,
        n as int,
        range,
    );
    if x < usize::MAX {
        vstd::arithmetic::div_mod::lemma_small_mod((x + 1) as nat, range as nat);
    } else {
        vstd::arithmetic::div_mod::lemma_mod_self_0(range);
    }
    vstd::arithmetic::div_mod::lemma_small_mod(x as nat, range as nat);
}

/// Notifying the first task and then all the others notifies all.
proof fn lemma_wake_then_wake_all(tasks: WaitingTasks)
    requires
        tasks.queue.len() > 0,
    ensures
        tasks.wake().wake_all() == tasks.wake_all(),
{
    lemma_wrapping_plus(tasks.from_me, 1, (tasks.queue.len() - 1) as nat);
    assert(tasks.wake().wake_all().notified =~= tasks.wake_all().notified);
}

/// Tasks waiting for the other side of a channel to move.
pub struct AtomicSerialWaker {
    waker: ArrayQueue<u64>,
    waiting: usize,
    from_me: usize,
    notified: Vec<u64>,
}

impl View for AtomicSerialWaker {
    type V = WaitingTasks;

    closed spec fn view(&self) -> WaitingTasks {
        WaitingTasks {
            queue: queued(self.waker),
            waiting: self.waiting,
            from_me: self.from_me,
            notified: self.notified@,
        }
    }
}

impl AtomicSerialWaker {
    /// No more tasks wait than there is room for.
    pub closed spec fn wf(&self) -> bool {
        &&& room(self.waker) == MAX_WAITING_TASKS
        &&& queued(self.waker).len() <= MAX_WAITING_TASKS
    }

    /// No more tasks wait than there is room for.
    pub proof fn lemma_room(&self)
        requires
            self.wf(),
        ensures
            self@.queue.len() <= MAX_WAITING_TASKS,
    {
    }

    /// A waker on which no task waits.
    pub fn new() -> (waker: Self)
        ensures
            waker.wf(),
            waker@ == WaitingTasks::initial(),
    {
        AtomicSerialWaker {
            waker: new_queue(MAX_WAITING_TASKS),
            waiting: 0,
            from_me: 0,
            notified: Vec::new(),
        }
    }

    /// Records that `task` is to be woken.
    fn notify(&mut self, task: u64)
        requires
            old(self).wf(),
        ensures
            final(self).wf(),
            final(self)@ == old(self)@.notify(task),
    {
        proof {
            lemma_wrapping_plus(self.from_me, 0, 0);
        }
        self.from_me = self.from_me.wrapping_add(1);
        self.notified.push(task);
    }

    /// Lets `task` wait. A full queue of waiting tasks has it notified at once, and so has a
    /// wake-up that found no task earlier.
    pub fn register(&mut self, task: u64)
        requires
            old(self).wf(),
        ensures
            final(self).wf(),
            final(self)@ == old(self)@.register(task),
    {
        match push(&mut self.waker, task) {
            Ok(()) => {
                self.wk();
            },
            Err(task) => {
                self.notify(task);
            },
        }
    }

    /// Pays a wake-up that is owed to the first waiting task.
    fn wk(&mut self)
        requires
            old(self).wf(),
        ensures
            final(self).wf(),
            final(self)@ == old(self)@.settle(),
    {
        if self.waiting > 0 {
            if let Some(task) = pop(&mut self.waker) {
                positive_update(&mut self.waiting);
                self.notify(task);
            }
        }
    }

    /// Notifies the first waiting task; where none waits, the next one to register is owed a
    /// wake-up.
    pub fn wake(&mut self)
        requires
            old(self).wf(),
        ensures
            final(self).wf(),
            final(self)@ == old(self)@.wake(),
    {
        match pop(&mut self.waker) {
            Some(task) => {
                self.notify(task);
            },
            None => {
                proof {
                    lemma_wrapping_plus(self.waiting, 0, 0);
                }
                self.waiting = self.waiting.wrapping_add(1);
            },
        }
    }

    /// Notifies every waiting task.
    pub fn wake_all(&mut self)
        requires
            old(self).wf(),
        ensures
            final(self).wf(),
            final(self)@ == old(self)@.wake_all(),
    {
        loop
            invariant
                self.wf(),
                self@.wake_all() == old(self)@.wake_all(),
            decreases self@.queue.len(),
        {
            let ghost before = self@;
            match pop(&mut self.waker) {
                Some(task) => {
                    self.notify(task);
                    proof {
                        lemma_wake_then_wake_all(before);
                    }
                },
                None => {
                    proof {
                        assert(self@.wake_all() == self@) by {
                            lemma_wrapping_plus(self.from_me, 0, 0);
                        }
                    }
                    return ;
                },
            }
        }
    }

    /// Answers a notification: whether one was there to be answered.
    pub fn answer(&mut self) -> (answered: bool)
        requires
            old(self).wf(),
        ensures
            final(self).wf(),
            final(self)@ == old(self)@.answer(),
            answered == (old(self)@.from_me > 0),
    {
        positive_update(&mut self.from_me)
    }

    /// Whether a notification is there to be answered.
    pub fn to_answer(&self) -> (to_answer: bool)
        requires
            self.wf(),
        ensures
            to_answer == (self@.from_me > 0),
    {
        self.from_me > 0
    }

    /// Hands out the tasks to be woken, and forgets them.
    pub fn take_notified(&mut self) -> (tasks: Vec<u64>)
        requires
            old(self).wf(),
        ensures
            final(self).wf(),
            final(self)@ == old(self)@.hand_out(),
            tasks@ == old(self)@.notified,
    {
        let mut tasks: Vec<u64> = Vec::new();
        std::mem::swap(&mut tasks, &mut self.notified);
        tasks
    }
}

impl Default for AtomicSerialWaker {
    fn default() -> (waker: Self)
        ensures
            waker.wf(),
            waker@ == WaitingTasks::initial(),
    {
        Self::new()
    }
}

} // verus!
