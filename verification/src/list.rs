//! Unbounded channel implemented as a linked list of blocks.
//!
//! Each message sent into the channel is assigned a sequence number, its position. Consecutive
//! messages are grouped into blocks. A send or a receive first claims a position and then moves its
//! message; the token that the claim hands out carries it to the second half.
use crate::atomic_serial_waker::{AtomicSerialWaker, WaitingTasks, MAX_WAITING_TASKS};
use crate::block::{lemma_flags, same_but, Block, Blocks, Slot, DESTROY, READ};
use crate::error::{ErrorKind, SendError, SendTimeoutError, TrySendError};
use crate::index::{
    block_of, index_of, lap_of, lemma_bits, lemma_distinct, lemma_index, lemma_laps, lemma_next,
    lemma_same_lap, marked_index, max_len, offset_of, BLOCK_CAP, LAP, MARK_BIT, SHIFT,
};
use crate::log::{Cell, Log};
use crate::Shutdown;
use futures::{Async, AsyncSink};
use std::sync::mpsc::TryRecvError;
use vstd::prelude::*;

verus! {

/// A position in a channel.
struct Position {
    /// The index in the channel.
    index: usize,
    /// The block in the linked list.
    block: Option<usize>,
}

/// The token of a claimed position.
pub struct List {
    /// The block of slots; none where the channel is disconnected.
    block: Option<usize>,
    /// The offset into the block.
    offset: usize,
    /// The position that was claimed.
    pos: Ghost<nat>,
}

impl List {
    /// The claimed position; none where the channel is disconnected.
    pub closed spec fn target(&self) -> Option<nat> {
        if self.block is Some {
            Some(self.pos@)
        } else {
            None
        }
    }
}

impl Default for List {
    fn default() -> (list: Self)
        ensures
            list.target() is None,
    {
        List { block: None, offset: 0, pos: Ghost(0) }
    }
}

/// The slot `o` of the block `b` has been read from.
pub open spec fn read_at<T>(log: Log<T>, b: nat, o: nat) -> bool {
    31 * b + o < log.tail() && log.cells[(31 * b + o) as int] is Read
}

/// Every slot of the block `b` has been read from.
pub open spec fn all_read<T>(log: Log<T>, b: nat) -> bool {
    forall|o: nat| o < 31 ==> #[trigger] read_at(log, b, o)
}

/// The reader of the slot `o` of the block `b` has to go on destroying the block: the last slot has
/// been read from, and so have those before `o`.
spec fn stuck<T>(log: Log<T>, b: nat, o: nat) -> bool {
    &&& o < 30
    &&& read_at(log, b, 30)
    &&& !read_at(log, b, o)
    &&& forall|k: nat| k < o ==> #[trigger] read_at(log, b, k)
}

/// The slot `o` of the block `b` is as the log says.
spec fn slot_ok<T>(log: Log<T>, b: nat, o: nat, slot: Slot<T>) -> bool {
    let p = 31 * b + o;
    if p >= log.tail() {
        slot.fresh()
    } else {
        match log.cells[p as int] {
            Cell::Writing => {
                &&& !slot.written()
                &&& !slot.is_read()
                &&& slot.msg is None
                &&& slot.destroying() == stuck(log, b, o)
            },
            Cell::Full(msg) => {
                &&& slot.written()
                &&& !slot.is_read()
                &&& slot.msg == Some(msg)
                &&& slot.destroying() == stuck(log, b, o)
            },
            Cell::Read(_) => {
                &&& slot.msg is None
                &&& o < 30 ==> slot.is_read()
            },
        }
    }
}

/// The two logs agree on the positions of all blocks but one.
spec fn same_elsewhere<T>(before: Log<T>, after: Log<T>, changed: nat) -> bool {
    &&& after.tail() >= before.tail()
    &&& forall|p: int|
        0 <= p < after.tail() && p / 31 != changed ==> p < before.tail()
            && #[trigger] after.cells[p] == before.cells[p]
}

/// How many blocks have been allocated for the positions of the log.
pub open spec fn blocks_begun<T>(log: Log<T>) -> nat {
    if log.tail() == 0 {
        0
    } else {
        block_of(log.tail()) + 1
    }
}

/// What an unbounded channel is.
#[verifier::ext_equal]
pub struct Unbounded<T> {
    /// What the channel has carried.
    pub log: Log<T>,
    /// Tasks waiting while the channel is empty.
    pub receivers: WaitingTasks,
    /// Whether no poll has come to wait yet.
    pub first: bool,
}

impl<T> Unbounded<T> {
    /// A new channel.
    pub open spec fn initial() -> Unbounded<T> {
        Unbounded { log: Log::initial(), receivers: WaitingTasks::initial(), first: true }
    }

    /// A receive need not wait for a send that is half-way: the next message is there, if there is
    /// to be one.
    pub open spec fn recv_ready(self) -> bool {
        self.log.len() > 0 ==> self.log.cells[self.log.head as int] is Full
    }

    /// The channel after the message of a claimed position was read.
    pub open spec fn after_read(self, target: Option<nat>) -> Unbounded<T> {
        match target {
            Some(p) => Unbounded { log: self.log.read(p), ..self },
            None => self,
        }
    }

    /// What `read` returns.
    pub open spec fn read_result(self, target: Option<nat>) -> Result<T, ()> {
        match target {
            Some(p) => Ok(self.log.message(p as int)),
            None => Err(()),
        }
    }

    /// What `poll_read` returns.
    pub open spec fn poll_read_result(self, target: Option<nat>) -> Result<Async<Option<T>>, ()> {
        match target {
            Some(p) => Ok(Async::Ready(Some(self.log.message(p as int)))),
            None => Ok(Async::Ready(None)),
        }
    }

    /// A message is sent.
    pub open spec fn send(self, msg: T) -> Unbounded<T> {
        Unbounded { log: self.log.send(msg), receivers: self.receivers.wake(), ..self }
    }

    /// A message is received.
    pub open spec fn recv(self) -> Unbounded<T> {
        Unbounded { log: self.log.recv(), ..self }
    }

    /// The channel after a send.
    pub open spec fn after_send(self, msg: T) -> Unbounded<T> {
        if self.log.closed {
            self
        } else {
            self.send(msg)
        }
    }

    /// The channel after `try_recv`.
    pub open spec fn after_try_recv(self) -> Unbounded<T> {
        if self.log.len() > 0 {
            self.recv()
        } else {
            self
        }
    }

    /// What `try_recv` returns.
    pub open spec fn try_recv_result(self) -> Result<T, TryRecvError> {
        if self.log.len() > 0 {
            Ok(self.log.queue()[0])
        } else if self.log.closed {
            Err(TryRecvError::Disconnected)
        } else {
            Err(TryRecvError::Empty)
        }
    }

    /// Whether a poll has its task wait: it finds the channel open and empty, and is the first one to
    /// do so or answers a notification.
    pub open spec fn poll_registers(self) -> bool {
        self.log.len() == 0 && !self.log.closed && (self.first || self.receivers.from_me > 0)
    }

    /// The channel after a poll by the task `task`.
    pub open spec fn after_poll(self, task: u64) -> Unbounded<T> {
        if self.log.len() > 0 {
            self.recv()
        } else if self.log.closed {
            self
        } else if self.first {
            Unbounded { first: false, receivers: self.receivers.register(task), ..self }
        } else if self.receivers.from_me > 0 {
            Unbounded { receivers: self.receivers.answer().register(task), ..self }
        } else {
            self
        }
    }

    /// What a poll returns.
    pub open spec fn poll_result(self) -> Async<Option<T>> {
        if self.log.len() > 0 {
            Async::Ready(Some(self.log.queue()[0]))
        } else if self.log.closed {
            Async::Ready(None)
        } else {
            Async::NotReady
        }
    }

    /// The channel after the tasks that it has notified were taken.
    pub open spec fn after_take_notified(self) -> Unbounded<T> {
        Unbounded { receivers: self.receivers.hand_out(), ..self }
    }

    /// The channel after it was shut down.
    pub open spec fn after_shutdown(self) -> Unbounded<T> {
        if self.log.closed {
            self
        } else {
            Unbounded { log: self.log.close(), receivers: self.receivers.wake_all(), ..self }
        }
    }
}

/// Unbounded channel implemented as a linked list.
///
/// Indices are represented as numbers of type `usize` and wrap on overflow.
pub struct Channel<T> {
    /// The head of the channel.
    head: Position,
    /// The tail of the channel.
    tail: Position,
    /// Where the blocks are.
    blocks: Blocks<T>,
    /// Receivers waiting while the channel is empty and not disconnected.
    receivers: AtomicSerialWaker,
    /// Whether no poll has come to wait yet.
    first: bool,
    /// What the channel has carried.
    log: Ghost<Log<T>>,
    /// Where each block is, or was.
    chain: Ghost<Seq<usize>>,
    /// Which block is at each place, or was last.
    owner: Ghost<Seq<nat>>,
}

impl<T> View for Channel<T> {
    type V = Unbounded<T>;

    closed spec fn view(&self) -> Unbounded<T> {
        Unbounded { log: self.log@, receivers: self.receivers@, first: self.first }
    }
}

impl<T> Channel<T> {
    /// There is a block `b`, and there is something left to be read from it.
    spec fn live(&self, b: nat) -> bool {
        b < self.chain@.len() && !all_read(self.log@, b)
    }

    /// The block `b` is as the log says.
    spec fn block_ok(&self, b: nat) -> bool {
        let id = self.chain@[b as int];
        &&& id < self.blocks@.len()
        &&& self.owner@[id as int] == b
        &&& self.blocks@[id as int] is Some
        &&& ({
            let block = self.blocks@[id as int]->Some_0;
            &&& block.slots@.len() == BLOCK_CAP
            &&& block.next == if b + 1 < self.chain@.len() {
                Some(self.chain@[b as int + 1])
            } else {
                None
            }
            &&& forall|o: nat| o < 31 ==> #[trigger] slot_ok(self.log@, b, o, block.slots@[o as int])
        })
    }

    /// The place `id` is taken by a block that is needed.
    spec fn place_ok(&self, id: int) -> bool {
        self.blocks@[id] is Some ==> self.live(self.owner@[id])
            && self.chain@[self.owner@[id] as int] == id
    }

    /// The blocks are as the log says.
    spec fn blocks_ok(&self) -> bool {
        &&& self.owner@.len() == self.blocks@.len()
        &&& forall|b: nat| #[trigger] self.live(b) ==> self.block_ok(b)
        &&& forall|id: int| 0 <= id < self.blocks@.len() ==> #[trigger] self.place_ok(id)
    }

    /// Indices and blocks say what the log says.
    pub closed spec fn wf(&self) -> bool {
        &&& self.receivers.wf()
        &&& self.log@.wf()
        &&& self.log@.len() <= max_len()
        &&& self.head.index == marked_index(self.log@.head, self.head.index % 2 == 1)
        &&& self.head.index % 2 == 1 ==> block_of(self.log@.head) < block_of(self.log@.tail())
        &&& self.tail.index == marked_index(self.log@.tail(), self.log@.closed)
        &&& self.head.block == if self.log@.tail() == 0 {
            None
        } else {
            Some(self.chain@[block_of(self.log@.head) as int])
        }
        &&& self.tail.block == if self.log@.tail() == 0 {
            None
        } else {
            Some(self.chain@[block_of(self.log@.tail()) as int])
        }
        &&& self.chain@.len() == blocks_begun(self.log@)
        &&& self.blocks_ok()
    }

    /// There is a block `b` in the store.
    pub closed spec fn allocated(&self, b: nat) -> bool {
        exists|id: int|
            0 <= id < self.blocks@.len() && #[trigger] self.blocks@[id] is Some && self.owner@[id]
                == b
    }

    /// A block is there from the first claim of a position in it, or of the last position before
    /// it, until the last message in it has been read; then its memory is freed.
    pub proof fn law_block_is_there_until_read(&self, b: nat)
        requires
            self.wf(),
        ensures
            self.allocated(b) <==> b < blocks_begun(self@.log) && !all_read(self@.log, b),
    {
        if self.allocated(b) {
            let id = choose|id: int|
                0 <= id < self.blocks@.len() && #[trigger] self.blocks@[id] is Some
                    && self.owner@[id] == b;
            assert(self.place_ok(id));
        }
        if self.live(b) {
            assert(self.block_ok(b));
        }
    }

    /// The token was made by a claim on this channel, or says that there is no slot.
    pub open spec fn token(&self, list: List) -> bool {
        list.target() is Some ==> self.names(list)
    }

    /// The token names the block and the slot of its position.
    pub closed spec fn names(&self, list: List) -> bool {
        list.block matches Some(block) ==> {
            &&& block_of(list.pos@) < self.chain@.len()
            &&& block == self.chain@[block_of(list.pos@) as int]
            &&& list.offset == offset_of(list.pos@)
        }
    }

    /// What holds of every channel is true of what it is seen as: receives do not overtake sends,
    /// and no more tasks wait than there is room for.
    pub proof fn lemma_wf(&self)
        requires
            self.wf(),
        ensures
            self@.log.wf(),
            self@.log.head <= self@.log.tail(),
            self@.log.len() <= max_len(),
            self@.receivers.queue.len() <= MAX_WAITING_TASKS,
    {
        self.receivers.lemma_room();
    }

    /// Tokens made on the one channel are tokens of the other.
    pub open spec fn keeps_tokens(&self, before: &Channel<T>) -> bool {
        forall|list: List| #[trigger] before.token(list) ==> self.token(list)
    }

    /// Creates a new unbounded channel.
    pub fn new() -> (chan: Self)
        ensures
            chan.wf(),
            chan@ == Unbounded::<T>::initial(),
    {
        let chan = Channel {
            head: Position { index: 0, block: None },
            tail: Position { index: 0, block: None },
            blocks: Blocks::new(),
            receivers: AtomicSerialWaker::new(),
            first: true,
            log: Ghost(Log::initial()),
            chain: Ghost(Seq::<usize>::empty()),
            owner: Ghost(Seq::<nat>::empty()),
        };
        proof {
            lemma_laps();
            vstd::arithmetic::div_mod::lemma_small_mod(0, crate::index::laps() as nat);
            assert(index_of(0) == 0);
            assert(chan.head.index == marked_index(0, false));
        }
        chan
    }

    /// Claims a position for sending a message. Where the channel is disconnected, the token says
    /// so.
    pub fn start_send(&mut self, list: &mut List) -> (claimed: bool)
        requires
            old(self).wf(),
            old(self)@.log.len() < max_len(),
        ensures
            claimed,
            final(self).wf(),
            final(self).keeps_tokens(old(self)),
            final(self).token(*final(list)),
            old(self)@.log.closed ==> {
                &&& final(self)@ == old(self)@
                &&& final(list).target() is None
            },
            !old(self)@.log.closed ==> {
                &&& final(self)@ == (Unbounded { log: old(self)@.log.claim_send(), ..old(self)@ })
                &&& final(list).target() == Some(old(self)@.log.tail())
            },
    {
        let ghost pos = self.log@.tail();
        let tail = self.tail.index;
        proof {
            lemma_index(pos, self.log@.closed);
            lemma_bits(tail);
            lemma_next(pos);
        }
        // Check if the channel is disconnected.
        if tail & MARK_BIT != 0 {
            list.block = None;
            return true;
        }
        // Calculate the offset of the index into the block.

        let offset = (tail >> SHIFT) % LAP;

        // If this is the first message to be sent into the channel, we need to allocate the first
        // block and install it.
        let block = match self.tail.block {
            Some(block) => block,
            None => {
                let new = self.append_block(None);
                let ghost appended = *self;
                self.tail.block = Some(new);
                self.head.block = Some(new);
                proof {
                    self.lemma_kept(&appended);
                }
                new
            },
        };
        let ghost middle = *self;

        // Advance the tail forward.
        let new_tail = tail + (1 << SHIFT);
        self.tail.index = new_tail;
        self.log = Ghost(self.log@.claim_send());
        proof {
            self.lemma_claim(&middle);
        }
        // If we've reached the end of the block, install the next one.
        if offset + 1 == BLOCK_CAP {
            proof {
                assert(!read_at(self.log@, block_of(pos), 30));
                assert(self.live(block_of(pos)));
            }
            let next_block = self.append_block(Some(block));
            let ghost appended = *self;
            self.tail.block = Some(next_block);
            self.tail.index = new_tail.wrapping_add(1 << SHIFT);
            proof {
                self.lemma_kept(&appended);
            }
        }
        list.block = Some(block);
        list.offset = offset;
        list.pos = Ghost(pos);
        true
    }

    /// Writes a message into the claimed slot; hands it back where the channel is disconnected.
    pub fn write(&mut self, list: &mut List, msg: T) -> (res: Result<(), T>)
        requires
            old(self).wf(),
            old(self).token(*old(list)),
            old(list).target() matches Some(p) ==> p < old(self)@.log.tail() && old(
                self,
            )@.log.cells[p as int] is Writing,
        ensures
            final(self).wf(),
            final(self).keeps_tokens(old(self)),
            *final(list) == *old(list),
            match old(list).target() {
                Some(p) => {
                    &&& res is Ok
                    &&& final(self)@ == (Unbounded {
                        log: old(self)@.log.write(p, msg),
                        receivers: old(self)@.receivers.wake(),
                        ..old(self)@
                    })
                },
                None => {
                    &&& res is Err
                    &&& res->Err_0 == msg
                    &&& final(self)@ == old(self)@
                },
            },
    {
        match list.block {
            None => Err(msg),
            Some(block) => {
                let ghost pos = list.pos@;
                let ghost b = block_of(pos);
                proof {
                    self.lemma_claimed(pos);
                    let slots = self.blocks@[block as int]->Some_0.slots@;
                    lemma_flags(slots[list.offset as int].state);
                }
                // Write the message into the slot.
                self.blocks.write(block, list.offset, msg);
                self.log = Ghost(self.log@.write(pos, msg));
                // Wake a sleeping receiver.
                self.receivers.wake();
                proof {
                    assert forall|o: nat| #[trigger] read_at(self.log@, b, o) == read_at(
                        old(self).log@,
                        b,
                        o,
                    ) by {}
                    lemma_same_reads(old(self).log@, self.log@, b);
                    let slots = self.blocks@[block as int]->Some_0.slots@;
                    let before = old(self).blocks@[block as int]->Some_0.slots@;
                    assert forall|o: nat| o < 31 implies #[trigger] slot_ok(
                        self.log@,
                        b,
                        o,
                        slots[o as int],
                    ) by {
                        assert(slot_ok(old(self).log@, b, o, before[o as int]));
                        assert(stuck(self.log@, b, o) == stuck(old(self).log@, b, o));
                    }
                    self.lemma_changed(old(self), b);
                }
                Ok(())
            },
        }
    }

    /// Claims a position for receiving a message. Where the channel is empty and disconnected, the
    /// token says so; where it is only empty, there is none.
    pub fn start_recv(&mut self, list: &mut List) -> (claimed: bool)
        requires
            old(self).wf(),
        ensures
            final(self).wf(),
            final(self).keeps_tokens(old(self)),
            claimed == (old(self)@.log.len() > 0 || old(self)@.log.closed),
            old(self)@.log.len() > 0 ==> {
                &&& final(self)@ == (Unbounded { log: old(self)@.log.claim_recv(), ..old(self)@ })
                &&& final(list).target() == Some(old(self)@.log.head)
            },
            old(self)@.log.len() == 0 ==> {
                &&& final(self)@ == old(self)@
                &&& claimed ==> final(list).target() is None
            },
            claimed ==> final(self).token(*final(list)),
            !claimed ==> *final(list) == *old(list),
    {
        let ghost pos = self.log@.head;
        let ghost end = self.log@.tail();
        let head = self.head.index;
        proof {
            lemma_index(pos, head % 2 == 1);
            lemma_index(end, self.log@.closed);
            lemma_bits(head);
            lemma_bits(self.tail.index);
            lemma_distinct(pos, end);
            lemma_same_lap(pos, end);
            lemma_next(pos);
            lemma_laps();
        }
        // Calculate the offset of the index into the block.
        let offset = (head >> SHIFT) % LAP;
        let mut new_head = head + (1 << SHIFT);
        proof {
            lemma_bits(new_head);
        }
        if new_head & MARK_BIT == 0 {
            let tail = self.tail.index;
            // If the tail equals the head, that means the channel is empty.
            if head >> SHIFT == tail >> SHIFT {
                if tail & MARK_BIT != 0 {
                    // The channel is disconnected: the receive ends in an error.
                    list.block = None;
                    return true;
                } else {
                    // Otherwise, the receive operation is not ready.
                    return false;
                }
            }
            // If head and tail are not in the same block, set `MARK_BIT` in head.

            if (head >> SHIFT) / LAP != (tail >> SHIFT) / LAP {
                new_head = new_head | MARK_BIT;
            }
        }
        proof {
            assert(pos < end);
            self.lemma_claimed(pos);
        }
        let block = match self.head.block {
            Some(block) => block,
            None => {
                return false;
            },
        };
        // Move the head index forward.
        self.head.index = new_head;
        self.log = Ghost(self.log@.claim_recv());
        // If we've reached the end of the block, move to the next one.
        if offset + 1 == BLOCK_CAP {
            proof {
                lemma_bits(new_head);
                assert(!read_at(old(self).log@, block_of(pos + 1), 0));
                assert(old(self).live(block_of(pos + 1)));
                assert(old(self).block_ok(block_of(pos + 1)));
            }
            if let Some(next) = self.blocks.next(block) {
                let mut next_index = (new_head & !MARK_BIT).wrapping_add(1 << SHIFT);
                proof {
                    lemma_bits(next_index);
                    lemma_index(pos + 1, false);
                }
                if self.blocks.next(next).is_some() {
                    next_index = next_index | MARK_BIT;
                }
                self.head.block = Some(next);
                self.head.index = next_index;
            }
        }
        proof {
            lemma_index(pos + 1, false);
            lemma_index(pos + 1, true);
            self.lemma_kept(old(self));
        }
        list.block = Some(block);
        list.offset = offset;
        list.pos = Ghost(pos);
        true
    }

    /// Reads a message from the claimed slot; fails where the channel is empty and disconnected.
    ///
    /// The block is freed once all of its messages have been read.
    pub fn read(&mut self, list: &mut List) -> (res: Result<T, ()>)
        requires
            old(self).wf(),
            old(self).token(*old(list)),
            old(list).target() matches Some(p) ==> p < old(self)@.log.head && old(
                self,
            )@.log.cells[p as int] is Full,
        ensures
            final(self).wf(),
            final(self).keeps_tokens(old(self)),
            *final(list) == *old(list),
            res == old(self)@.read_result(old(list).target()),
            final(self)@ == old(self)@.after_read(old(list).target()),
    {
        match list.block {
            None => Err(()),
            Some(block) => {
                let offset = list.offset;
                let ghost pos = list.pos@;
                let ghost b = block_of(pos);
                proof {
                    self.lemma_claimed(pos);
                    let slots = self.blocks@[block as int]->Some_0.slots@;
                    lemma_flags(slots[offset as int].state);
                }
                // Read the message.
                let msg = self.blocks.take_message(block, offset).unwrap();
                self.log = Ghost(self.log@.read(pos));
                let ghost taken = self.blocks@[block as int]->Some_0;
                // Destroy the block if we've reached the end, or if another reader wanted to destroy
                // but couldn't because we were busy reading from the slot.
                if offset + 1 == BLOCK_CAP {
                    self.blocks.destroy(block, 0);
                    proof {
                        self.lemma_destroyed(old(self), pos, taken, 0);
                    }
                } else {
                    let state = self.blocks.fetch_or(block, offset, READ);
                    let ghost marked = self.blocks@[block as int]->Some_0;
                    proof {
                        let slots = old(self).blocks@[block as int]->Some_0.slots@;
                        assert(marked.slots@ =~= slots.update(
                            offset as int,
                            marked.slots@[offset as int],
                        ));
                    }
                    if state & DESTROY != 0 {
                        self.blocks.destroy(block, offset + 1);
                        proof {
                            self.lemma_destroyed(old(self), pos, marked, offset as int + 1);
                        }
                    } else {
                        proof {
                            self.lemma_not_destroyed(old(self), pos);
                        }
                    }
                }
                proof {
                    self.lemma_changed(old(self), b);
                }
                Ok(msg)
            },
        }
    }

    /// A reader who was to destroy the block has freed it, or left that to the first slot that is
    /// still to be read from.
    proof fn lemma_destroyed(&self, before: &Channel<T>, pos: nat, marked: Block<T>, start: int)
        requires
            before.wf(),
            pos < before.log@.tail(),
            before.log@.cells[pos as int] is Full,
            self.log@ == before.log@.read(pos),
            self.chain == before.chain,
            self.owner == before.owner,
            ({
                let (b, offset) = (block_of(pos), offset_of(pos));
                let id = before.chain@[b as int] as int;
                let block = before.blocks@[id]->Some_0;
                let slot = marked.slots@[offset as int];
                let after = self.blocks@[id];
                &&& same_but(before.blocks@, self.blocks@, id)
                &&& marked.next == block.next
                &&& marked.slots@ == block.slots@.update(offset as int, slot)
                &&& slot.msg is None
                &&& offset < 30 ==> slot.is_read()
                &&& offset == 30 ==> start == 0
                &&& offset < 30 ==> start == offset + 1 && block.slots@[offset as int].destroying()
                &&& if forall|o: int|
                    start <= o < 30 ==> #[trigger] marked.slots@[o].is_read() {
                    after is None
                } else {
                    &&& after is Some
                    &&& after->Some_0.next == marked.next
                    &&& exists|o: int|
                        {
                            &&& start <= o < 30
                            &&& !#[trigger] marked.slots@[o].is_read()
                            &&& forall|k: int|
                                start <= k < o ==> #[trigger] marked.slots@[k].is_read()
                            &&& after->Some_0.slots@ == marked.slots@.update(
                                o,
                                Slot {
                                    state: marked.slots@[o].state | DESTROY,
                                    ..marked.slots@[o]
                                },
                            )
                        }
                }
            }),
        ensures
            if all_read(self.log@, block_of(pos)) {
                self.blocks@[before.chain@[block_of(pos) as int] as int] is None
            } else {
                self.block_ok(block_of(pos))
            },
    {
        let (b, offset) = (block_of(pos), offset_of(pos));
        let id = before.chain@[b as int] as int;
        let block = before.blocks@[id]->Some_0;
        let after = self.blocks@[id];
        before.lemma_claimed(pos);
        if offset == 30 {
            assert(!read_at(before.log@, b, 30));
        } else {
            assert(stuck(before.log@, b, offset));
        }
        assert(read_at(self.log@, b, 30)) by {
            if offset < 30 {
                assert(read_at(before.log@, b, 30));
            }
        }
        assert forall|k: nat| k < start implies #[trigger] read_at(self.log@, b, k) by {
            if k < offset {
                assert(read_at(before.log@, b, k));
            }
        }
        assert forall|o: nat| o < 30 implies #[trigger] marked.slots@[o as int].is_read()
            == read_at(self.log@, b, o) by {
            assert(slot_ok(before.log@, b, o, block.slots@[o as int]));
        }
        if forall|o: int| start <= o < 30 ==> #[trigger] marked.slots@[o].is_read() {
            assert forall|o: nat| o < 31 implies #[trigger] read_at(self.log@, b, o) by {
                if start <= o < 30 {
                    assert(marked.slots@[o as int].is_read());
                }
            }
        } else {
            let first = choose|o: int|
                {
                    &&& start <= o < 30
                    &&& !#[trigger] marked.slots@[o].is_read()
                    &&& forall|k: int| start <= k < o ==> #[trigger] marked.slots@[k].is_read()
                    &&& after->Some_0.slots@ == marked.slots@.update(
                        o,
                        Slot { state: marked.slots@[o].state | DESTROY, ..marked.slots@[o] },
                    )
                };
            lemma_flags(marked.slots@[first].state);
            assert(!read_at(self.log@, b, first as nat));
            assert forall|k: nat| k < first implies #[trigger] read_at(self.log@, b, k) by {
                if start <= k {
                    assert(marked.slots@[k as int].is_read());
                }
            }
            assert(stuck(self.log@, b, first as nat));
            let slots = after->Some_0.slots@;
            assert forall|o: nat| o < 31 implies #[trigger] slot_ok(
                self.log@,
                b,
                o,
                slots[o as int],
            ) by {
                assert(slot_ok(before.log@, b, o, block.slots@[o as int]));
                if o != offset && !read_at(self.log@, b, o) {
                    assert(!stuck(before.log@, b, o)) by {
                        if offset < 30 && o > offset {
                            assert(!read_at(before.log@, b, offset));
                        }
                    }
                    assert(stuck(self.log@, b, o) == (o == first)) by {
                        if o > first {
                            assert(!read_at(self.log@, b, first as nat));
                        }
                    }
                }
            }
        }
    }

    /// A reader who was not to destroy the block leaves it to others to do so.
    proof fn lemma_not_destroyed(&self, before: &Channel<T>, pos: nat)
        requires
            before.wf(),
            pos < before.log@.tail(),
            before.log@.cells[pos as int] is Full,
            self.log@ == before.log@.read(pos),
            self.chain == before.chain,
            self.owner == before.owner,
            offset_of(pos) < 30,
            ({
                let (b, offset) = (block_of(pos), offset_of(pos));
                let id = before.chain@[b as int] as int;
                let block = before.blocks@[id]->Some_0;
                let after = self.blocks@[id]->Some_0;
                let slot = after.slots@[offset as int];
                &&& same_but(before.blocks@, self.blocks@, id)
                &&& self.blocks@[id] is Some
                &&& after.next == block.next
                &&& after.slots@ == block.slots@.update(offset as int, slot)
                &&& slot.msg is None
                &&& slot.is_read()
                &&& !block.slots@[offset as int].destroying()
            }),
        ensures
            !all_read(self.log@, block_of(pos)),
            self.block_ok(block_of(pos)),
    {
        let (b, offset) = (block_of(pos), offset_of(pos));
        let id = before.chain@[b as int] as int;
        let block = before.blocks@[id]->Some_0;
        let after = self.blocks@[id]->Some_0;
        before.lemma_claimed(pos);
        assert(!stuck(before.log@, b, offset));
        assert(!read_at(before.log@, b, offset));
        let left = if read_at(before.log@, b, 30) {
            choose|k: nat| k < offset && !#[trigger] read_at(before.log@, b, k)
        } else {
            30
        };
        assert(!read_at(before.log@, b, left) && left != offset && left < 31);
        assert(!read_at(self.log@, b, left));
        assert forall|o: nat| o < 31 implies #[trigger] slot_ok(
            self.log@,
            b,
            o,
            after.slots@[o as int],
        ) by {
            assert(slot_ok(before.log@, b, o, block.slots@[o as int]));
            if o != offset && !read_at(self.log@, b, o) {
                assert(stuck(self.log@, b, o) == stuck(before.log@, b, o)) by {
                    assert(read_at(self.log@, b, 30) == read_at(before.log@, b, 30));
                    if stuck(before.log@, b, o) {
                        assert forall|k: nat| k < o implies #[trigger] read_at(
                            self.log@,
                            b,
                            k,
                        ) by {
                            assert(read_at(before.log@, b, k));
                        }
                    }
                    if stuck(self.log@, b, o) {
                        assert forall|k: nat| k < o implies #[trigger] read_at(
                            before.log@,
                            b,
                            k,
                        ) by {
                            assert(read_at(self.log@, b, k));
                            if k == offset {
                                assert(read_at(self.log@, b, left));
                            }
                        }
                    }
                }
            }
        }
    }

    /// Reads a message from the claimed slot, for a poll: the end of the channel is no failure.
    pub fn poll_read(&mut self, list: &mut List) -> (res: Result<Async<Option<T>>, ()>)
        requires
            old(self).wf(),
            old(self).token(*old(list)),
            old(list).target() matches Some(p) ==> p < old(self)@.log.head && old(
                self,
            )@.log.cells[p as int] is Full,
        ensures
            final(self).wf(),
            final(self).keeps_tokens(old(self)),
            *final(list) == *old(list),
            res == old(self)@.poll_read_result(old(list).target()),
            final(self)@ == old(self)@.after_read(old(list).target()),
    {
        match self.read(list) {
            Ok(msg) => Ok(Async::Ready(Some(msg))),
            Err(()) => Ok(Async::Ready(None)),
        }
    }

    /// Attempts to send a message into the channel.
    pub fn try_send(&mut self, msg: T) -> (res: Result<(), TrySendError<T>>)
        requires
            old(self).wf(),
            old(self)@.log.len() < max_len(),
        ensures
            final(self).wf(),
            final(self).keeps_tokens(old(self)),
            old(self)@.log.settled() ==> final(self)@.log.settled(),
            final(self)@ == old(self)@.after_send(msg),
            res == if old(self)@.log.closed {
                Err(TrySendError { kind: ErrorKind::Closed, value: msg })
            } else {
                Ok(())
            },
    {
        match self.send(msg) {
            Ok(()) => Ok(()),
            Err(SendTimeoutError::Disconnected(msg)) => Err(
                TrySendError { kind: ErrorKind::Closed, value: msg },
            ),
            Err(SendTimeoutError::Timeout(msg)) => Err(
                TrySendError { kind: ErrorKind::NoCapacity, value: msg },
            ),
        }
    }

    /// Sends a message into the channel. There is always room for it, so that no deadline matters.
    pub fn send(&mut self, msg: T) -> (res: Result<(), SendTimeoutError<T>>)
        requires
            old(self).wf(),
            old(self)@.log.len() < max_len(),
        ensures
            final(self).wf(),
            final(self).keeps_tokens(old(self)),
            old(self)@.log.settled() ==> final(self)@.log.settled(),
            final(self)@ == old(self)@.after_send(msg),
            res == if old(self)@.log.closed {
                Err(SendTimeoutError::Disconnected(msg))
            } else {
                Ok(())
            },
    {
        let mut list = List::default();
        let claimed = self.start_send(&mut list);
        assert(claimed);
        match self.write(&mut list, msg) {
            Ok(()) => Ok(()),
            Err(msg) => Err(SendTimeoutError::Disconnected(msg)),
        }
    }

    /// Attempts to receive a message without blocking.
    pub fn try_recv(&mut self) -> (res: Result<T, TryRecvError>)
        requires
            old(self).wf(),
            old(self)@.recv_ready(),
        ensures
            final(self).wf(),
            final(self).keeps_tokens(old(self)),
            old(self)@.log.settled() ==> final(self)@.log.settled(),
            final(self)@ == old(self)@.after_try_recv(),
            res == old(self)@.try_recv_result(),
    {
        let mut list = List::default();
        if self.start_recv(&mut list) {
            match self.read(&mut list) {
                Ok(msg) => Ok(msg),
                Err(()) => Err(TryRecvError::Disconnected),
            }
        } else {
            Err(TryRecvError::Empty)
        }
    }

    /// Returns the current number of messages inside the channel.
    pub fn len(&self) -> (len: usize)
        requires
            self.wf(),
        ensures
            len == self@.log.len(),
    {
        let ghost pos = self.log@.head;
        let ghost end = self.log@.tail();
        let ghost blocks = block_of(end) - block_of(pos);
        let mut tail = self.tail.index;
        let mut head = self.head.index;
        proof {
            lemma_index(pos, head % 2 == 1);
            lemma_index(end, self.log@.closed);
            lemma_index(pos, false);
            lemma_index(end, false);
            lemma_bits(head);
            lemma_bits(tail);
            lemma_rotated(pos, end);
        }
        // Erase the lower bits.
        tail = tail & !((1 << SHIFT) - 1);
        head = head & !((1 << SHIFT) - 1);
        proof {
            assert(tail == index_of(end) && head == index_of(pos));
            lemma_bits(head);
        }
        // Rotate indices so that head falls into the first block.
        let lap = (head >> SHIFT) / LAP;
        proof {
            assert(lap == lap_of(pos));
            vstd::arithmetic::power2::lemma2_to64();
            vstd::bits::lemma_usize_shl_is_mul((lap * LAP) as usize, SHIFT);
        }
        tail = tail.wrapping_sub((lap * LAP) << SHIFT);
        head = head.wrapping_sub((lap * LAP) << SHIFT);
        proof {
            assert(tail == 2 * (32 * blocks + offset_of(end)));
            assert(head == 2 * offset_of(pos));
            lemma_bits(head);
            lemma_bits(tail);
        }
        // Remove the lower bits.
        tail = tail >> SHIFT;
        head = head >> SHIFT;

        // Fix up indices if they fall onto block ends.
        if head == BLOCK_CAP {
            head = 0;
            tail = tail - LAP;
        }
        if tail == BLOCK_CAP {
            tail = tail + 1;
        }
        // Return the difference minus the number of blocks between tail and head.

        tail - head - tail / LAP
    }

    /// Returns the capacity of the channel: there is no limit.
    pub fn capacity(&self) -> (cap: Option<usize>)
        ensures
            cap is None,
    {
        None
    }

    /// Returns `true` if the channel is empty.
    pub fn is_empty(&self) -> (empty: bool)
        requires
            self.wf(),
        ensures
            empty == (self@.log.len() == 0),
    {
        proof {
            lemma_index(self.log@.head, self.head.index % 2 == 1);
            lemma_index(self.log@.tail(), self.log@.closed);
            lemma_bits(self.head.index);
            lemma_bits(self.tail.index);
            lemma_distinct(self.log@.head, self.log@.tail());
        }
        self.head.index >> SHIFT == self.tail.index >> SHIFT
    }

    /// Returns `true` if the channel is full, which it never is.
    pub fn is_full(&self) -> (full: bool)
        ensures
            !full,
    {
        false
    }

    /// Whether a poll would have its task wait.
    pub fn poll_registers(&self) -> (registers: bool)
        requires
            self.wf(),
        ensures
            registers == self@.poll_registers(),
    {
        self.is_empty() && !self.is_shutdown() && (self.first || self.receivers.to_answer())
    }

    /// Polls for a message. Where there is none and the channel is not disconnected, `task` waits
    /// for one, if this is the first poll to wait or one that answers a notification.
    pub fn poll(&mut self, task: u64) -> (res: Result<Async<Option<T>>, ()>)
        requires
            old(self).wf(),
            old(self)@.recv_ready(),
        ensures
            final(self).wf(),
            final(self).keeps_tokens(old(self)),
            old(self)@.log.settled() ==> final(self)@.log.settled(),
            final(self)@ == old(self)@.after_poll(task),
            res is Ok,
            res->Ok_0 == old(self)@.poll_result(),
    {
        let mut list = List::default();
        let ready = self.start_recv(&mut list);
        let ghost before = *self;
        if ready {
            self.poll_read(&mut list)
        } else if self.first {
            self.first = false;
            self.receivers.register(task);
            proof {
                self.lemma_kept(&before);
            }
            if self.start_recv(&mut list) {
                self.poll_read(&mut list)
            } else {
                Ok(Async::NotReady)
            }
        } else if self.receivers.answer() {
            self.receivers.register(task);
            proof {
                self.lemma_kept(&before);
            }
            if self.start_recv(&mut list) {
                self.poll_read(&mut list)
            } else {
                Ok(Async::NotReady)
            }
        } else {
            proof {
                self.lemma_kept(&before);
            }
            Ok(Async::NotReady)
        }
    }

    /// Sends an item into the channel as into a sink.
    pub fn sink_start_send(&mut self, item: T) -> (res: Result<AsyncSink<T>, SendError>)
        requires
            old(self).wf(),
            old(self)@.log.len() < max_len(),
        ensures
            final(self).wf(),
            final(self).keeps_tokens(old(self)),
            old(self)@.log.settled() ==> final(self)@.log.settled(),
            final(self)@ == old(self)@.after_send(item),
            res is Err <==> old(self)@.log.closed,
            res is Ok ==> res->Ok_0 == AsyncSink::<T>::Ready,
    {
        match self.try_send(item) {
            Ok(()) => Ok(AsyncSink::Ready),
            Err(_) => Err(SendError),
        }
    }

    /// An item that was sent needs no flushing.
    pub fn poll_complete(&mut self) -> (res: Result<Async<()>, SendError>)
        ensures
            *final(self) == *old(self),
            res is Ok,
            res->Ok_0 == Async::Ready(()),
    {
        Ok(Async::Ready(()))
    }

    /// The tasks that the channel has notified.
    pub fn take_notified(&mut self) -> (tasks: Vec<u64>)
        requires
            old(self).wf(),
        ensures
            final(self).wf(),
            final(self).keeps_tokens(old(self)),
            tasks@ == old(self)@.receivers.notified,
            final(self)@ == old(self)@.after_take_notified(),
    {
        let tasks = self.receivers.take_notified();
        proof {
            self.lemma_kept(old(self));
        }
        tasks
    }

    /// The blocks from the one of `pos` on hold the messages from `pos` on.
    spec fn holds_from(&self, blocks: Seq<Option<Block<T>>>, pos: nat) -> bool {
        &&& forall|b: nat|
            block_of(pos) <= b <= block_of(self.log@.tail()) ==> #[trigger] self.holds_block(
                blocks,
                b,
            )
        &&& forall|p: nat|
            pos <= p < self.log@.tail() ==> #[trigger] self.holds_message(blocks, p)
    }

    /// The block `b` is in its place, and linked to the next one.
    spec fn holds_block(&self, blocks: Seq<Option<Block<T>>>, b: nat) -> bool {
        let id = self.chain@[b as int];
        &&& id < blocks.len()
        &&& blocks[id as int] is Some
        &&& blocks[id as int]->Some_0.slots@.len() == BLOCK_CAP
        &&& b < block_of(self.log@.tail()) ==> blocks[id as int]->Some_0.next == Some(
            self.chain@[b as int + 1],
        )
    }

    /// The message of the position `p` is in its slot.
    spec fn holds_message(&self, blocks: Seq<Option<Block<T>>>, p: nat) -> bool {
        let id = self.chain@[block_of(p) as int];
        blocks[id as int]->Some_0.slots@[offset_of(p) as int].msg == Some(
            self.log@.message(p as int),
        )
    }

    /// The blocks that hold the messages still to be received are all there, in different places.
    proof fn lemma_holds(&self)
        requires
            self.wf(),
            self.log@.settled(),
            self.log@.tail() > 0,
        ensures
            self.holds_from(self.blocks@, self.log@.head),
            forall|b: nat, c: nat|
                #![trigger self.chain@[b as int], self.chain@[c as int]]
                block_of(self.log@.head) <= b < c <= block_of(self.log@.tail())
                    ==> self.chain@[b as int] != self.chain@[c as int],
    {
        assert forall|b: nat|
            block_of(self.log@.head) <= b <= block_of(
                self.log@.tail(),
            ) implies #[trigger] self.holds_block(self.blocks@, b)
            && self.owner@[self.chain@[b as int] as int] == b by {
            assert(!read_at(self.log@, b, 30));
            assert(self.live(b));
            assert(self.block_ok(b));
        }
        assert forall|p: nat|
            self.log@.head <= p < self.log@.tail() implies #[trigger] self.holds_message(
            self.blocks@,
            p,
        ) by {
            self.lemma_claimed(p);
        }
        assert forall|b: nat, c: nat|
            #![trigger self.chain@[b as int], self.chain@[c as int]]
            block_of(self.log@.head) <= b < c <= block_of(
                self.log@.tail(),
            ) implies self.chain@[b as int] != self.chain@[c as int] by {
            assert(self.holds_block(self.blocks@, b));
            assert(self.holds_block(self.blocks@, c));
        }
    }

    /// Takes the messages out of a channel that is given up, the one to be received first first.
    pub fn into_messages(self) -> (msgs: Vec<T>)
        requires
            self.wf(),
            self@.log.settled(),
        ensures
            msgs@ == self@.log.queue(),
    {
        let ghost chan = self;
        let ghost end = self.log@.tail();
        let mut msgs: Vec<T> = Vec::new();
        let mut head = self.head.index;
        let mut tail = self.tail.index;
        let mut block = self.head.block;
        let mut blocks = self.blocks;
        let ghost mut cur = chan.log@.head;
        let ghost mut at_end = false;
        proof {
            lemma_index(cur, head % 2 == 1);
            lemma_index(cur, false);
            lemma_index(end, chan.log@.closed);
            lemma_index(end, false);
            lemma_bits(head);
            lemma_bits(tail);
            if end > 0 {
                chan.lemma_holds();
            }
        }
        // Erase the lower bits.
        head = head & !((1 << SHIFT) - 1);
        tail = tail & !((1 << SHIFT) - 1);

        // Take all messages between head and tail and deallocate the blocks.
        while head != tail
            invariant
                chan.wf(),
                chan.log@.settled(),
                end == chan.log@.tail(),
                chan.log@.head <= cur <= end,
                tail == index_of(end),
                !at_end ==> head == index_of(cur),
                at_end ==> cur > chan.log@.head && offset_of((cur - 1) as nat) == 30 && head
                    == index_of((cur - 1) as nat) + 2,
                end > 0 ==> chan.holds_from(blocks@, cur),
                end == 0 ==> block is None,
                end > 0 && !at_end ==> block == Some(chan.chain@[block_of(cur) as int]),
                at_end ==> block == Some(chan.chain@[block_of((cur - 1) as nat) as int])
                    && chan.holds_block(blocks@, block_of((cur - 1) as nat)),
                end > 0 ==> forall|b: nat, c: nat|
                    #![trigger chan.chain@[b as int], chan.chain@[c as int]]
                    block_of(chan.log@.head) <= b < c <= block_of(end) ==> chan.chain@[b as int]
                        != chan.chain@[c as int],
                msgs@ == chan.log@.queue().subrange(0, cur - chan.log@.head),
            decreases 2 * (end - cur) + if at_end {
                1int
            } else {
                0
            },
        {
            proof {
                lemma_bits(head);
                lemma_index(cur, false);
                lemma_next(cur);
                if at_end {
                    lemma_index((cur - 1) as nat, false);
                    lemma_next((cur - 1) as nat);
                } else {
                    lemma_distinct(cur, end);
                    assert(chan.holds_block(blocks@, block_of(cur)));
                    assert(chan.holds_message(blocks@, cur));
                }
            }
            let offset = (head >> SHIFT) % LAP;
            let ghost before = blocks@;
            if let Some(id) = block {
                if offset < BLOCK_CAP {
                    // Take the message out of the slot.
                    if let Some(msg) = blocks.take_message(id, offset) {
                        msgs.push(msg);
                    }
                    proof {
                        assert forall|b: nat|
                            block_of(cur) <= b <= block_of(end) implies #[trigger] chan.holds_block(
                            blocks@,
                            b,
                        ) by {
                            assert(chan.holds_block(before, b));
                            if b != block_of(cur) {
                                assert(chan.chain@[block_of(cur) as int] != chan.chain@[b as int]);
                            }
                        }
                        assert forall|p: nat|
                            cur + 1 <= p < end implies #[trigger] chan.holds_message(
                            blocks@,
                            p,
                        ) by {
                            assert(chan.holds_message(before, p));
                            assert(chan.holds_block(before, block_of(p)));
                            if block_of(p) != block_of(cur) {
                                assert(chan.chain@[block_of(cur) as int] != chan.chain@[block_of(
                                    p,
                                ) as int]);
                            }
                        }
                        assert(msgs@ =~= chan.log@.queue().subrange(
                            0,
                            cur + 1 - chan.log@.head,
                        ));
                        at_end = offset == 30;
                        cur = cur + 1;
                    }
                } else {
                    // Deallocate the block and move to the next one.
                    let next = blocks.next(id);
                    blocks.free(id);
                    block = next;
                    proof {
                        let freed = block_of((cur - 1) as nat);
                        assert forall|b: nat|
                            block_of(cur) <= b <= block_of(end) implies #[trigger] chan.holds_block(
                            blocks@,
                            b,
                        ) by {
                            assert(chan.holds_block(before, b));
                            assert(chan.chain@[freed as int] != chan.chain@[b as int]);
                        }
                        assert forall|p: nat|
                            cur <= p < end implies #[trigger] chan.holds_message(blocks@, p) by {
                            assert(chan.holds_message(before, p));
                            assert(chan.holds_block(before, block_of(p)));
                            assert(chan.chain@[freed as int] != chan.chain@[block_of(p) as int]);
                        }
                        at_end = false;
                    }
                }
            }
            head = head.wrapping_add(1 << SHIFT);
        }
        proof {
            if !at_end {
                lemma_distinct(cur, end);
            } else {
                lemma_index((cur - 1) as nat, false);
                lemma_index(end, false);
            }
            assert(msgs@ =~= chan.log@.queue());
        }
        // Deallocate the last remaining block.
        if let Some(id) = block {
            proof {
                if end > 0 {
                    assert(chan.holds_block(blocks@, block_of(end)));
                }
            }
            blocks.free(id);
        }
        msgs
    }

    /// A position whose message is under way has a slot.
    proof fn lemma_claimed(&self, pos: nat)
        requires
            self.wf(),
            pos < self.log@.tail(),
            !(self.log@.cells[pos as int] is Read),
        ensures
            self.live(block_of(pos)),
            self.block_ok(block_of(pos)),
            slot_ok(
                self.log@,
                block_of(pos),
                offset_of(pos),
                self.blocks@[self.chain@[block_of(pos) as int] as int]->Some_0.slots@[offset_of(
                    pos,
                ) as int],
            ),
    {
        assert(!read_at(self.log@, block_of(pos), offset_of(pos)));
        assert(self.live(block_of(pos)));
    }

    /// What has happened to the blocks leaves them as the log says, where it was at most one block,
    /// and that one is as it should be.
    proof fn lemma_changed(&self, before: &Channel<T>, changed: nat)
        requires
            before.blocks_ok(),
            before.live(changed),
            same_but(before.blocks@, self.blocks@, before.chain@[changed as int] as int),
            self.owner == before.owner,
            self.chain == before.chain,
            same_elsewhere(before.log@, self.log@, changed),
            if all_read(self.log@, changed) {
                self.blocks@[before.chain@[changed as int] as int] is None
            } else {
                self.block_ok(changed)
            },
        ensures
            self.blocks_ok(),
    {
        assert(before.block_ok(changed));
        assert forall|b: nat| b != changed implies #[trigger] all_read(self.log@, b) == all_read(
            before.log@,
            b,
        ) by {
            self.lemma_other_block(before, b, changed);
        }
        assert forall|b: nat| #[trigger] self.live(b) implies self.block_ok(b) by {
            if b != changed {
                self.lemma_other_block(before, b, changed);
                assert(before.live(b));
                assert(before.block_ok(b));
                let block = self.blocks@[self.chain@[b as int] as int]->Some_0;
                assert(block == before.blocks@[self.chain@[b as int] as int]->Some_0);
                assert forall|o: nat| o < 31 implies #[trigger] slot_ok(
                    self.log@,
                    b,
                    o,
                    block.slots@[o as int],
                ) by {
                    assert(slot_ok(before.log@, b, o, block.slots@[o as int]));
                    assert(stuck(self.log@, b, o) == stuck(before.log@, b, o));
                    assert((31 * b + o) as int / 31 == b);
                }
            }
        }
        assert forall|i: int| 0 <= i < self.blocks@.len() implies #[trigger] self.place_ok(i) by {
            assert(before.place_ok(i));
            if self.blocks@[i] is Some && i != before.chain@[changed as int] {
                assert(before.live(before.owner@[i]));
                assert(before.owner@[i] != changed);
                assert(all_read(self.log@, before.owner@[i]) == all_read(
                    before.log@,
                    before.owner@[i],
                ));
            }
        }
    }

    /// What has been read of the other blocks.
    proof fn lemma_other_block(&self, before: &Channel<T>, b: nat, changed: nat)
        requires
            b != changed,
            same_elsewhere(before.log@, self.log@, changed),
        ensures
            all_read(self.log@, b) == all_read(before.log@, b),
            forall|o: nat| #[trigger] stuck(self.log@, b, o) == stuck(before.log@, b, o),
    {
        assert forall|o: nat| o < 31 implies #[trigger] read_at(self.log@, b, o) == read_at(
            before.log@,
            b,
            o,
        ) by {
            assert((31 * b + o) as int / 31 == b);
        }
        lemma_same_reads(before.log@, self.log@, b);
    }

    /// What leaves blocks and messages as they are keeps them in agreement.
    proof fn lemma_kept(&self, before: &Channel<T>)
        requires
            before.blocks_ok(),
            self.blocks == before.blocks,
            self.owner == before.owner,
            self.chain == before.chain,
            self.log@.cells == before.log@.cells,
        ensures
            self.keeps_tokens(before),
            self.blocks_ok(),
    {
        assert forall|b: nat| #[trigger] self.live(b) implies self.block_ok(b) by {
            assert forall|o: nat| #[trigger] read_at(self.log@, b, o) == read_at(
                before.log@,
                b,
                o,
            ) by {}
            lemma_same_reads(before.log@, self.log@, b);
            assert(before.live(b));
            assert(before.block_ok(b));
            let block = self.blocks@[self.chain@[b as int] as int]->Some_0;
            assert forall|o: nat| o < 31 implies #[trigger] slot_ok(
                self.log@,
                b,
                o,
                block.slots@[o as int],
            ) by {
                assert(slot_ok(before.log@, b, o, block.slots@[o as int]));
                assert(stuck(self.log@, b, o) == stuck(before.log@, b, o));
            }
        }
        assert forall|i: int| 0 <= i < self.blocks@.len() implies #[trigger] self.place_ok(i) by {
            assert(before.place_ok(i));
            if self.blocks@[i] is Some {
                let b = before.owner@[i];
                assert(before.live(b));
                assert forall|o: nat| #[trigger] read_at(self.log@, b, o) == read_at(
                    before.log@,
                    b,
                    o,
                ) by {}
                lemma_same_reads(before.log@, self.log@, b);
            }
        }
    }

    /// A new claim concerns one slot, which looks the same.
    proof fn lemma_claim(&self, before: &Channel<T>)
        requires
            before.blocks_ok(),
            self.blocks == before.blocks,
            self.owner == before.owner,
            self.chain == before.chain,
            self.log@ == before.log@.claim_send(),
            block_of(before.log@.tail()) < self.chain@.len(),
        ensures
            self.blocks_ok(),
    {
        let pos = before.log@.tail();
        let b = block_of(pos);
        assert(!read_at(before.log@, b, offset_of(pos)));
        assert(!read_at(self.log@, b, offset_of(pos)));
        assert(before.live(b));
        assert(before.block_ok(b));
        assert forall|o: nat| #[trigger] read_at(self.log@, b, o) == read_at(
            before.log@,
            b,
            o,
        ) by {}
        lemma_same_reads(before.log@, self.log@, b);
        lemma_flags(0);
        let block = self.blocks@[self.chain@[b as int] as int]->Some_0;
        assert forall|o: nat| o < 31 implies #[trigger] slot_ok(
            self.log@,
            b,
            o,
            block.slots@[o as int],
        ) by {
            assert(slot_ok(before.log@, b, o, block.slots@[o as int]));
            assert(stuck(self.log@, b, o) == stuck(before.log@, b, o));
            if 31 * b + o == pos {
                assert(!read_at(self.log@, b, 30));
            }
        }
        self.lemma_changed(before, b);
    }

    /// Allocates the block that follows all others, and links it to the last one.
    fn append_block(&mut self, last: Option<usize>) -> (id: usize)
        requires
            old(self).blocks_ok(),
            old(self).log@.tail() <= 31 * old(self).chain@.len(),
            match last {
                None => old(self).chain@.len() == 0,
                Some(last) => {
                    &&& old(self).chain@.len() > 0
                    &&& last == old(self).chain@.last()
                    &&& old(self).live((old(self).chain@.len() - 1) as nat)
                },
            },
        ensures
            final(self).blocks_ok(),
            final(self).chain@ == old(self).chain@.push(id),
            final(self).log == old(self).log,
            final(self).receivers == old(self).receivers,
            final(self).first == old(self).first,
            final(self).head == old(self).head,
            final(self).tail == old(self).tail,
    {
        let ghost b = self.chain@.len();
        let id = self.blocks.allocate();
        self.owner = Ghost(
            if id < self.owner@.len() {
                self.owner@.update(id as int, b)
            } else {
                self.owner@.push(b)
            },
        );
        self.chain = Ghost(self.chain@.push(id));
        proof {
            if b > 0 {
                assert(old(self).block_ok((b - 1) as nat));
            }
        }
        if let Some(last) = last {
            self.blocks.link(last, id);
        }
        proof {
            assert forall|c: nat| #[trigger] self.live(c) implies self.block_ok(c) by {
                if c < b {
                    assert(old(self).live(c));
                    assert(old(self).block_ok(c));
                    if last is Some && c != b - 1 {
                        assert(old(self).block_ok((b - 1) as nat));
                    }
                    let block = self.blocks@[self.chain@[c as int] as int]->Some_0;
                    assert forall|o: nat| o < 31 implies #[trigger] slot_ok(
                        self.log@,
                        c,
                        o,
                        block.slots@[o as int],
                    ) by {
                        let before = old(self).blocks@[self.chain@[c as int] as int]->Some_0;
                        assert(slot_ok(self.log@, c, o, before.slots@[o as int]));
                    }
                } else {
                    let block = self.blocks@[id as int]->Some_0;
                    assert forall|o: nat| o < 31 implies #[trigger] slot_ok(
                        self.log@,
                        c,
                        o,
                        block.slots@[o as int],
                    ) by {
                        assert(block.slots@[o as int].fresh());
                    }
                }
            }
            assert(!read_at(self.log@, b, 0));
            assert(self.live(b));
            assert forall|i: int| 0 <= i < self.blocks@.len() implies #[trigger] self.place_ok(
                i,
            ) by {
                if i != id {
                    assert(old(self).place_ok(i));
                    if self.blocks@[i] is Some {
                        assert(old(self).live(old(self).owner@[i]));
                    }
                }
            }
        }
        id
    }
}

/// What has been read of a block decides what is stuck and whether it is done with.
proof fn lemma_same_reads<T>(before: Log<T>, after: Log<T>, b: nat)
    requires
        forall|o: nat| o < 31 ==> #[trigger] read_at(after, b, o) == read_at(before, b, o),
    ensures
        all_read(after, b) == all_read(before, b),
        forall|o: nat| #[trigger] stuck(after, b, o) == stuck(before, b, o),
{
    if all_read(before, b) {
        assert forall|o: nat| o < 31 implies #[trigger] read_at(after, b, o) by {
            assert(read_at(before, b, o));
        }
    }
    if all_read(after, b) {
        assert forall|o: nat| o < 31 implies #[trigger] read_at(before, b, o) by {
            assert(read_at(after, b, o));
        }
    }
    assert forall|o: nat| #[trigger] stuck(after, b, o) == stuck(before, b, o) by {
        assert(read_at(after, b, 30) == read_at(before, b, 30));
        if o < 31 {
            assert(read_at(after, b, o) == read_at(before, b, o));
        }
        if stuck(before, b, o) {
            assert forall|k: nat| k < o implies #[trigger] read_at(after, b, k) by {
                assert(read_at(before, b, k));
            }
        }
        if stuck(after, b, o) {
            assert forall|k: nat| k < o implies #[trigger] read_at(before, b, k) by {
                assert(read_at(after, b, k));
            }
        }
    }
}

/// Head and tail, rotated so that the head falls into the first block.
proof fn lemma_rotated(pos: nat, end: nat)
    requires
        pos <= end <= pos + max_len(),
    ensures
        ({
            let blocks = block_of(end) - block_of(pos);
            let turn = (64 * lap_of(pos)) as usize;
            &&& turn == 64 * lap_of(pos)
            &&& index_of(end).wrapping_sub(turn) == 2 * (32 * blocks + offset_of(end))
            &&& index_of(pos).wrapping_sub(turn) == 2 * offset_of(pos)
            &&& end - pos == 31 * blocks + offset_of(end) - offset_of(pos)
            &&& blocks >= 0
        }),
{
    lemma_laps();
    lemma_index(pos, false);
    lemma_index(end, false);
    lemma_apart(pos, end);
}

/// Head and tail, seen from the block of the head.
proof fn lemma_apart(pos: nat, end: nat)
    requires
        pos <= end <= pos + max_len(),
    ensures
        ({
            let blocks = block_of(end) - block_of(pos);
            &&& 0 <= blocks < crate::index::laps()
            &&& lap_of(end) == if lap_of(pos) + blocks < crate::index::laps() {
                lap_of(pos) + blocks
            } else {
                lap_of(pos) + blocks - crate::index::laps()
            }
            &&& end - pos == 31 * blocks + offset_of(end) - offset_of(pos)
        }),
{
    let laps = crate::index::laps();
    lemma_laps();
    let (a, b) = (block_of(pos) as int, block_of(end) as int);
    vstd::arithmetic::div_mod::lemma_fundamental_div_mod(a, laps);
    vstd::arithmetic::div_mod::lemma_mod_bound(a, laps);
    assert((a / laps) * laps == laps * (a / laps)) by (nonlinear_arith);
    if lap_of(pos) + (b - a) < laps {
        vstd::arithmetic::div_mod::lemma_fundamental_div_mod_converse(
            b,
            laps,
            a / laps,
            lap_of(pos) + (b - a),
        );
    } else {
        assert((a / laps + 1) * laps == laps * (a / laps) + laps) by (nonlinear_arith);
        vstd::arithmetic::div_mod::lemma_fundamental_div_mod_converse(
            b,
            laps,
            a / laps + 1,
            lap_of(pos) + (b - a) - laps,
        );
    }
}

impl<T> Shutdown for Channel<T> {
    open spec fn inv(&self) -> bool {
        self.wf()
    }

    open spec fn at_rest(&self) -> bool {
        self@.log.settled()
    }

    open spec fn limit(&self) -> Option<nat> {
        None
    }

    open spec fn shut(&self) -> bool {
        self@.log.closed
    }

    open spec fn closes(&self, before: &Self) -> bool {
        self@ == before@.after_shutdown()
    }

    /// Closes the channel and wakes all who wait on it.
    fn shutdown(&mut self) -> (closed: bool)
        ensures
            final(self)@ == old(self)@.after_shutdown(),
            final(self).keeps_tokens(old(self)),
    {
        let tail = self.tail.index;
        proof {
            lemma_index(self.log@.tail(), self.log@.closed);
            lemma_bits(tail);
        }
        self.tail.index = tail | MARK_BIT;
        if tail & MARK_BIT == 0 {
            self.log = Ghost(self.log@.close());
            self.receivers.wake_all();
            proof {
                self.lemma_kept(old(self));
            }
            true
        } else {
            proof {
                self.lemma_kept(old(self));
            }
            false
        }
    }

    fn is_shutdown(&self) -> (shut: bool) {
        proof {
            lemma_index(self.log@.tail(), self.log@.closed);
            lemma_bits(self.tail.index);
        }
        self.tail.index & MARK_BIT != 0
    }
}

impl<T> Default for Channel<T> {
    fn default() -> (chan: Self)
        ensures
            chan.wf(),
            chan@ == Unbounded::<T>::initial(),
    {
        Self::new()
    }
}

} // verus!
