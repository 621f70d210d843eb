//! The blocks of the unbounded channel, and the store that they are allocated from.
use crate::index::BLOCK_CAP;
use vstd::prelude::*;

verus! {

// Bits indicating the state of a slot
// * If a message has been written into the slot, `WRITE` is set.
// * If a message has been read from the slot, `READ` is set.
// * If the block is being destroyed, `DESTROY` is set.

/// A message has been written into the slot.
pub const WRITE: usize = 1;

/// A message has been read from the slot.
pub const READ: usize = 2;

/// The block is being destroyed: whoever reads from the slot goes on with it.
pub const DESTROY: usize = 4;

/// A slot in a block.
pub struct Slot<T> {
    /// The message.
    pub msg: Option<T>,
    /// The state of the slot.
    pub state: usize,
}

impl<T> Slot<T> {
    /// Whether a message has been written into the slot.
    pub open spec fn written(&self) -> bool {
        self.state & WRITE != 0
    }

    /// Whether the message has been read from the slot.
    pub open spec fn is_read(&self) -> bool {
        self.state & READ != 0
    }

    /// Whether a reader of the slot has to go on destroying the block.
    pub open spec fn destroying(&self) -> bool {
        self.state & DESTROY != 0
    }

    /// A slot that nothing has happened to.
    pub open spec fn fresh(&self) -> bool {
        self.msg is None && self.state == 0
    }
}

/// Setting one of the bits leaves the others as they are.
pub proof fn lemma_flags(state: usize)
    ensures
        (state | WRITE) & WRITE != 0,
        (state | WRITE) & READ == state & READ,
        (state | WRITE) & DESTROY == state & DESTROY,
        (state | READ) & READ != 0,
        (state | READ) & WRITE == state & WRITE,
        (state | READ) & DESTROY == state & DESTROY,
        (state | DESTROY) & DESTROY != 0,
        (state | DESTROY) & WRITE == state & WRITE,
        (state | DESTROY) & READ == state & READ,
        state == 0 ==> state & WRITE == 0 && state & READ == 0 && state & DESTROY == 0,
{
    assert((state | 1usize) & 1usize != 0 && (state | 1usize) & 2usize == state & 2usize && (state
        | 1usize) & 4usize == state & 4usize) by (bit_vector);
    assert((state | 2usize) & 2usize != 0 && (state | 2usize) & 1usize == state & 1usize && (state
        | 2usize) & 4usize == state & 4usize) by (bit_vector);
    assert((state | 4usize) & 4usize != 0 && (state | 4usize) & 1usize == state & 1usize && (state
        | 4usize) & 2usize == state & 2usize) by (bit_vector);
    assert(0usize & 1usize == 0 && 0usize & 2usize == 0 && 0usize & 4usize == 0) by (bit_vector);
}

/// A block in a linked list.
///
/// Each block in the list can hold up to `BLOCK_CAP` messages.
pub struct Block<T> {
    /// The next block in the linked list.
    pub next: Option<usize>,
    /// Slots for messages.
    pub slots: Vec<Slot<T>>,
}

impl<T> Block<T> {
    /// A block that nothing has happened to.
    pub open spec fn fresh(&self) -> bool {
        &&& self.next is None
        &&& self.slots@.len() == BLOCK_CAP
        &&& forall|o: int| 0 <= o < BLOCK_CAP ==> #[trigger] self.slots@[o].fresh()
    }

    /// Creates an empty block.
    pub fn new() -> (block: Block<T>)
        ensures
            block.fresh(),
    {
        let mut slots: Vec<Slot<T>> = Vec::with_capacity(BLOCK_CAP);
        let mut i: usize = 0;
        while i < BLOCK_CAP
            invariant
                i <= BLOCK_CAP,
                slots@.len() == i,
                forall|o: int| 0 <= o < i ==> #[trigger] slots@[o].fresh(),
            decreases BLOCK_CAP - i,
        {
            slots.push(Slot { msg: None, state: 0 });
            i += 1;
        }
        Block { next: None, slots }
    }
}

/// Where blocks are allocated; a block is known by its place.
pub struct Blocks<T> {
    places: Vec<Option<Block<T>>>,
}

impl<T> View for Blocks<T> {
    type V = Seq<Option<Block<T>>>;

    closed spec fn view(&self) -> Seq<Option<Block<T>>> {
        self.places@
    }
}

/// What changes at most at the place `id`.
pub open spec fn same_but<T>(
    before: Seq<Option<Block<T>>>,
    after: Seq<Option<Block<T>>>,
    id: int,
) -> bool {
    &&& before.len() == after.len()
    &&& forall|i: int| 0 <= i < before.len() && i != id ==> #[trigger] after[i] == before[i]
}

impl<T> Blocks<T> {
    /// No blocks.
    pub fn new() -> (blocks: Self)
        ensures
            blocks@ == Seq::<Option<Block<T>>>::empty(),
    {
        Blocks { places: Vec::new() }
    }

    /// Allocates an empty block, in a free place or in a new one.
    pub fn allocate(&mut self) -> (id: usize)
        ensures
            id <= old(self)@.len(),
            id < old(self)@.len() ==> old(self)@[id as int] is None,
            final(self)@.len() == if id < old(self)@.len() {
                old(self)@.len()
            } else {
                old(self)@.len() + 1
            },
            forall|i: int|
                0 <= i < old(self)@.len() && i != id ==> #[trigger] final(self)@[i] == old(
                    self,
                )@[i],
            final(self)@[id as int] is Some,
            final(self)@[id as int]->Some_0.fresh(),
    {
        let len = self.places.len();
        let mut id: usize = 0;
        while id < len
            invariant
                id <= len,
                len == self.places@.len(),
                *self == *old(self),
            decreases len - id,
        {
            if self.places[id].is_none() {
                self.places[id] = Some(Block::new());
                return id;
            }
            id += 1;
        }
        self.places.push(Some(Block::new()));
        id
    }

    /// Gives the place of a block free.
    pub fn free(&mut self, id: usize)
        requires
            id < old(self)@.len(),
        ensures
            same_but(old(self)@, final(self)@, id as int),
            final(self)@[id as int] is None,
    {
        self.places[id] = None;
    }

    /// The block that follows the one at `id`.
    pub fn next(&self, id: usize) -> (next: Option<usize>)
        requires
            id < self@.len(),
            self@[id as int] is Some,
        ensures
            next == self@[id as int]->Some_0.next,
    {
        match &self.places[id] {
            Some(block) => block.next,
            None => None,
        }
    }

    /// Lets the block at `next` follow the one at `id`.
    pub fn link(&mut self, id: usize, next: usize)
        requires
            id < old(self)@.len(),
            old(self)@[id as int] is Some,
        ensures
            same_but(old(self)@, final(self)@, id as int),
            final(self)@[id as int] is Some,
            final(self)@[id as int]->Some_0.next == Some(next),
            final(self)@[id as int]->Some_0.slots@ == old(self)@[id as int]->Some_0.slots@,
    {
        let mut block = self.places[id].take().unwrap();
        block.next = Some(next);
        self.places[id] = Some(block);
    }

    /// Puts a message into a slot and sets `WRITE`.
    pub fn write(&mut self, id: usize, offset: usize, msg: T)
        requires
            id < old(self)@.len(),
            old(self)@[id as int] is Some,
            offset < old(self)@[id as int]->Some_0.slots@.len(),
        ensures
            same_but(old(self)@, final(self)@, id as int),
            final(self)@[id as int] is Some,
            final(self)@[id as int]->Some_0.next == old(self)@[id as int]->Some_0.next,
            ({
                let slots = old(self)@[id as int]->Some_0.slots@;
                final(self)@[id as int]->Some_0.slots@ == slots.update(
                    offset as int,
                    Slot { msg: Some(msg), state: slots[offset as int].state | WRITE },
                )
            }),
    {
        let mut block = self.places[id].take().unwrap();
        block.slots[offset].msg = Some(msg);
        block.slots[offset].state = block.slots[offset].state | WRITE;
        self.places[id] = Some(block);
    }

    /// Takes the message out of a slot.
    pub fn take_message(&mut self, id: usize, offset: usize) -> (msg: Option<T>)
        requires
            id < old(self)@.len(),
            old(self)@[id as int] is Some,
            offset < old(self)@[id as int]->Some_0.slots@.len(),
        ensures
            same_but(old(self)@, final(self)@, id as int),
            final(self)@[id as int] is Some,
            final(self)@[id as int]->Some_0.next == old(self)@[id as int]->Some_0.next,
            ({
                let slots = old(self)@[id as int]->Some_0.slots@;
                &&& msg == slots[offset as int].msg
                &&& final(self)@[id as int]->Some_0.slots@ == slots.update(
                    offset as int,
                    Slot { msg: None, ..slots[offset as int] },
                )
            }),
    {
        let mut block = self.places[id].take().unwrap();
        let msg = block.slots[offset].msg.take();
        self.places[id] = Some(block);
        msg
    }

    /// The state of a slot.
    pub fn state(&self, id: usize, offset: usize) -> (state: usize)
        requires
            id < self@.len(),
            self@[id as int] is Some,
            offset < self@[id as int]->Some_0.slots@.len(),
        ensures
            state == self@[id as int]->Some_0.slots@[offset as int].state,
    {
        match &self.places[id] {
            Some(block) => block.slots[offset].state,
            None => 0,
        }
    }

    /// Sets bits in the state of a slot; returns the state before.
    pub fn fetch_or(&mut self, id: usize, offset: usize, bits: usize) -> (state: usize)
        requires
            id < old(self)@.len(),
            old(self)@[id as int] is Some,
            offset < old(self)@[id as int]->Some_0.slots@.len(),
        ensures
            same_but(old(self)@, final(self)@, id as int),
            final(self)@[id as int] is Some,
            final(self)@[id as int]->Some_0.next == old(self)@[id as int]->Some_0.next,
            ({
                let slots = old(self)@[id as int]->Some_0.slots@;
                &&& state == slots[offset as int].state
                &&& final(self)@[id as int]->Some_0.slots@ == slots.update(
                    offset as int,
                    Slot { state: state | bits, ..slots[offset as int] },
                )
            }),
    {
        let mut block = self.places[id].take().unwrap();
        let state = block.slots[offset].state;
        block.slots[offset].state = state | bits;
        self.places[id] = Some(block);
        state
    }

    /// Frees the block at `id`, unless a slot from `start` on is still to be read from: the first
    /// such slot gets `DESTROY` instead, and its reader goes on.
    ///
    /// It is not necessary to look at the last slot: that slot has begun the destruction.
    pub fn destroy(&mut self, id: usize, start: usize)
        requires
            id < old(self)@.len(),
            old(self)@[id as int] is Some,
            old(self)@[id as int]->Some_0.slots@.len() == BLOCK_CAP,
            start < BLOCK_CAP,
        ensures
            same_but(old(self)@, final(self)@, id as int),
            ({
                let before = old(self)@[id as int]->Some_0;
                let after = final(self)@[id as int];
                if forall|o: int| start <= o < BLOCK_CAP - 1 ==> #[trigger] before.slots@[o].is_read()
                {
                    after is None
                } else {
                    &&& after is Some
                    &&& after->Some_0.next == before.next
                    &&& exists|o: int|
                        {
                            &&& start <= o < BLOCK_CAP - 1
                            &&& !#[trigger] before.slots@[o].is_read()
                            &&& forall|k: int| start <= k < o ==> #[trigger] before.slots@[k].is_read()
                            &&& after->Some_0.slots@ == before.slots@.update(
                                o,
                                Slot {
                                    state: before.slots@[o].state | DESTROY,
                                    ..before.slots@[o]
                                },
                            )
                        }
                }
            }),
    {
        let mut i: usize = start;
        while i < BLOCK_CAP - 1
            invariant
                start <= i < BLOCK_CAP,
                *self == *old(self),
                id < self@.len(),
                self@[id as int] is Some,
                self@[id as int]->Some_0.slots@.len() == BLOCK_CAP,
                forall|k: int|
                    start <= k < i ==> #[trigger] self@[id as int]->Some_0.slots@[k].is_read(),
            decreases BLOCK_CAP - i,
        {
            // Mark the `DESTROY` bit if a thread is still using the slot.
            if self.state(id, i) & READ == 0 && self.fetch_or(id, i, DESTROY) & READ == 0 {
                proof {
                    assert(!old(self)@[id as int]->Some_0.slots@[i as int].is_read());
                }
                // If a thread is still using the slot, it will continue destruction of the block.
                return ;
            }
            i += 1;
        }
        // No thread is using the block, now it is safe to destroy it.
        self.free(id);
    }
}

} // verus!
