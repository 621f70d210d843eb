//! What a queueing channel has carried.
//!
//! Every message has a position: sends claim the positions in order, and so do receives. Between
//! the claim of a position and the move of its message there may be any number of other steps.
use vstd::prelude::*;

verus! {

/// The state of one position.
pub enum Cell<T> {
    /// Claimed by a send whose message is not there yet.
    Writing,
    /// The message is there.
    Full(T),
    /// The message is gone.
    Read(T),
}

/// All positions that sends have claimed, and how many of them receives have claimed.
#[verifier::ext_equal]
pub struct Log<T> {
    pub cells: Seq<Cell<T>>,
    pub head: nat,
    pub closed: bool,
}

impl<T> Log<T> {
    /// The log of a new channel.
    pub open spec fn initial() -> Log<T> {
        Log { cells: Seq::<Cell<T>>::empty(), head: 0, closed: false }
    }

    /// The position that the next send claims.
    pub open spec fn tail(self) -> nat {
        self.cells.len()
    }

    /// How many positions have been claimed by a send and not by a receive.
    pub open spec fn len(self) -> nat {
        (self.tail() - self.head) as nat
    }

    /// Receives claim what sends have claimed, and read what they have claimed.
    pub open spec fn wf(self) -> bool {
        &&& self.head <= self.tail()
        &&& forall|p: int| self.head <= p < self.tail() ==> !(#[trigger] self.cells[p] is Read)
    }

    /// No send and no receive is under way.
    pub open spec fn settled(self) -> bool {
        &&& self.head <= self.tail()
        &&& forall|p: int| 0 <= p < self.head ==> #[trigger] self.cells[p] is Read
        &&& forall|p: int| self.head <= p < self.tail() ==> #[trigger] self.cells[p] is Full
    }

    /// A send claims the next position.
    pub open spec fn claim_send(self) -> Log<T> {
        Log { cells: self.cells.push(Cell::Writing), ..self }
    }

    /// The message of the position `p` arrives.
    pub open spec fn write(self, p: nat, msg: T) -> Log<T> {
        Log { cells: self.cells.update(p as int, Cell::Full(msg)), ..self }
    }

    /// A receive claims the next position.
    pub open spec fn claim_recv(self) -> Log<T> {
        Log { head: self.head + 1, ..self }
    }

    /// The message of the position `p` leaves.
    pub open spec fn read(self, p: nat) -> Log<T> {
        Log { cells: self.cells.update(p as int, Cell::Read(self.message(p as int))), ..self }
    }

    /// The message of the position `p`.
    pub open spec fn message(self, p: int) -> T {
        match self.cells[p] {
            Cell::Full(msg) => msg,
            Cell::Read(msg) => msg,
            Cell::Writing => arbitrary(),
        }
    }

    /// A send from beginning to end.
    pub open spec fn send(self, msg: T) -> Log<T> {
        self.claim_send().write(self.tail(), msg)
    }

    /// A receive from beginning to end.
    pub open spec fn recv(self) -> Log<T> {
        self.claim_recv().read(self.head)
    }

    /// No more sends.
    pub open spec fn close(self) -> Log<T> {
        Log { closed: true, ..self }
    }

    /// The messages that were sent, in order.
    pub open spec fn sent(self) -> Seq<T> {
        Seq::new(self.tail(), |p: int| self.message(p))
    }

    /// The messages that were received, in order.
    pub open spec fn received(self) -> Seq<T> {
        Seq::new(self.head, |p: int| self.message(p))
    }

    /// The messages that wait to be received, in order.
    pub open spec fn queue(self) -> Seq<T> {
        Seq::new(self.len(), |i: int| self.message(self.head + i))
    }
}

} // verus!
