//! The contexts of blocked threads.
//!
//! A thread is known here by a number. Unparking a thread is recorded; whoever holds the channel
//! takes the record with `take_unparked` and unparks the threads it names.
use crate::select::Selected;
use vstd::prelude::*;

verus! {

/// How many places are never handed out. The number of a place can stand for an operation, and the
/// first numbers are kept for the outcomes that are no operation.
pub const RESERVED: usize = 3;

/// A context: its place among all of them.
#[derive(Debug, PartialEq, Eq, Clone, Copy, Structural)]
pub struct Context {
    pub place: usize,
}

/// What is known of a context.
#[derive(PartialEq, Eq, Clone, Copy, Structural)]
pub struct State {
    /// Whether the context is in use.
    pub busy: bool,
    /// The thread that it belongs to.
    pub thread_id: u64,
    /// Selected operation.
    pub select: Selected,
    /// A slot into which another thread may store the number of its packet.
    pub packet: usize,
}

impl State {
    /// A context that nothing has been selected in.
    pub open spec fn fresh(thread_id: u64) -> State {
        State { busy: true, thread_id, select: Selected::Waiting, packet: 0 }
    }
}

/// What the contexts are.
#[verifier::ext_equal]
pub struct Blocked {
    /// The contexts, each in its place.
    pub states: Seq<State>,
    /// The threads that were unparked, in that order.
    pub unparked: Seq<u64>,
}

impl Blocked {
    /// No contexts but those in the reserved places.
    pub open spec fn initial() -> Blocked {
        Blocked {
            states: Seq::new(RESERVED as nat, |i: int| State::fresh(0)),
            unparked: Seq::<u64>::empty(),
        }
    }

    /// A context can be entered at the place.
    pub open spec fn free(self, place: int) -> bool {
        ||| place == self.states.len()
        ||| 0 <= place < self.states.len() && !self.states[place].busy
    }

    /// The context at the place becomes `state`, which may be a new one.
    pub open spec fn put(self, place: int, state: State) -> Blocked {
        Blocked {
            states: if place == self.states.len() {
                self.states.push(state)
            } else {
                self.states.update(place, state)
            },
            ..self
        }
    }

    /// `select` is selected at the place.
    pub open spec fn select(self, place: int, select: Selected) -> Blocked {
        self.put(place, State { select, ..self.states[place] })
    }

    /// A packet is stored at the place; the number 0 is none.
    pub open spec fn store_packet(self, place: int, packet: usize) -> Blocked {
        if packet != 0 {
            self.put(place, State { packet, ..self.states[place] })
        } else {
            self
        }
    }

    /// The thread at the place is unparked.
    pub open spec fn unpark(self, place: int) -> Blocked {
        Blocked { unparked: self.unparked.push(self.states[place].thread_id), ..self }
    }

    /// The context at the place is given up.
    pub open spec fn leave(self, place: int) -> Blocked {
        self.put(place, State { busy: false, ..self.states[place] })
    }
}

/// The contexts of the threads that block on a channel.
pub struct Contexts {
    states: Vec<State>,
    unparked: Vec<u64>,
}

impl View for Contexts {
    type V = Blocked;

    closed spec fn view(&self) -> Blocked {
        Blocked { states: self.states@, unparked: self.unparked@ }
    }
}

impl Contexts {
    /// No contexts but those in the reserved places.
    pub fn new() -> (contexts: Self)
        ensures
            contexts@ == Blocked::initial(),
    {
        let reserved = State { busy: true, thread_id: 0, select: Selected::Waiting, packet: 0 };
        let mut states: Vec<State> = Vec::new();
        while states.len() < RESERVED
            invariant
                reserved == State::fresh(0),
                states@ == Seq::new(states@.len(), |i: int| State::fresh(0)),
                states@.len() <= RESERVED,
            decreases RESERVED - states.len(),
        {
            states.push(reserved);
        }
        Contexts { states, unparked: Vec::new() }
    }

    /// Takes a context for a thread that is about to block.
    pub fn enter(&mut self, thread_id: u64) -> (cx: Context)
        ensures
            old(self)@.free(cx.place as int),
            final(self)@ == old(self)@.put(cx.place as int, State::fresh(thread_id)),
    {
        let fresh = State { busy: true, thread_id, select: Selected::Waiting, packet: 0 };
        let mut i: usize = 0;
        while i < self.states.len()
            invariant
                i <= self.states.len(),
                self@ == old(self)@,
                fresh == State::fresh(thread_id),
            decreases self.states.len() - i,
        {
            if !self.states[i].busy {
                self.states.set(i, fresh);
                return Context { place: i };
            }
            i = i + 1;
        }
        self.states.push(fresh);
        Context { place: i }
    }

    /// Gives the context up.
    pub fn leave(&mut self, cx: Context)
        requires
            cx.place < old(self)@.states.len(),
        ensures
            final(self)@ == old(self)@.leave(cx.place as int),
    {
        let state = self.states[cx.place];
        self.states.set(cx.place, State { busy: false, ..state });
    }

    /// Attempts to select an operation.
    ///
    /// On failure, the previously selected operation is returned.
    pub fn try_select(&mut self, cx: Context, select: Selected) -> (res: Result<(), Selected>)
        requires
            cx.place < old(self)@.states.len(),
        ensures
            match old(self)@.states[cx.place as int].select {
                Selected::Waiting => {
                    &&& res is Ok
                    &&& final(self)@ == old(self)@.select(cx.place as int, select)
                },
                previous => {
                    &&& res == Err::<(), Selected>(previous)
                    &&& final(self)@ == old(self)@
                },
            },
    {
        let state = self.states[cx.place];
        if state.select == Selected::Waiting {
            self.states.set(cx.place, State { select, ..state });
            Ok(())
        } else {
            Err(state.select)
        }
    }

    /// Returns the selected operation.
    pub fn selected(&self, cx: Context) -> (selected: Selected)
        requires
            cx.place < self@.states.len(),
        ensures
            selected == self@.states[cx.place as int].select,
    {
        self.states[cx.place].select
    }

    /// Stores a packet.
    pub fn store_packet(&mut self, cx: Context, packet: usize)
        requires
            cx.place < old(self)@.states.len(),
        ensures
            final(self)@ == old(self)@.store_packet(cx.place as int, packet),
    {
        if packet != 0 {
            let state = self.states[cx.place];
            self.states.set(cx.place, State { packet, ..state });
        }
    }

    /// Records that the thread this context belongs to is to be unparked.
    pub fn unpark(&mut self, cx: Context)
        requires
            cx.place < old(self)@.states.len(),
        ensures
            final(self)@ == old(self)@.unpark(cx.place as int),
    {
        let thread_id = self.states[cx.place].thread_id;
        self.unparked.push(thread_id);
    }

    /// Returns the thread this context belongs to.
    pub fn thread_id(&self, cx: Context) -> (thread_id: u64)
        requires
            cx.place < self@.states.len(),
        ensures
            thread_id == self@.states[cx.place as int].thread_id,
    {
        self.states[cx.place].thread_id
    }

    /// Hands out the threads to be unparked, and forgets them.
    pub fn take_unparked(&mut self) -> (threads: Vec<u64>)
        ensures
            threads@ == old(self)@.unparked,
            final(self)@ == (Blocked { unparked: Seq::<u64>::empty(), ..old(self)@ }),
    {
        let mut threads: Vec<u64> = Vec::new();
        std::mem::swap(&mut threads, &mut self.unparked);
        threads
    }
}

} // verus!
