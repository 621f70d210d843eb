//! Waking mechanism for threads blocked on channel operations.
use crate::context::{Blocked, Context, Contexts};
use crate::select::{Operation, Selected};
use vstd::prelude::*;

verus! {

/// Represents a thread blocked on a specific channel operation.
#[derive(PartialEq, Eq, Clone, Copy, Structural)]
pub struct Entry {
    /// The operation.
    pub oper: Operation,
    /// Optional packet; the number 0 is none.
    pub packet: usize,
    /// Context associated with the thread owning this operation.
    pub cx: Context,
}

/// The entries have contexts.
pub open spec fn known(entries: Seq<Entry>, contexts: Blocked) -> bool {
    forall|i: int|
        0 <= i < entries.len() ==> (#[trigger] entries[i]).cx.place < contexts.states.len()
}

/// The thread `thread_id` can select the entry: it is another thread's, and waits.
pub open spec fn selectable(entry: Entry, contexts: Blocked, thread_id: u64) -> bool {
    &&& contexts.states[entry.cx.place as int].thread_id != thread_id
    &&& contexts.states[entry.cx.place as int].select is Waiting
}

/// The first entry from `from` on that the thread can select; the number of entries where there is
/// none.
pub open spec fn first_selectable(
    entries: Seq<Entry>,
    contexts: Blocked,
    thread_id: u64,
    from: int,
) -> int
    decreases entries.len() - from,
{
    if from >= entries.len() {
        entries.len() as int
    } else if selectable(entries[from], contexts, thread_id) {
        from
    } else {
        first_selectable(entries, contexts, thread_id, from + 1)
    }
}

/// The contexts after the entry was selected.
pub open spec fn after_select(entry: Entry, contexts: Blocked) -> Blocked {
    let place = entry.cx.place as int;
    contexts.select(place, Selected::Operation(entry.oper)).store_packet(
        place,
        entry.packet,
    ).unpark(place)
}

/// The contexts after the first `count` entries were told that the channel is disconnected.
pub open spec fn after_disconnect(entries: Seq<Entry>, contexts: Blocked, count: nat) -> Blocked
    decreases count,
{
    if count == 0 {
        contexts
    } else {
        let before = after_disconnect(entries, contexts, (count - 1) as nat);
        let place = entries[count - 1].cx.place as int;
        if before.states[place].select is Waiting {
            before.select(place, Selected::Disconnected).unpark(place)
        } else {
            before
        }
    }
}

/// The entry of the operation that was registered first; the number of entries where there is none.
pub open spec fn first_of(entries: Seq<Entry>, oper: Operation, from: int) -> int
    decreases entries.len() - from,
{
    if from >= entries.len() {
        entries.len() as int
    } else if entries[from].oper == oper {
        from
    } else {
        first_of(entries, oper, from + 1)
    }
}

/// What `first_selectable` finds is selectable, and nothing before it is.
pub proof fn lemma_first_selectable(
    entries: Seq<Entry>,
    contexts: Blocked,
    thread_id: u64,
    from: int,
)
    requires
        0 <= from <= entries.len(),
    ensures
        ({
            let k = first_selectable(entries, contexts, thread_id, from);
            &&& from <= k <= entries.len()
            &&& k < entries.len() ==> selectable(entries[k], contexts, thread_id)
            &&& forall|i: int|
                from <= i < k ==> !selectable(#[trigger] entries[i], contexts, thread_id)
        }),
    decreases entries.len() - from,
{
    if from < entries.len() && !selectable(entries[from], contexts, thread_id) {
        lemma_first_selectable(entries, contexts, thread_id, from + 1);
    }
}

/// What `first_of` finds belongs to the operation, and nothing before it does.
pub proof fn lemma_first_of(entries: Seq<Entry>, oper: Operation, from: int)
    requires
        0 <= from <= entries.len(),
    ensures
        ({
            let k = first_of(entries, oper, from);
            &&& from <= k <= entries.len()
            &&& k < entries.len() ==> entries[k].oper == oper
            &&& forall|i: int| from <= i < k ==> (#[trigger] entries[i]).oper != oper
        }),
    decreases entries.len() - from,
{
    if from < entries.len() && entries[from].oper != oper {
        lemma_first_of(entries, oper, from + 1);
    }
}

/// An entry is selected once: from then on no thread can select it again, and neither can any
/// other entry of the same context be selected.
pub proof fn law_selected_once(entry: Entry, other: Entry, contexts: Blocked, thread_id: u64)
    requires
        entry.cx.place < contexts.states.len(),
        other.cx == entry.cx,
    ensures
        !selectable(other, after_select(entry, contexts), thread_id),
{
}

/// A queue of threads blocked on channel operations.
///
/// This data structure is used by threads to register blocking operations and get woken up once
/// an operation becomes ready.
pub struct Waker {
    /// A list of select operations.
    selectors: Vec<Entry>,
}

impl View for Waker {
    type V = Seq<Entry>;

    closed spec fn view(&self) -> Seq<Entry> {
        self.selectors@
    }
}

impl Waker {
    /// Creates a new `Waker`.
    pub fn new() -> (waker: Self)
        ensures
            waker@ == Seq::<Entry>::empty(),
    {
        Waker { selectors: Vec::new() }
    }

    /// Registers a select operation.
    pub fn register(&mut self, oper: Operation, cx: Context)
        ensures
            final(self)@ == old(self)@.push(Entry { oper, packet: 0, cx }),
    {
        self.register_with_packet(oper, 0, cx);
    }

    /// Registers a select operation and a packet.
    pub fn register_with_packet(&mut self, oper: Operation, packet: usize, cx: Context)
        ensures
            final(self)@ == old(self)@.push(Entry { oper, packet, cx }),
    {
        self.selectors.push(Entry { oper, packet, cx });
    }

    /// Unregisters a select operation.
    pub fn unregister(&mut self, oper: Operation) -> (entry: Option<Entry>)
        ensures
            ({
                let k = first_of(old(self)@, oper, 0);
                if k < old(self)@.len() {
                    &&& entry == Some(old(self)@[k])
                    &&& final(self)@ == old(self)@.remove(k)
                } else {
                    &&& entry is None
                    &&& final(self)@ == old(self)@
                }
            }),
    {
        let mut i: usize = 0;
        while i < self.selectors.len()
            invariant
                i <= self.selectors.len(),
                self@ == old(self)@,
                first_of(self@, oper, i as int) == first_of(self@, oper, 0),
            decreases self.selectors.len() - i,
        {
            if self.selectors[i].oper == oper {
                return Some(self.selectors.remove(i));
            }
            i = i + 1;
        }
        None
    }

    /// Attempts to find another thread's entry, select the operation, and wake it up.
    ///
    /// The calling thread is `thread_id`.
    pub fn try_select(&mut self, contexts: &mut Contexts, thread_id: u64) -> (entry: Option<Entry>)
        requires
            known(old(self)@, old(contexts)@),
        ensures
            ({
                let k = first_selectable(old(self)@, old(contexts)@, thread_id, 0);
                if k < old(self)@.len() {
                    &&& entry == Some(old(self)@[k])
                    &&& final(self)@ == old(self)@.remove(k)
                    &&& final(contexts)@ == after_select(old(self)@[k], old(contexts)@)
                } else {
                    &&& entry is None
                    &&& final(self)@ == old(self)@
                    &&& final(contexts)@ == old(contexts)@
                }
            }),
    {
        let mut i: usize = 0;
        while i < self.selectors.len()
            invariant
                i <= self.selectors.len(),
                self@ == old(self)@,
                contexts@ == old(contexts)@,
                known(self@, contexts@),
                first_selectable(self@, contexts@, thread_id, i as int) == first_selectable(
                    self@,
                    contexts@,
                    thread_id,
                    0,
                ),
            decreases self.selectors.len() - i,
        {
            let entry = self.selectors[i];
            assert(entry == self@[i as int]);
            // Does the entry belong to a different thread?
            if contexts.thread_id(entry.cx) != thread_id {
                // Try selecting this operation.
                let sel = Selected::Operation(entry.oper);
                if contexts.try_select(entry.cx, sel).is_ok() {
                    // Provide the packet.
                    contexts.store_packet(entry.cx, entry.packet);
                    // Wake the thread up.
                    contexts.unpark(entry.cx);

                    // Remove the entry from the queue to keep it clean and improve performance.
                    return Some(self.selectors.remove(i));
                }
            }
            i = i + 1;
        }
        None
    }

    /// Returns `true` if there is an entry which can be selected by the thread `thread_id`.
    pub fn can_select(&self, contexts: &Contexts, thread_id: u64) -> (can: bool)
        requires
            known(self@, contexts@),
        ensures
            can == exists|i: int|
                0 <= i < self@.len() && selectable(#[trigger] self@[i], contexts@, thread_id),
    {
        let mut i: usize = 0;
        while i < self.selectors.len()
            invariant
                i <= self.selectors.len(),
                known(self@, contexts@),
                forall|j: int|
                    0 <= j < i ==> !selectable(#[trigger] self@[j], contexts@, thread_id),
            decreases self.selectors.len() - i,
        {
            let entry = self.selectors[i];
            assert(entry == self@[i as int]);
            if contexts.thread_id(entry.cx) != thread_id && contexts.selected(entry.cx)
                == Selected::Waiting {
                return true;
            }
            i = i + 1;
        }
        false
    }

    /// Notifies all registered operations that the channel is disconnected.
    pub fn disconnect(&mut self, contexts: &mut Contexts)
        requires
            known(old(self)@, old(contexts)@),
        ensures
            final(self)@ == old(self)@,
            final(contexts)@ == after_disconnect(old(self)@, old(contexts)@, old(self)@.len()),
    {
        let mut i: usize = 0;
        while i < self.selectors.len()
            invariant
                i <= self.selectors.len(),
                self@ == old(self)@,
                known(self@, contexts@),
                contexts@ == after_disconnect(old(self)@, old(contexts)@, i as nat),
            decreases self.selectors.len() - i,
        {
            let entry = self.selectors[i];
            assert(entry == self@[i as int]);
            if contexts.try_select(entry.cx, Selected::Disconnected).is_ok() {
                // Wake the thread up.
                //
                // Here we don't remove the entry from the queue. Registered threads must
                // unregister from the waker by themselves. They might also want to recover the
                // packet value and destroy it, if necessary.
                contexts.unpark(entry.cx);
            }
            i = i + 1;
        }
    }
}

} // verus!
