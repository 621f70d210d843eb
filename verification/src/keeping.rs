//! What sharing, closing and blocking rest on: what the parts that keep channels, tokens and blocked
//! threads say of them.
use crate::context::{Blocked, State};
use crate::counter::{Counter, Receiver, Sender};
use crate::list::{all_read, blocks_begun, read_at};
use crate::log::Log;
use crate::select::Selected;
use crate::utils::{Guarded, Kept};
use crate::waker::{after_disconnect, after_select, known, selectable, Entry};
use crate::{array, list, zero, Shutdown};
use vstd::prelude::*;
use vstd::rwlock::RwLockPredicate;
use vstd::std_specs::cmp::PartialEqSpec;

verus! {

impl<T> array::Channel<T> {
    /// A channel is shut exactly where sends are refused as closed; it holds as many messages as its
    /// capacity; and it is at rest exactly where nothing is under way.
    pub proof fn law_shut_is_closed(&self, msg: T)
        ensures
            self.shut() <==> self@.log.closed,
            self.shut() <==> (self@.try_send_result(msg) matches Err(e) && e.kind is Closed),
            self.limit() == Some(self@.cap),
            self.at_rest() <==> self@.log.settled(),
            self.inv() <==> self.wf(),
    {
    }

    /// Closing leaves the messages, closes the channel, and notifies all who wait, if it was open.
    pub proof fn law_closing_keeps_the_messages(&self, before: &array::Channel<T>)
        requires
            self.closes(before),
        ensures
            self@.log.closed,
            self@.log.cells == before@.log.cells,
            self@.log.head == before@.log.head,
            self@.cap == before@.cap,
            self@.first == before@.first,
            before@.log.closed ==> self@ == before@,
            !before@.log.closed ==> self@.senders == before@.senders.wake_all(),
            !before@.log.closed ==> self@.receivers == before@.receivers.wake_all(),
    {
    }

    /// A token that names no slot is one of every channel, and tokens stay those of a channel.
    pub proof fn law_tokens_stay(&self, before: &array::Channel<T>, token: array::Array)
        ensures
            token.target() is None ==> self.send_token(token) && self.recv_token(token),
            self.same_tokens(before) ==> self.send_token(token) == before.send_token(token),
            self.same_tokens(before) ==> self.recv_token(token) == before.recv_token(token),
    {
    }
}

impl<T> list::Channel<T> {
    /// A channel is shut exactly where it is closed; there is no limit to its messages, short of a
    /// quarter of all numbers; and it is at rest exactly where nothing is under way.
    pub proof fn law_shut_is_closed(&self)
        ensures
            self.shut() <==> self@.log.closed,
            self.limit() is None,
            self.at_rest() <==> self@.log.settled(),
            self.inv() <==> self.wf(),
            4 * crate::index::max_len() <= usize::MAX < 4 * crate::index::max_len() + 4,
    {
    }

    /// Closing leaves the messages, closes the channel, and notifies all who wait, if it was open.
    pub proof fn law_closing_keeps_the_messages(&self, before: &list::Channel<T>)
        requires
            self.closes(before),
        ensures
            self@.log.closed,
            self@.log.cells == before@.log.cells,
            self@.log.head == before@.log.head,
            self@.first == before@.first,
            before@.log.closed ==> self@ == before@,
            !before@.log.closed ==> self@.receivers == before@.receivers.wake_all(),
    {
    }

    /// A token that names no slot is one of every channel, and tokens stay those of a channel.
    pub proof fn law_tokens_stay(&self, before: &list::Channel<T>, token: list::List)
        ensures
            token.target() is None ==> self.token(token),
            self.keeps_tokens(before) && before.token(token) ==> self.token(token),
    {
    }
}

/// Which positions lie in a block, when the block is done with, and how many blocks there have been:
/// a block has thirty-one positions, is done with when the messages of all of them have been read,
/// and the first one comes with the first position, each further one with the last position of the
/// one before.
pub proof fn law_positions_of_a_block<T>(log: Log<T>, b: nat, o: nat)
    ensures
        read_at(log, b, o) <==> 31 * b + o < log.cells.len() && log.cells[(31 * b + o) as int] is
            Read,
        all_read(log, b) <==> 31 * b + 31 <= log.cells.len() && forall|p: int|
            31 * b <= p < 31 * b + 31 ==> #[trigger] log.cells[p] is Read,
        log.cells.len() == 0 ==> blocks_begun(log) == 0,
        log.cells.len() > 0 ==> 31 * (blocks_begun(log) - 1) <= log.cells.len() < 31 * blocks_begun(
            log,
        ),
{
    if all_read(log, b) {
        assert(read_at(log, b, 30));
        assert forall|p: int| 31 * b <= p < 31 * b + 31 implies #[trigger] log.cells[p] is Read by {
            assert(read_at(log, b, (p - 31 * b) as nat));
        }
    }
    if 31 * b + 31 <= log.cells.len() && (forall|p: int|
        31 * b <= p < 31 * b + 31 ==> #[trigger] log.cells[p] is Read) {
        assert forall|k: nat| k < 31 implies #[trigger] read_at(log, b, k) by {
            assert(log.cells[(31 * b + k) as int] is Read);
        }
    }
}

impl<T> zero::Channel<T> {
    /// A channel is shut exactly where sends are refused as closed; it holds no messages; and it is
    /// at rest exactly where no message is half-way.
    pub proof fn law_shut_is_closed(&self, msg: T, thread: u64)
        ensures
            self.shut() <==> self@.closed,
            self.shut() <==> (self@.try_send_result(msg, thread) matches Err(e) && e.kind is Closed),
            self.limit() == Some(0nat),
            self.at_rest() <==> self@.settled(),
            self.inv() <==> self.wf(),
    {
    }

    /// Closing closes the channel, and leaves those who wait in their places.
    pub proof fn law_closing_keeps_the_places(&self, before: &zero::Channel<T>)
        requires
            self.closes(before),
        ensures
            self@.closed,
            self@.places == before@.places,
            self@.offers == before@.offers,
            self@.requests == before@.requests,
            self@.senders == before@.senders,
            self@.receivers == before@.receivers,
            self@.first == before@.first,
            before@.closed ==> self@ == before@,
    {
    }
}

/// Two senders, or two receivers, are equal exactly where they are sides of the same channel.
pub proof fn law_equal_sides_share_a_channel<C: Shutdown>(
    s: Sender<C>,
    t: Sender<C>,
    r: Receiver<C>,
    q: Receiver<C>,
)
    ensures
        s.eq_spec(&t) <==> s.shared() == t.shared(),
        r.eq_spec(&q) <==> r.shared() == q.shared(),
        s.limit() == s.shared().label(),
        r.limit() == r.shared().label(),
{
}

impl<C: Shutdown> Counter<C> {
    /// The counts and the channel of a counter are kept together: the flag is up exactly where a side
    /// has no references left, and what a lock keeps is such a counter, with the capacity that it
    /// was made with and nothing under way.
    pub proof fn law_what_a_counter_keeps(&self, made: Counter<C>)
        ensures
            self.wf() <==> self.chan.inv() && (self.destroy <==> self.senders == 0
                || self.receivers == 0),
            self.guarded() <==> self.wf() && self.chan.at_rest(),
            self.label() == self.chan.limit(),
            self.shut_when_left() <==> (self.chan.shut() || self.senders > 0 && self.receivers > 0),
            (Kept { label: made.label(), made_with: made }).inv(*self) <==> self.guarded()
                && self.chan.limit() == made.chan.limit(),
    {
    }
}

impl Blocked {
    /// At first only the reserved places are taken, and no thread has been unparked.
    pub proof fn law_starts_with_the_reserved_places(place: int)
        ensures
            Blocked::initial().states.len() == 3,
            0 <= place < 3 ==> Blocked::initial().states[place].busy,
            0 <= place < 3 ==> !Blocked::initial().free(place),
            Blocked::initial().unparked.len() == 0,
    {
    }

    /// A context can be entered where none is, and in the place of one that was given up.
    pub proof fn law_where_a_context_can_be_entered(self, place: int)
        ensures
            self.free(place) ==> 0 <= place <= self.states.len(),
            0 <= place < self.states.len() ==> (self.free(place) <==> !self.states[place].busy),
            self.free(self.states.len() as int),
    {
    }

    /// Each change concerns one place: entering makes a context in which nothing has been selected;
    /// selecting, storing a packet and giving up change that about it, and that alone.
    pub proof fn law_changes_concern_one_place(
        self,
        place: int,
        other: int,
        thread_id: u64,
        select: Selected,
        packet: usize,
    )
        requires
            0 <= place <= self.states.len(),
            0 <= other < self.states.len(),
            other != place,
        ensures
            ({
                let after = self.put(place, State::fresh(thread_id));
                &&& after.states[place].busy
                &&& after.states[place].thread_id == thread_id
                &&& after.states[place].select is Waiting
                &&& after.states[place].packet == 0
                &&& after.states[other] == self.states[other]
                &&& after.unparked == self.unparked
                &&& after.states.len() == if place == self.states.len() {
                    self.states.len() + 1
                } else {
                    self.states.len()
                }
            }),
            place < self.states.len() ==> {
                let state = self.states[place];
                let selected = self.select(place, select);
                let stored = self.store_packet(place, packet);
                let left = self.leave(place);
                let unparked = self.unpark(place);
                &&& selected.states.len() == self.states.len()
                &&& selected.states[place] == State { select, ..state }
                &&& selected.states[other] == self.states[other]
                &&& selected.unparked == self.unparked
                &&& packet == 0 ==> stored == self
                &&& packet != 0 ==> stored.states[place] == State { packet, ..state }
                &&& stored.states.len() == self.states.len()
                &&& stored.states[other] == self.states[other]
                &&& stored.unparked == self.unparked
                &&& left.states[place] == State { busy: false, ..state }
                &&& left.states.len() == self.states.len()
                &&& left.states[other] == self.states[other]
                &&& left.unparked == self.unparked
                &&& unparked.states == self.states
                &&& unparked.unparked == self.unparked.push(state.thread_id)
            },
    {
    }
}

/// An entry can be selected exactly by another thread, while nothing has been selected in its context.
/// Selecting it is told to its context alone, with its operation and its packet, and unparks its
/// thread.
pub proof fn law_what_selecting_is(
    entry: Entry,
    contexts: Blocked,
    thread_id: u64,
    other: int,
)
    requires
        entry.cx.place < contexts.states.len(),
        0 <= other < contexts.states.len(),
        other != entry.cx.place,
    ensures
        selectable(entry, contexts, thread_id) <==> contexts.states[entry.cx.place as int].select is
            Waiting && contexts.states[entry.cx.place as int].thread_id != thread_id,
        ({
            let after = after_select(entry, contexts);
            let before = contexts.states[entry.cx.place as int];
            let state = after.states[entry.cx.place as int];
            &&& after.states.len() == contexts.states.len()
            &&& state.select == Selected::Operation(entry.oper)
            &&& state.packet == if entry.packet != 0 {
                entry.packet
            } else {
                before.packet
            }
            &&& state.thread_id == before.thread_id
            &&& state.busy == before.busy
            &&& after.states[other] == contexts.states[other]
            &&& after.unparked == contexts.unparked.push(before.thread_id)
        }),
{
}

/// Telling entries that the channel is disconnected: one after the other, each whose context waits has
/// that selected and its thread unparked; the others are passed over.
pub proof fn law_what_disconnecting_is(entries: Seq<Entry>, contexts: Blocked, count: nat)
    requires
        known(entries, contexts),
        count < entries.len(),
    ensures
        after_disconnect(entries, contexts, 0) == contexts,
        ({
            let before = after_disconnect(entries, contexts, count);
            let after = after_disconnect(entries, contexts, count + 1);
            let place = entries[count as int].cx.place as int;
            &&& before.states.len() == contexts.states.len()
            &&& !(before.states[place].select is Waiting) ==> after == before
            &&& before.states[place].select is Waiting ==> {
                &&& after.states == before.states.update(
                    place,
                    State { select: Selected::Disconnected, ..before.states[place] },
                )
                &&& after.unparked == before.unparked.push(before.states[place].thread_id)
            }
        }),
    decreases count,
{
    if count > 0 {
        law_what_disconnecting_is(entries, contexts, (count - 1) as nat);
    }
}

/// The entries have contexts exactly where each one's is among them.
pub proof fn law_entries_are_known(entries: Seq<Entry>, contexts: Blocked)
    ensures
        known(entries, contexts) <==> forall|i: int|
            0 <= i < entries.len() ==> (#[trigger] entries[i]).cx.place < contexts.states.len(),
{
}

} // verus!
