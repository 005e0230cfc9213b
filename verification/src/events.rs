//! The event queue: an append-then-drain buffer of event identities,
//! itself stored as one entry of the global store.

use vstd::prelude::*;

verus! {

/// Identity of an event: the type it belongs to and its value within
/// that type.  Two events are the same event exactly when both agree, so
/// events of different types are always distinct and events of one type
/// compare by value.
#[derive(Clone, Copy, PartialEq, Eq, Structural, Debug)]
pub struct EventId {
    /// Code standing for the event's type identity.
    pub kind: u64,
    /// The event's value within that type.
    pub value: u64,
}

/// The buffer of pending events, in the order they were pushed.
pub struct EventQueue {
    events: Vec<EventId>,
}

impl View for EventQueue {
    type V = Seq<EventId>;

    closed spec fn view(&self) -> Seq<EventId> {
        self.events@
    }
}

impl EventQueue {
    /// A fresh, empty queue.
    pub fn new() -> (r: EventQueue)
        ensures
            r@ =~= Seq::<EventId>::empty(),
    {
        EventQueue { events: Vec::new() }
    }

    /// Append one event.
    pub fn push(&mut self, event: EventId)
        ensures
            final(self)@ == old(self)@.push(event),
    {
        self.events.push(event)
    }

    /// How many events are pending.
    pub fn len(&self) -> (r: usize)
        ensures
            r == self@.len(),
    {
        self.events.len()
    }

    /// Swap the buffer for a fresh one and hand back everything pushed so
    /// far, in push order.  The fresh buffer is sized down to two thirds
    /// of the drained length, a guard against unbounded growth across
    /// quiet periods.
    pub fn drain(&mut self) -> (r: Vec<EventId>)
        ensures
            r@ == old(self)@,
            final(self)@ =~= Seq::<EventId>::empty(),
    {
        let new_cap = self.events.len() / 3 * 2;
        let mut fresh: Vec<EventId> = Vec::with_capacity(new_cap);
        core::mem::swap(&mut self.events, &mut fresh);
        fresh
    }
}

} // verus!
