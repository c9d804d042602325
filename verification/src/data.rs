//! One entry of a registry and its life cycle.

use crate::context::{request_view, EntryId, EventContext, Scope, Snapshot};
use crate::event::Event;
use crate::model::EntryView;
use vstd::prelude::*;

verus! {

/// An event bound to a handler, with the scheduling state that belongs to
/// the pair.
///
/// An entry is armed when it is made, advanced and polled once per tick,
/// and settled each time its handler has been called.
pub struct EventData<H> {
    id: EntryId,
    event: Event,
    remaining: u128,
    fired: u64,
    handler: H,
}

impl<H> View for EventData<H> {
    type V = EntryView<H>;

    closed spec fn view(&self) -> EntryView<H> {
        EntryView {
            id: self.id,
            event: self.event@,
            remaining: self.remaining as nat,
            fired: self.fired as nat,
            handler: self.handler,
        }
    }
}

impl<H> EventData<H> {
    /// Binds `event` to `handler` under the identifier `id`, with the wait
    /// that the event starts with and no firing counted.
    pub fn arm(id: EntryId, event: Event, handler: H) -> (entry: Self)
        ensures
            entry@ == EntryView::armed(id, event@, handler),
    {
        let remaining = event.initial_wait();
        EventData { id, event, remaining, fired: 0, handler }
    }

    /// The identifier of the entry.
    pub fn id(&self) -> (id: EntryId)
        ensures
            id == self@.id,
    {
        self.id
    }

    /// The event that governs the entry now.
    pub fn event(&self) -> (event: Event)
        ensures
            event@ == self@.event,
    {
        self.event
    }

    /// The nanoseconds that the entry still waits.
    pub fn remaining(&self) -> (remaining: u128)
        ensures
            remaining == self@.remaining,
    {
        self.remaining
    }

    /// How often the entry has fired.
    pub fn fire_count(&self) -> (fired: u64)
        ensures
            fired == self@.fired,
    {
        self.fired
    }

    /// The handler of the entry.
    pub fn handler(&self) -> (handler: &H)
        ensures
            *handler == self@.handler,
    {
        &self.handler
    }

    /// Takes the entry through the first part of a tick: lets `elapsed`
    /// nanoseconds pass and says whether the entry fires, and with what
    /// context.
    pub fn poll(&mut self, scope: Scope, elapsed: u128, snapshot: &Snapshot) -> (context: Option<
        EventContext,
    >)
        ensures
            final(self)@ == old(self)@.advanced(elapsed as nat),
            match context {
                Some(context) => old(self)@.due(scope, elapsed as nat, snapshot@) && context@ == old(
                    self,
                )@.context(scope, snapshot@),
                None => !old(self)@.due(scope, elapsed as nat, snapshot@),
            },
    {
        match self.event {
            Event::Periodic(_, _) | Event::Delayed(_) => {
                if self.remaining <= elapsed {
                    self.remaining = 0;
                    Some(EventContext::Timed(snapshot.timed_tracks(scope)))
                } else {
                    self.remaining = self.remaining - elapsed;
                    None
                }
            },
            Event::Track(kind) => {
                let batch = snapshot.transitions(scope, kind);
                if batch.len() > 0 {
                    Some(EventContext::TrackTransition(batch))
                } else {
                    None
                }
            },
            Event::Core(kind) => {
                match snapshot.occurrence(scope, kind) {
                    Some(occurrence) => Some(EventContext::Core(occurrence)),
                    None => None,
                }
            },
            Event::Cancel => None,
        }
    }

    /// Applies what the handler asked for after a firing. Returns whether
    /// the entry stays in its registry; an entry that does not stay is left
    /// unchanged.
    pub fn settle(&mut self, request: Option<Event>) -> (keep: bool)
        ensures
            match old(self)@.settled(request_view(request)) {
                Some(next) => keep && final(self)@ == next,
                None => !keep && final(self)@ == old(self)@,
            },
    {
        match request {
            None => {
                match self.event {
                    Event::Periodic(period, _) => {
                        self.remaining = period.as_nanos();
                        self.count_firing();
                        true
                    },
                    Event::Delayed(_) => false,
                    Event::Cancel => false,
                    _ => {
                        self.count_firing();
                        true
                    },
                }
            },
            Some(Event::Cancel) => false,
            Some(event) => {
                self.event = event;
                self.remaining = event.initial_wait();
                self.count_firing();
                true
            },
        }
    }

    fn count_firing(&mut self)
        ensures
            final(self)@ == (EntryView { fired: crate::model::bumped(old(self)@.fired), ..old(self)@ }),
    {
        if self.fired < u64::MAX {
            self.fired = self.fired + 1;
        }
    }
}

} // verus!
