//! Event descriptors and the handler capability.

use crate::context::EventContext;
use crate::time::nanos;
use crate::track::{CoreEvent, TrackEvent};
use std::time::Duration;
use vstd::prelude::*;

verus! {

/// Classes of event which may occur, triggering a handler at the local
/// (track-specific) or global level.
///
/// Local time-based events run on the playback time of their track, so they
/// do not fire while the track is paused or stopped.
#[derive(Clone, Copy, Debug, Eq, Hash, PartialEq)]
#[non_exhaustive]
pub enum Event {
    /// Fires every *period*. With a *phase* the first firing comes one phase
    /// after registration, without one it comes one period after. Repeats
    /// for as long as the handler returns `None`.
    Periodic(Duration, Option<Duration>),
    /// Fires once, one *delay* after registration, and is then removed
    /// unless the handler returns another event.
    Delayed(Duration),
    /// Fires whenever a track makes the given transition. Persists while the
    /// handler returns `None`.
    Track(TrackEvent),
    /// Fires on a session-level occurrence. Persists while the handler
    /// returns `None`. Only a global registry evaluates these: attached to a
    /// track they are stored and never fire.
    Core(CoreEvent),
    /// Returned by a handler to have its entry removed.
    Cancel,
}

/// What an [`Event`] means to the scheduler: the same five classes, with
/// every duration as a number of nanoseconds.
pub enum EventView {
    Periodic { period: nat, phase: Option<nat> },
    Delayed { delay: nat },
    Track(TrackEvent),
    Core(CoreEvent),
    Cancel,
}

impl EventView {
    /// Whether the event is driven by the passage of time.
    pub open spec fn is_timed(self) -> bool {
        self is Periodic || self is Delayed
    }

    /// Whether only a global registry may fire the event.
    pub open spec fn is_global_only(self) -> bool {
        self is Core
    }

    /// How long a freshly armed entry with this event waits for its first
    /// firing. Events that are not driven by time wait for nothing.
    pub open spec fn initial_wait(self) -> nat {
        match self {
            EventView::Periodic { period, phase: Some(phase) } => phase,
            EventView::Periodic { period, phase: None } => period,
            EventView::Delayed { delay } => delay,
            _ => 0,
        }
    }
}

impl View for Event {
    type V = EventView;

    open spec fn view(&self) -> EventView {
        match *self {
            Event::Periodic(period, Some(phase)) => EventView::Periodic {
                period: nanos(period),
                phase: Some(nanos(phase)),
            },
            Event::Periodic(period, None) => EventView::Periodic {
                period: nanos(period),
                phase: None,
            },
            Event::Delayed(delay) => EventView::Delayed { delay: nanos(delay) },
            Event::Track(kind) => EventView::Track(kind),
            Event::Core(kind) => EventView::Core(kind),
            Event::Cancel => EventView::Cancel,
        }
    }
}

impl Event {
    /// Whether only a global registry may fire the event.
    pub fn is_global_only(&self) -> (global_only: bool)
        ensures
            global_only == self@.is_global_only(),
            global_only == (*self is Core),
    {
        match self {
            Event::Core(_) => true,
            _ => false,
        }
    }

    /// Whether the event is driven by the passage of time.
    pub fn is_timed(&self) -> (timed: bool)
        ensures
            timed == self@.is_timed(),
    {
        match self {
            Event::Periodic(_, _) => true,
            Event::Delayed(_) => true,
            _ => false,
        }
    }

    /// Whether this is the cancellation sentinel.
    pub fn is_cancel(&self) -> (cancel: bool)
        ensures
            cancel == (self@ is Cancel),
    {
        match self {
            Event::Cancel => true,
            _ => false,
        }
    }

    /// The nanoseconds that a freshly armed entry with this event waits for
    /// its first firing.
    pub fn initial_wait(&self) -> (wait: u128)
        ensures
            wait == self@.initial_wait(),
    {
        match self {
            Event::Periodic(period, Some(phase)) => phase.as_nanos(),
            Event::Periodic(period, None) => period.as_nanos(),
            Event::Delayed(delay) => delay.as_nanos(),
            _ => 0,
        }
    }
}

impl From<TrackEvent> for Event {
    fn from(evt: TrackEvent) -> (event: Event) {
        Event::Track(evt)
    }
}

impl vstd::std_specs::convert::FromSpecImpl<TrackEvent> for Event {
    open spec fn obeys_from_spec() -> bool {
        true
    }

    open spec fn from_spec(evt: TrackEvent) -> Event {
        Event::Track(evt)
    }
}

impl From<CoreEvent> for Event {
    fn from(evt: CoreEvent) -> (event: Event) {
        Event::Core(evt)
    }
}

impl vstd::std_specs::convert::FromSpecImpl<CoreEvent> for Event {
    open spec fn obeys_from_spec() -> bool {
        true
    }

    open spec fn from_spec(evt: CoreEvent) -> Event {
        Event::Core(evt)
    }
}

/// Handles an event which can be fired per track or globally.
///
/// A handler may be shared by several entries. It is called with the context
/// of one firing and returns what shall become of the entry that fired:
/// `None` leaves the entry to its event's own rule, `Some(Event::Cancel)`
/// removes it, and any other event replaces the entry's event and arms the
/// entry anew.
pub trait EventHandler: Send + Sync {
    /// Responds to one firing.
    fn act(&self, ctx: &EventContext) -> Option<Event>;
}

} // verus!
