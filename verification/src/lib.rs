//! Event scheduling and dispatch for an audio driver and its tracks.
//!
//! A registry ([`EventStore`]) binds event descriptors ([`Event`]) to
//! handlers. Once per audio frame its owner advances it by the time that has
//! passed and a snapshot of what the tracks and the session did; the registry
//! says which entries fire and with what context, and afterwards applies what
//! each handler returned to that handler's own entry.

pub mod context;
pub mod data;
pub mod event;
pub mod laws;
pub mod model;
pub mod store;
pub mod time;
pub mod track;

pub use context::{
    dispatch_views, firing_views, request_view, CoreOccurrence, CoreOccurrenceView, Dispatch,
    DispatchView, EntryId, EventContext, EventContextView, Firing, FiringView, Outcome,
    OutcomeView, Scope, Snapshot, SnapshotView,
};
pub use data::EventData;
pub use event::{Event, EventHandler, EventView};
pub use laws::{distinct, names, request_for, same_schedule, seen_by, total, unanswered, RoundView, TickView};
pub use model::{answers, bumped, faults, EntryView, StoreView};
pub use store::EventStore;
pub use time::{nanos, nanos_of};
pub use track::{CoreEvent, TrackChange, TrackEvent, TrackId, TrackState};
