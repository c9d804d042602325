//! What the registry is told each tick, and what it tells a handler.

use crate::event::{Event, EventView};
use crate::track::{CoreEvent, TrackChange, TrackEvent, TrackId};
use vstd::prelude::*;

verus! {

/// Identifies one entry of a registry. A registry never issues an
/// identifier twice.
pub type EntryId = u64;

/// Whose events a registry schedules.
#[derive(Clone, Copy, Debug, PartialEq, Eq, Hash, Structural)]
pub enum Scope {
    /// The whole driver: ticks once per audio frame and sees every track.
    Global,
    /// One track: ticks by that track's playback time and sees only that
    /// track's transitions.
    Local(TrackId),
}

impl Scope {
    /// Whether a registry of this scope takes notice of `change`.
    pub open spec fn sees(self, change: TrackChange) -> bool {
        match self {
            Scope::Global => true,
            Scope::Local(track) => change.track == track,
        }
    }

    /// Whether a registry of this scope takes notice of `change`.
    pub fn notices(self, change: &TrackChange) -> (seen: bool)
        ensures
            seen == self.sees(*change),
    {
        match self {
            Scope::Global => true,
            Scope::Local(track) => change.track == track,
        }
    }
}

/// A session-level occurrence with its payload.
#[derive(Clone, Debug, PartialEq, Eq)]
pub struct CoreOccurrence {
    /// What happened.
    pub kind: CoreEvent,
    /// The bytes that came with it. The scheduler hands them on unread.
    pub payload: Vec<u8>,
}

/// A [`CoreOccurrence`] as a mathematical value.
pub struct CoreOccurrenceView {
    pub kind: CoreEvent,
    pub payload: Seq<u8>,
}

impl View for CoreOccurrence {
    type V = CoreOccurrenceView;

    open spec fn view(&self) -> CoreOccurrenceView {
        CoreOccurrenceView { kind: self.kind, payload: self.payload@ }
    }
}

/// What the owner of a registry observed since the previous tick.
#[derive(Clone, Debug, PartialEq, Eq)]
pub struct Snapshot {
    /// Every track that the owner currently holds.
    pub tracks: Vec<TrackId>,
    /// The track transitions observed, in the order in which they happened.
    pub changes: Vec<TrackChange>,
    /// The session-level occurrence of this tick, if there was one.
    pub core: Option<CoreOccurrence>,
}

/// A [`Snapshot`] as a mathematical value.
pub struct SnapshotView {
    pub tracks: Seq<TrackId>,
    pub changes: Seq<TrackChange>,
    pub core: Option<CoreOccurrenceView>,
}

impl View for Snapshot {
    type V = SnapshotView;

    open spec fn view(&self) -> SnapshotView {
        SnapshotView {
            tracks: self.tracks@,
            changes: self.changes@,
            core: match self.core {
                Some(occurrence) => Some(occurrence@),
                None => None,
            },
        }
    }
}

impl SnapshotView {
    /// Every transition of kind `kind` that a registry of scope `scope`
    /// takes notice of, in the order of the snapshot.
    pub open spec fn hits(self, scope: Scope, kind: TrackEvent) -> Seq<TrackChange> {
        self.changes.filter(|change: TrackChange| scope.sees(change) && kind.occurs_in(change))
    }

    /// The transitions handed to an entry that waits for `kind`: all hits
    /// for a global registry, the first hit alone for a local one.
    pub open spec fn transitions(self, scope: Scope, kind: TrackEvent) -> Seq<TrackChange> {
        let hits = self.hits(scope, kind);
        if scope is Global || hits.len() == 0 {
            hits
        } else {
            seq![hits[0]]
        }
    }

    /// The tracks handed to an entry whose timer ran out.
    pub open spec fn timed_tracks(self, scope: Scope) -> Seq<TrackId> {
        match scope {
            Scope::Global => self.tracks,
            Scope::Local(track) => seq![track],
        }
    }

    /// The occurrence handed to an entry that waits for `kind`, if the
    /// registry is global and this tick brought one of that kind.
    pub open spec fn occurrence(self, scope: Scope, kind: CoreEvent) -> Option<CoreOccurrenceView> {
        match self.core {
            Some(occurrence) if scope is Global && occurrence.kind == kind => Some(occurrence),
            _ => None,
        }
    }
}

/// The read-only payload that says why a handler is called.
#[derive(Clone, Debug, PartialEq, Eq)]
pub enum EventContext {
    /// A timer ran out. Holds the tracks concerned: every track of the
    /// driver for a global entry, the owning track for a local one.
    Timed(Vec<TrackId>),
    /// Tracks made the awaited transition. A global entry is given every
    /// such transition of the tick, a local entry exactly one.
    TrackTransition(Vec<TrackChange>),
    /// The awaited session-level occurrence happened.
    Core(CoreOccurrence),
}

/// An [`EventContext`] as a mathematical value.
pub enum EventContextView {
    Timed(Seq<TrackId>),
    TrackTransition(Seq<TrackChange>),
    Core(CoreOccurrenceView),
}

impl View for EventContext {
    type V = EventContextView;

    open spec fn view(&self) -> EventContextView {
        match *self {
            EventContext::Timed(tracks) => EventContextView::Timed(tracks@),
            EventContext::TrackTransition(changes) => EventContextView::TrackTransition(changes@),
            EventContext::Core(occurrence) => EventContextView::Core(occurrence@),
        }
    }
}

/// One entry that fires this tick, with the context for its handler.
#[derive(Clone, Debug, PartialEq, Eq)]
pub struct Firing {
    /// The entry.
    pub id: EntryId,
    /// Why it fires.
    pub context: EventContext,
}

/// A [`Firing`] as a mathematical value.
pub struct FiringView {
    pub id: EntryId,
    pub context: EventContextView,
}

impl View for Firing {
    type V = FiringView;

    open spec fn view(&self) -> FiringView {
        FiringView { id: self.id, context: self.context@ }
    }
}

/// A list of firings as a mathematical value.
pub open spec fn firing_views(firings: Seq<Firing>) -> Seq<FiringView> {
    firings.map_values(|firing: Firing| firing@)
}

/// A list of dispatches as a mathematical value.
pub open spec fn dispatch_views(dispatches: Seq<Dispatch>) -> Seq<DispatchView> {
    dispatches.map_values(|dispatch: Dispatch| dispatch@)
}

/// A handler's request as a mathematical value.
pub open spec fn request_view(request: Option<Event>) -> Option<EventView> {
    match request {
        Some(event) => Some(event@),
        None => None,
    }
}

/// How one call of a handler ended.
#[derive(Clone, Copy, Debug, PartialEq, Eq)]
pub enum Outcome {
    /// The handler returned this.
    Returned(Option<Event>),
    /// The handler failed before it returned anything.
    Faulted,
}

/// An [`Outcome`] as a mathematical value.
pub enum OutcomeView {
    Returned(Option<EventView>),
    Faulted,
}

impl OutcomeView {
    /// What the outcome asks of the entry. A handler that failed asks for
    /// nothing, as if it had returned `None`.
    pub open spec fn request(self) -> Option<EventView> {
        match self {
            OutcomeView::Returned(request) => request,
            OutcomeView::Faulted => None,
        }
    }
}

impl View for Outcome {
    type V = OutcomeView;

    open spec fn view(&self) -> OutcomeView {
        match *self {
            Outcome::Returned(request) => OutcomeView::Returned(request_view(request)),
            Outcome::Faulted => OutcomeView::Faulted,
        }
    }
}

/// The outcome of the handler call made for one firing.
#[derive(Clone, Copy, Debug, PartialEq, Eq)]
pub struct Dispatch {
    /// The entry whose handler was called.
    pub id: EntryId,
    /// How the call ended.
    pub outcome: Outcome,
}

/// A [`Dispatch`] as a mathematical value.
pub struct DispatchView {
    pub id: EntryId,
    pub outcome: OutcomeView,
}

impl View for Dispatch {
    type V = DispatchView;

    open spec fn view(&self) -> DispatchView {
        DispatchView { id: self.id, outcome: self.outcome@ }
    }
}

impl CoreOccurrence {
    /// A copy of the occurrence with the same kind and payload.
    pub fn duplicate(&self) -> (copy: CoreOccurrence)
        ensures
            copy@ == self@,
    {
        let payload = self.payload.clone();
        assert(payload@ =~= self.payload@);
        CoreOccurrence { kind: self.kind, payload }
    }
}

impl Snapshot {
    /// The transitions handed to an entry that waits for `kind`: every
    /// transition of that kind that the scope takes notice of for a global
    /// registry, the first of them alone for a local one.
    pub fn transitions(&self, scope: Scope, kind: TrackEvent) -> (batch: Vec<TrackChange>)
        ensures
            batch@ == self@.transitions(scope, kind),
    {
        let ghost hit = |change: TrackChange| scope.sees(change) && kind.occurs_in(change);
        let mut batch: Vec<TrackChange> = Vec::new();
        let n = self.changes.len();
        let mut i: usize = 0;
        proof {
            reveal(Seq::filter);
            assert(self.changes@.take(0).len() == 0);
        }
        while i < n
            invariant
                0 <= i <= n,
                n == self.changes@.len(),
                hit == |change: TrackChange| scope.sees(change) && kind.occurs_in(change),
                batch@ == self.changes@.take(i as int).filter(hit),
            decreases n - i,
        {
            let change = self.changes[i];
            proof {
                reveal(Seq::filter);
                assert(self.changes@.take(i + 1).drop_last() == self.changes@.take(i as int));
                assert(self.changes@.take(i + 1).last() == change);
            }
            if scope.notices(&change) && kind.matches(&change) {
                batch.push(change);
            }
            i = i + 1;
        }
        proof {
            assert(self.changes@.take(n as int) == self.changes@);
        }
        match scope {
            Scope::Global => batch,
            Scope::Local(_) => {
                if batch.len() == 0 {
                    batch
                } else {
                    let first = batch[0];
                    let mut single: Vec<TrackChange> = Vec::new();
                    single.push(first);
                    proof {
                        assert(single@ == seq![first]);
                    }
                    single
                }
            },
        }
    }
    /// The tracks handed to an entry whose timer ran out: every track of
    /// the snapshot for a global registry, the owning track for a local
    /// one.
    pub fn timed_tracks(&self, scope: Scope) -> (tracks: Vec<TrackId>)
        ensures
            tracks@ == self@.timed_tracks(scope),
    {
        match scope {
            Scope::Global => {
                let tracks = self.tracks.clone();
                assert(tracks@ =~= self.tracks@);
                tracks
            },
            Scope::Local(track) => {
                let mut tracks: Vec<TrackId> = Vec::new();
                tracks.push(track);
                assert(tracks@ =~= seq![track]);
                tracks
            },
        }
    }

    /// The occurrence handed to an entry that waits for `kind`: a copy of
    /// this tick's occurrence if the registry is global and the occurrence
    /// is of that kind, and nothing otherwise.
    pub fn occurrence(&self, scope: Scope, kind: CoreEvent) -> (found: Option<CoreOccurrence>)
        ensures
            match found {
                Some(occurrence) => self@.occurrence(scope, kind) == Some(occurrence@),
                None => self@.occurrence(scope, kind) is None,
            },
    {
        match &self.core {
            Some(occurrence) => {
                match scope {
                    Scope::Global => {
                        if occurrence.kind == kind {
                            Some(occurrence.duplicate())
                        } else {
                            None
                        }
                    },
                    Scope::Local(_) => None,
                }
            },
            None => None,
        }
    }
}

} // verus!
