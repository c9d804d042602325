//! The scheduling rules, stated on mathematical values.
//!
//! An entry is armed, advanced by the time that passes, found due or not,
//! and settled by what its handler returned. Every executable function of
//! the registry is specified by one of the functions here.

use crate::context::{
    DispatchView, EntryId, EventContextView, FiringView, Scope, SnapshotView,
};
use crate::event::EventView;
use vstd::prelude::*;

verus! {

/// One entry of a registry: an event bound to a handler, with the time the
/// entry still waits and the number of times it has fired.
pub struct EntryView<H> {
    pub id: EntryId,
    pub event: EventView,
    /// Nanoseconds until the next firing. Zero for events not driven by
    /// time.
    pub remaining: nat,
    pub fired: nat,
    pub handler: H,
}

/// A fire count after one more firing. The count stops at the largest
/// value that the registry can hold.
pub open spec fn bumped(count: nat) -> nat {
    if count < u64::MAX {
        count + 1
    } else {
        count
    }
}

impl<H> EntryView<H> {
    /// The entry that registration creates.
    pub open spec fn armed(id: EntryId, event: EventView, handler: H) -> Self {
        EntryView { id, event, remaining: event.initial_wait(), fired: 0, handler }
    }

    /// The entry after `elapsed` nanoseconds have passed: a timer counts
    /// down and stops at zero, anything else is left as it is.
    pub open spec fn advanced(self, elapsed: nat) -> Self {
        if self.event.is_timed() {
            EntryView {
                remaining: if self.remaining <= elapsed {
                    0
                } else {
                    (self.remaining - elapsed) as nat
                },
                ..self
            }
        } else {
            self
        }
    }

    /// Whether the entry fires in a tick of `elapsed` nanoseconds with the
    /// given snapshot. A timer fires when its wait has run out, however
    /// far beyond; a track event fires when the scope saw such a
    /// transition; a core event fires in a global registry that was
    /// handed such an occurrence.
    pub open spec fn due(self, scope: Scope, elapsed: nat, snapshot: SnapshotView) -> bool {
        match self.event {
            EventView::Periodic { .. } => self.remaining <= elapsed,
            EventView::Delayed { .. } => self.remaining <= elapsed,
            EventView::Track(kind) => snapshot.transitions(scope, kind).len() > 0,
            EventView::Core(kind) => snapshot.occurrence(scope, kind) is Some,
            EventView::Cancel => false,
        }
    }

    /// The context that the handler is given when the entry fires.
    pub open spec fn context(self, scope: Scope, snapshot: SnapshotView) -> EventContextView {
        match self.event {
            EventView::Track(kind) => EventContextView::TrackTransition(
                snapshot.transitions(scope, kind),
            ),
            EventView::Core(kind) => EventContextView::Core(
                snapshot.occurrence(scope, kind).unwrap(),
            ),
            _ => EventContextView::Timed(snapshot.timed_tracks(scope)),
        }
    }

    /// The firing of this entry in the given tick.
    pub open spec fn firing(self, scope: Scope, snapshot: SnapshotView) -> FiringView {
        FiringView { id: self.id, context: self.context(scope, snapshot) }
    }

    /// The entry after it fired and its handler asked for `request`, or
    /// `None` where the entry is removed.
    ///
    /// With no request a periodic entry waits one period again, a delayed
    /// entry is removed, and a track or core entry stays as it is. A
    /// request to cancel removes the entry. Any other request replaces the
    /// event and arms the entry as registration would.
    pub open spec fn settled(self, request: Option<EventView>) -> Option<Self> {
        match request {
            None => match self.event {
                EventView::Periodic { period, .. } => Some(
                    EntryView { remaining: period, fired: bumped(self.fired), ..self },
                ),
                EventView::Delayed { .. } => None,
                EventView::Cancel => None,
                _ => Some(EntryView { fired: bumped(self.fired), ..self }),
            },
            Some(EventView::Cancel) => None,
            Some(event) => Some(
                EntryView {
                    event,
                    remaining: event.initial_wait(),
                    fired: bumped(self.fired),
                    ..self
                },
            ),
        }
    }

    /// The entry after one whole tick in which its handler, if called,
    /// asked for `request`.
    pub open spec fn ticked(
        self,
        scope: Scope,
        elapsed: nat,
        snapshot: SnapshotView,
        request: Option<EventView>,
    ) -> Option<Self> {
        if self.due(scope, elapsed, snapshot) {
            self.advanced(elapsed).settled(request)
        } else {
            Some(self.advanced(elapsed))
        }
    }
}

/// A registry: its scope, its entries in the order in which they were
/// registered, and the number of identifiers it has issued.
pub struct StoreView<H> {
    pub scope: Scope,
    pub entries: Seq<EntryView<H>>,
    pub next_id: nat,
}

impl<H> StoreView<H> {
    /// Identifiers grow along the entries, and every one of them has been
    /// issued. So no two entries share an identifier, and the order of the
    /// entries is the order of their registration.
    pub open spec fn wf(self) -> bool {
        &&& forall|i: int, j: int|
            0 <= i < j < self.entries.len() ==> self.entries[i].id < self.entries[j].id
        &&& forall|i: int| 0 <= i < self.entries.len() ==> self.entries[i].id < self.next_id
    }

    /// Whether the entry at index `i` has the identifier `id`.
    pub open spec fn holds_at(self, id: EntryId, i: int) -> bool {
        0 <= i < self.entries.len() && self.entries[i].id == id
    }

    /// Whether an entry with the identifier `id` is present.
    pub open spec fn contains(self, id: EntryId) -> bool {
        exists|i: int| self.holds_at(id, i)
    }

    /// The index of the entry with the identifier `id`, if it is present.
    pub open spec fn position(self, id: EntryId) -> int {
        choose|i: int| self.holds_at(id, i)
    }

    /// In a well-formed registry an identifier is found at one index only.
    pub proof fn lemma_position(self, id: EntryId, i: int)
        requires
            self.wf(),
            self.holds_at(id, i),
        ensures
            self.contains(id),
            self.position(id) == i,
    {
        let chosen = self.position(id);
        assert(self.holds_at(id, chosen));
        if chosen < i {
            assert(self.entries[chosen].id < self.entries[i].id);
        } else if i < chosen {
            assert(self.entries[i].id < self.entries[chosen].id);
        }
    }

    /// The entry with the identifier `id`, if it is present.
    pub open spec fn get(self, id: EntryId) -> Option<EntryView<H>> {
        if self.contains(id) {
            Some(self.entries[self.position(id)])
        } else {
            None
        }
    }

    /// The registry that its owner starts with.
    pub open spec fn empty(scope: Scope) -> Self {
        StoreView { scope, entries: Seq::empty(), next_id: 0 }
    }

    /// The registry after `event` was registered with `handler`. The next
    /// identifier is used up in every case; the entry is appended unless
    /// the event is the cancellation sentinel, which leaves nothing to
    /// schedule.
    pub open spec fn registered(self, event: EventView, handler: H) -> Self {
        StoreView {
            entries: if event is Cancel {
                self.entries
            } else {
                self.entries.push(EntryView::armed(self.next_id as EntryId, event, handler))
            },
            next_id: self.next_id + 1,
            ..self
        }
    }

    /// The registry without the entry `id`.
    pub open spec fn cancelled(self, id: EntryId) -> Self {
        if self.contains(id) {
            StoreView { entries: self.entries.remove(self.position(id)), ..self }
        } else {
            self
        }
    }

    /// The registry after `elapsed` nanoseconds have passed for every
    /// entry.
    pub open spec fn advanced(self, elapsed: nat) -> Self {
        StoreView {
            entries: self.entries.map_values(|entry: EntryView<H>| entry.advanced(elapsed)),
            ..self
        }
    }

    /// The entries that fire in a tick of `elapsed` nanoseconds with the
    /// given snapshot: each due entry once, in the order of registration,
    /// with its context.
    pub open spec fn firings(self, elapsed: nat, snapshot: SnapshotView) -> Seq<FiringView> {
        self.entries.filter(|entry: EntryView<H>| entry.due(self.scope, elapsed, snapshot))
            .map_values(|entry: EntryView<H>| entry.firing(self.scope, snapshot))
    }

    /// Every firing belongs to an entry that is present and due, and holds
    /// that entry's context.
    pub proof fn lemma_firing_entry(self, elapsed: nat, snapshot: SnapshotView, k: int)
        requires
            self.wf(),
            0 <= k < self.firings(elapsed, snapshot).len(),
        ensures
            self.get(self.firings(elapsed, snapshot)[k].id) matches Some(entry) && entry.due(
                self.scope,
                elapsed,
                snapshot,
            ) && self.firings(elapsed, snapshot)[k] == entry.firing(self.scope, snapshot),
    {
        let due = |entry: EntryView<H>| entry.due(self.scope, elapsed, snapshot);
        let chosen = self.entries.filter(due);
        let entry = chosen[k];
        assert(chosen.contains(entry));
        self.entries.lemma_filter_contains_rev(due, entry);
        self.entries.lemma_filter_pred(due, k);
        let i = choose|i: int| 0 <= i < self.entries.len() && self.entries[i] == entry;
        assert(self.holds_at(entry.id, i));
        self.lemma_position(entry.id, i);
    }

    /// The registry after the handler of entry `id` asked for `request`.
    /// Only that entry changes; it keeps its place or is removed.
    pub open spec fn settled(self, id: EntryId, request: Option<EventView>) -> Self {
        if self.contains(id) {
            let i = self.position(id);
            StoreView {
                entries: match self.entries[i].settled(request) {
                    Some(next) => self.entries.update(i, next),
                    None => self.entries.remove(i),
                },
                ..self
            }
        } else {
            self
        }
    }

    /// The registry after every outcome in `dispatches` was applied, one
    /// after the other.
    pub open spec fn settled_all(self, dispatches: Seq<DispatchView>) -> Self {
        dispatches.fold_left(
            self,
            |store: Self, dispatch: DispatchView|
                store.settled(dispatch.id, dispatch.outcome.request()),
        )
    }

    /// Settling changes the entry it names and no other. What the
    /// registry holds afterwards under any identifier is what it held
    /// before, but for the named entry, which has become what its own rule
    /// makes of it.
    pub proof fn lemma_settled(self, id: EntryId, request: Option<EventView>)
        requires
            self.wf(),
        ensures
            self.settled(id, request).wf(),
            self.settled(id, request).scope == self.scope,
            self.settled(id, request).next_id == self.next_id,
            self.settled(id, request).get(id) == match self.get(id) {
                Some(entry) => entry.settled(request),
                None => None,
            },
            forall|other: EntryId|
                other != id ==> #[trigger] self.settled(id, request).get(other) == self.get(other),
    {
        let after = self.settled(id, request);
        if self.contains(id) {
            let i = self.position(id);
            assert(self.holds_at(id, i));
            match self.entries[i].settled(request) {
                Some(next) => {
                    assert(after.entries == self.entries.update(i, next));
                    assert(after.holds_at(id, i));
                    after.lemma_position(id, i);
                    assert forall|other: EntryId| other != id implies #[trigger] after.get(other)
                        == self.get(other) by {
                        if self.contains(other) {
                            let j = self.position(other);
                            assert(self.holds_at(other, j));
                            assert(after.holds_at(other, j));
                            after.lemma_position(other, j);
                        } else if after.contains(other) {
                            let j = after.position(other);
                            assert(after.holds_at(other, j));
                            assert(self.holds_at(other, j));
                        }
                    }
                },
                None => {
                    self.lemma_removed(i);
                },
            }
        }
    }

    /// Removing the entry at index `i` takes away what the registry held
    /// under that entry's identifier and leaves every other entry.
    pub proof fn lemma_removed(self, i: int)
        requires
            self.wf(),
            0 <= i < self.entries.len(),
        ensures
            ({
                let after = StoreView { entries: self.entries.remove(i), ..self };
                &&& after.wf()
                &&& after.get(self.entries[i].id) is None
                &&& forall|other: EntryId|
                    other != self.entries[i].id ==> #[trigger] after.get(other) == self.get(other)
            }),
    {
        let id = self.entries[i].id;
        let after = StoreView { entries: self.entries.remove(i), ..self };
        self.entries.remove_ensures(i);
        assert(after.wf());
        if after.contains(id) {
            let j = after.position(id);
            assert(after.holds_at(id, j));
            let origin = if j < i { j } else { j + 1 };
            assert(self.holds_at(id, origin));
            self.lemma_position(id, origin);
        }
        assert forall|other: EntryId| other != id implies #[trigger] after.get(other) == self.get(
            other,
        ) by {
            if self.contains(other) {
                let j = self.position(other);
                assert(self.holds_at(other, j));
                let target = if j < i { j } else { j - 1 };
                assert(after.holds_at(other, target));
                after.lemma_position(other, target);
            } else if after.contains(other) {
                let j = after.position(other);
                assert(after.holds_at(other, j));
                let origin = if j < i { j } else { j + 1 };
                assert(self.holds_at(other, origin));
            }
        }
    }

    /// Cancelling removes the entry it names and no other.
    pub proof fn law_cancel_takes_one(self, id: EntryId)
        requires
            self.wf(),
        ensures
            self.cancelled(id).wf(),
            self.cancelled(id).get(id) is None,
            forall|other: EntryId|
                other != id ==> #[trigger] self.cancelled(id).get(other) == self.get(other),
    {
        if self.contains(id) {
            let i = self.position(id);
            assert(self.holds_at(id, i));
            self.lemma_removed(i);
        }
    }

    /// Registering issues an identifier that no entry has, binds the event
    /// under it unless the event is the cancellation sentinel, and leaves
    /// every other entry.
    pub proof fn law_register_adds_one(self, event: EventView, handler: H)
        requires
            self.wf(),
            self.next_id <= u64::MAX,
        ensures
            self.registered(event, handler).wf(),
            self.get(self.next_id as EntryId) is None,
            self.registered(event, handler).get(self.next_id as EntryId) == if event is Cancel {
                None
            } else {
                Some(EntryView::armed(self.next_id as EntryId, event, handler))
            },
            forall|other: EntryId|
                other != self.next_id ==> #[trigger] self.registered(event, handler).get(other)
                    == self.get(other),
    {
        let id = self.next_id as EntryId;
        let after = self.registered(event, handler);
        if self.contains(id) {
            let j = self.position(id);
            assert(self.holds_at(id, j));
        }
        if !(event is Cancel) {
            let last = self.entries.len() as int;
            assert(after.holds_at(id, last));
            after.lemma_position(id, last);
            assert forall|other: EntryId| other != id implies #[trigger] after.get(other)
                == self.get(other) by {
                if self.contains(other) {
                    let j = self.position(other);
                    assert(self.holds_at(other, j));
                    assert(after.holds_at(other, j));
                    after.lemma_position(other, j);
                } else if after.contains(other) {
                    let j = after.position(other);
                    assert(after.holds_at(other, j));
                    assert(self.holds_at(other, j));
                }
            }
        } else {
            assert(after.entries == self.entries);
            assert forall|other: EntryId| other != id implies #[trigger] after.get(other)
                == self.get(other) by {
                assert(forall|j: int| after.holds_at(other, j) == self.holds_at(other, j));
            }
            assert(forall|j: int| after.holds_at(id, j) == self.holds_at(id, j));
        }
    }

    /// Letting time pass keeps every entry in its place and advances each
    /// by itself.
    pub proof fn lemma_advanced(self, elapsed: nat)
        requires
            self.wf(),
        ensures
            self.advanced(elapsed).wf(),
            forall|id: EntryId| #[trigger]
                self.advanced(elapsed).get(id) == match self.get(id) {
                    Some(entry) => Some(entry.advanced(elapsed)),
                    None => None,
                },
    {
        let after = self.advanced(elapsed);
        assert forall|id: EntryId| #[trigger] after.get(id) == match self.get(id) {
            Some(entry) => Some(entry.advanced(elapsed)),
            None => None,
        } by {
            if self.contains(id) {
                let j = self.position(id);
                assert(self.holds_at(id, j));
                assert(after.holds_at(id, j));
                after.lemma_position(id, j);
            } else if after.contains(id) {
                let j = after.position(id);
                assert(after.holds_at(id, j));
                assert(self.holds_at(id, j));
            }
        }
    }
}

/// Whether `dispatches` holds one outcome for each firing, in the order of
/// the firings.
pub open spec fn answers(dispatches: Seq<DispatchView>, firings: Seq<FiringView>) -> bool {
    &&& dispatches.len() == firings.len()
    &&& forall|k: int| 0 <= k < dispatches.len() ==> (#[trigger] dispatches[k]).id == firings[k].id
}

/// The entries whose handler failed, in the order of `dispatches`.
pub open spec fn faults(dispatches: Seq<DispatchView>) -> Seq<EntryId> {
    dispatches.filter(|dispatch: DispatchView| dispatch.outcome is Faulted).map_values(
        |dispatch: DispatchView| dispatch.id,
    )
}

} // verus!
