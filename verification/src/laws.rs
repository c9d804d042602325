//! What holds of the scheduling rules, proved from their definitions.
//!
//! The first part follows one registry through one tick and shows that each
//! entry fares as its own rule says, whatever the other entries do. The
//! second part follows one entry through any number of ticks.

use crate::context::{DispatchView, EntryId, EventContextView, FiringView, Scope, SnapshotView};
use crate::event::EventView;
use crate::model::{answers, EntryView, StoreView};
use vstd::prelude::*;

verus! {

/// Whether some dispatch in `dispatches` names the entry `id`.
pub open spec fn names(dispatches: Seq<DispatchView>, id: EntryId) -> bool {
    exists|k: int| 0 <= k < dispatches.len() && #[trigger] dispatches[k].id == id
}

/// What the handler of entry `id` asked for according to `dispatches`, and
/// `None` where no dispatch names the entry.
pub open spec fn request_for(dispatches: Seq<DispatchView>, id: EntryId) -> Option<EventView> {
    if names(dispatches, id) {
        let k = choose|k: int| 0 <= k < dispatches.len() && #[trigger] dispatches[k].id == id;
        dispatches[k].outcome.request()
    } else {
        None
    }
}

/// Whether no two dispatches name the same entry.
pub open spec fn distinct(dispatches: Seq<DispatchView>) -> bool {
    forall|a: int, b: int|
        0 <= a < b < dispatches.len() ==> (#[trigger] dispatches[a]).id != (
        #[trigger] dispatches[b]).id
}

/// Picking entries out of a list with growing identifiers gives a list with
/// growing identifiers, all of them taken from the first.
proof fn lemma_filter_keeps_order<H>(
    entries: Seq<EntryView<H>>,
    keep: spec_fn(EntryView<H>) -> bool,
)
    requires
        forall|i: int, j: int| 0 <= i < j < entries.len() ==> entries[i].id < entries[j].id,
    ensures
        forall|a: int, b: int|
            0 <= a < b < entries.filter(keep).len() ==> entries.filter(keep)[a].id
                < entries.filter(keep)[b].id,
        forall|a: int|
            0 <= a < entries.filter(keep).len() ==> exists|i: int|
                0 <= i < entries.len() && entries[i] == #[trigger] entries.filter(keep)[a],
    decreases entries.len(),
{
    reveal(Seq::filter);
    if entries.len() > 0 {
        let rest = entries.drop_last();
        let last = entries.last();
        let kept = rest.filter(keep);
        lemma_filter_keeps_order(rest, keep);
        assert forall|a: int| 0 <= a < kept.len() implies (#[trigger] kept[a]).id < last.id
            && exists|i: int| 0 <= i < entries.len() && entries[i] == kept[a] by {
            let i = choose|i: int| 0 <= i < rest.len() && rest[i] == kept[a];
            assert(entries[i] == kept[a]);
        }
        if keep(last) {
            assert(entries.filter(keep) == kept.push(last));
            assert(entries[entries.len() - 1] == last);
        } else {
            assert(entries.filter(keep) == kept);
        }
    }
}

impl<H> StoreView<H> {
    /// In one tick no entry fires twice, and the firings come in the order
    /// of registration: their identifiers grow along the list.
    pub proof fn law_firings_in_order(self, elapsed: nat, snapshot: SnapshotView)
        requires
            self.wf(),
        ensures
            forall|a: int, b: int|
                0 <= a < b < self.firings(elapsed, snapshot).len() ==> (
                #[trigger] self.firings(elapsed, snapshot)[a]).id < (#[trigger] self.firings(
                    elapsed,
                    snapshot,
                )[b]).id,
    {
        let due = |entry: EntryView<H>| entry.due(self.scope, elapsed, snapshot);
        lemma_filter_keeps_order(self.entries, due);
    }

    /// An entry fires in a tick exactly if it is present and due.
    pub proof fn law_fires_iff_due(self, elapsed: nat, snapshot: SnapshotView, id: EntryId)
        requires
            self.wf(),
        ensures
            (exists|k: int|
                0 <= k < self.firings(elapsed, snapshot).len() && #[trigger] self.firings(
                    elapsed,
                    snapshot,
                )[k].id == id) <==> (self.get(id) matches Some(entry) && entry.due(
                self.scope,
                elapsed,
                snapshot,
            )),
    {
        let due = |entry: EntryView<H>| entry.due(self.scope, elapsed, snapshot);
        let firings = self.firings(elapsed, snapshot);
        if exists|k: int| 0 <= k < firings.len() && #[trigger] firings[k].id == id {
            let k = choose|k: int| 0 <= k < firings.len() && #[trigger] firings[k].id == id;
            self.lemma_firing_entry(elapsed, snapshot, k);
        }
        if self.get(id) matches Some(entry) && entry.due(self.scope, elapsed, snapshot) {
            let i = self.position(id);
            assert(self.holds_at(id, i));
            self.entries.lemma_filter_contains(due, i);
            let kept = self.entries.filter(due);
            let k = choose|k: int| 0 <= k < kept.len() && kept[k] == self.entries[i];
            assert(firings[k].id == id);
        }
    }

    /// Applying outcomes that name each entry at most once changes every
    /// named entry by its own outcome and no entry besides.
    pub proof fn lemma_settled_all(self, dispatches: Seq<DispatchView>)
        requires
            self.wf(),
            distinct(dispatches),
        ensures
            self.settled_all(dispatches).wf(),
            self.settled_all(dispatches).scope == self.scope,
            self.settled_all(dispatches).next_id == self.next_id,
            forall|id: EntryId| #[trigger]
                self.settled_all(dispatches).get(id) == if names(dispatches, id) {
                    match self.get(id) {
                        Some(entry) => entry.settled(request_for(dispatches, id)),
                        None => None,
                    }
                } else {
                    self.get(id)
                },
        decreases dispatches.len(),
    {
        if dispatches.len() > 0 {
            let rest = dispatches.drop_last();
            let last = dispatches.last();
            let before = self.settled_all(rest);
            let after = self.settled_all(dispatches);
            assert(distinct(rest));
            self.lemma_settled_all(rest);
            before.lemma_settled(last.id, last.outcome.request());
            assert(after == before.settled(last.id, last.outcome.request()));
            assert(!names(rest, last.id)) by {
                if names(rest, last.id) {
                    let k = choose|k: int| 0 <= k < rest.len() && #[trigger] rest[k].id == last.id;
                    assert(dispatches[k].id == dispatches[dispatches.len() - 1].id);
                }
            }
            assert forall|id: EntryId| #[trigger] after.get(id) == if names(dispatches, id) {
                match self.get(id) {
                    Some(entry) => entry.settled(request_for(dispatches, id)),
                    None => None,
                }
            } else {
                self.get(id)
            } by {
                if id == last.id {
                    let n = dispatches.len() - 1;
                    assert(dispatches[n].id == id);
                    let k = choose|k: int|
                        0 <= k < dispatches.len() && #[trigger] dispatches[k].id == id;
                    assert(k == n) by {
                        if k != n {
                            assert(dispatches[k].id != dispatches[n].id);
                        }
                    }
                } else if names(rest, id) {
                    let r = choose|k: int| 0 <= k < rest.len() && #[trigger] rest[k].id == id;
                    assert(dispatches[r].id == id);
                    let k = choose|k: int|
                        0 <= k < dispatches.len() && #[trigger] dispatches[k].id == id;
                    assert(k == r) by {
                        if k < r {
                            assert(dispatches[k].id != dispatches[r].id);
                        } else if r < k {
                            assert(dispatches[r].id != dispatches[k].id);
                        }
                    }
                    assert(rest[k] == dispatches[k]);
                } else {
                    if names(dispatches, id) {
                        let k = choose|k: int|
                            0 <= k < dispatches.len() && #[trigger] dispatches[k].id == id;
                        assert(rest[k].id == id);
                    }
                }
            }
        }
    }

    /// In one tick every entry fares as its own rule says, whatever the
    /// other entries do: an entry that is not due only has time pass, an
    /// entry that is due is settled by what its own handler returned, and
    /// no entry appears.
    pub proof fn law_tick_is_entrywise(
        self,
        elapsed: nat,
        snapshot: SnapshotView,
        dispatches: Seq<DispatchView>,
    )
        requires
            self.wf(),
            answers(dispatches, self.firings(elapsed, snapshot)),
        ensures
            self.advanced(elapsed).settled_all(dispatches).wf(),
            self.advanced(elapsed).settled_all(dispatches).scope == self.scope,
            self.advanced(elapsed).settled_all(dispatches).next_id == self.next_id,
            forall|id: EntryId| #[trigger]
                self.advanced(elapsed).settled_all(dispatches).get(id) == match self.get(id) {
                    Some(entry) => entry.ticked(
                        self.scope,
                        elapsed,
                        snapshot,
                        request_for(dispatches, id),
                    ),
                    None => None,
                },
    {
        let firings = self.firings(elapsed, snapshot);
        let moved = self.advanced(elapsed);
        let after = moved.settled_all(dispatches);
        self.law_firings_in_order(elapsed, snapshot);
        assert(distinct(dispatches)) by {
            assert forall|a: int, b: int| 0 <= a < b < dispatches.len() implies (
            #[trigger] dispatches[a]).id != (#[trigger] dispatches[b]).id by {
                assert(firings[a].id < firings[b].id);
            }
        }
        self.lemma_advanced(elapsed);
        moved.lemma_settled_all(dispatches);
        assert forall|id: EntryId| #[trigger] after.get(id) == match self.get(id) {
            Some(entry) => entry.ticked(self.scope, elapsed, snapshot, request_for(dispatches, id)),
            None => None,
        } by {
            self.law_fires_iff_due(elapsed, snapshot, id);
            assert(moved.get(id) == match self.get(id) {
                Some(entry) => Some(entry.advanced(elapsed)),
                None => None,
            });
            if names(dispatches, id) {
                let k = choose|k: int|
                    0 <= k < dispatches.len() && #[trigger] dispatches[k].id == id;
                assert(firings[k].id == id);
            } else if self.get(id) matches Some(entry) && entry.due(self.scope, elapsed, snapshot) {
                let k = choose|k: int| 0 <= k < firings.len() && #[trigger] firings[k].id == id;
                assert(dispatches[k].id == id);
            }
        }
    }

    /// The request that `dispatches` holds for the entry named by its
    /// dispatch `k`, where no two dispatches name the same entry.
    pub proof fn lemma_request_for(dispatches: Seq<DispatchView>, k: int)
        requires
            distinct(dispatches),
            0 <= k < dispatches.len(),
        ensures
            names(dispatches, dispatches[k].id),
            request_for(dispatches, dispatches[k].id) == dispatches[k].outcome.request(),
    {
        let id = dispatches[k].id;
        let chosen = choose|j: int| 0 <= j < dispatches.len() && #[trigger] dispatches[j].id == id;
        if chosen < k {
            assert(dispatches[chosen].id != dispatches[k].id);
        } else if k < chosen {
            assert(dispatches[k].id != dispatches[chosen].id);
        }
    }

    /// The outcomes of one tick name no entry twice.
    pub proof fn lemma_answers_distinct(
        self,
        elapsed: nat,
        snapshot: SnapshotView,
        dispatches: Seq<DispatchView>,
    )
        requires
            self.wf(),
            answers(dispatches, self.firings(elapsed, snapshot)),
        ensures
            distinct(dispatches),
    {
        let firings = self.firings(elapsed, snapshot);
        self.law_firings_in_order(elapsed, snapshot);
        assert forall|a: int, b: int| 0 <= a < b < dispatches.len() implies (
        #[trigger] dispatches[a]).id != (#[trigger] dispatches[b]).id by {
            assert(firings[a].id < firings[b].id);
        }
    }

    /// An entry whose handler asked to cancel is gone when the tick is
    /// over, whatever its event, and fires in no later tick.
    pub proof fn law_cancel_takes_effect(
        self,
        elapsed: nat,
        snapshot: SnapshotView,
        dispatches: Seq<DispatchView>,
        k: int,
        later_elapsed: nat,
        later_snapshot: SnapshotView,
    )
        requires
            self.wf(),
            answers(dispatches, self.firings(elapsed, snapshot)),
            0 <= k < dispatches.len(),
            dispatches[k].outcome.request() == Some(EventView::Cancel),
        ensures
            !self.advanced(elapsed).settled_all(dispatches).contains(dispatches[k].id),
            forall|j: int|
                0 <= j < self.advanced(elapsed).settled_all(dispatches).firings(
                    later_elapsed,
                    later_snapshot,
                ).len() ==> (#[trigger] self.advanced(elapsed).settled_all(dispatches).firings(
                    later_elapsed,
                    later_snapshot,
                )[j]).id != dispatches[k].id,
    {
        let id = dispatches[k].id;
        let after = self.advanced(elapsed).settled_all(dispatches);
        self.law_tick_is_entrywise(elapsed, snapshot, dispatches);
        self.lemma_answers_distinct(elapsed, snapshot, dispatches);
        Self::lemma_request_for(dispatches, k);
        self.lemma_firing_entry(elapsed, snapshot, k);
        assert(after.get(id) is None);
        after.law_fires_iff_due(later_elapsed, later_snapshot, id);
    }

    /// An entry whose handler asked for another event is, when the tick is
    /// over, still in its place under its identifier and with its handler,
    /// and is armed as a fresh registration of that event would be.
    pub proof fn law_override_takes_effect(
        self,
        elapsed: nat,
        snapshot: SnapshotView,
        dispatches: Seq<DispatchView>,
        k: int,
        event: EventView,
    )
        requires
            self.wf(),
            answers(dispatches, self.firings(elapsed, snapshot)),
            0 <= k < dispatches.len(),
            dispatches[k].outcome.request() == Some(event),
            !(event is Cancel),
        ensures
            self.get(dispatches[k].id) is Some,
            self.advanced(elapsed).settled_all(dispatches).get(dispatches[k].id) matches Some(
                entry,
            ) && entry.id == dispatches[k].id && entry.handler == self.get(
                dispatches[k].id,
            ).unwrap().handler && same_schedule(
                entry,
                EntryView::armed(entry.id, event, entry.handler),
            ),
    {
        self.law_tick_is_entrywise(elapsed, snapshot, dispatches);
        self.lemma_answers_distinct(elapsed, snapshot, dispatches);
        Self::lemma_request_for(dispatches, k);
        self.lemma_firing_entry(elapsed, snapshot, k);
        let i = self.position(dispatches[k].id);
        assert(self.holds_at(dispatches[k].id, i));
    }

    /// A global entry that waits for a kind of transition is called once in
    /// a tick that brings such transitions, however many tracks made them,
    /// and its context holds every one of them in the order of the
    /// snapshot. Where all transitions of the tick are of that kind, the
    /// context is the whole list.
    pub proof fn law_global_transitions_batch(
        self,
        elapsed: nat,
        snapshot: SnapshotView,
        id: EntryId,
        kind: crate::track::TrackEvent,
    )
        requires
            self.wf(),
            self.scope is Global,
            self.get(id) matches Some(entry) && entry.event == EventView::Track(kind),
            exists|j: int| 0 <= j < snapshot.changes.len() && kind.occurs_in(snapshot.changes[j]),
        ensures
            exists|k: int|
                0 <= k < self.firings(elapsed, snapshot).len() && #[trigger] self.firings(
                    elapsed,
                    snapshot,
                )[k] == (FiringView {
                    id,
                    context: EventContextView::TrackTransition(
                        snapshot.hits(Scope::Global, kind),
                    ),
                }) && forall|other: int|
                    0 <= other < self.firings(elapsed, snapshot).len() && other != k ==> (
                    #[trigger] self.firings(elapsed, snapshot)[other]).id != id,
            forall|j: int|
                0 <= j < snapshot.changes.len() && kind.occurs_in(snapshot.changes[j])
                    ==> snapshot.hits(Scope::Global, kind).contains(#[trigger] snapshot.changes[j]),
            (forall|j: int|
                0 <= j < snapshot.changes.len() ==> kind.occurs_in(#[trigger] snapshot.changes[j]))
                ==> snapshot.hits(Scope::Global, kind) == snapshot.changes,
    {
        let hit = |change: crate::track::TrackChange|
            Scope::Global.sees(change) && kind.occurs_in(change);
        let firings = self.firings(elapsed, snapshot);
        let j = choose|j: int| 0 <= j < snapshot.changes.len() && kind.occurs_in(snapshot.changes[j]);
        snapshot.changes.lemma_filter_contains(hit, j);
        assert(snapshot.hits(Scope::Global, kind).len() > 0);
        self.law_fires_iff_due(elapsed, snapshot, id);
        self.law_firings_in_order(elapsed, snapshot);
        let k = choose|k: int| 0 <= k < firings.len() && #[trigger] firings[k].id == id;
        self.lemma_firing_entry(elapsed, snapshot, k);
        assert forall|other: int| 0 <= other < firings.len() && other != k implies (
        #[trigger] firings[other]).id != id by {
            if other < k {
                assert(firings[other].id < firings[k].id);
            } else {
                assert(firings[k].id < firings[other].id);
            }
        }
        assert forall|j: int|
            0 <= j < snapshot.changes.len() && kind.occurs_in(snapshot.changes[j]) implies snapshot.hits(
            Scope::Global,
            kind,
        ).contains(#[trigger] snapshot.changes[j]) by {
            snapshot.changes.lemma_filter_contains(hit, j);
        }
        if forall|j: int|
            0 <= j < snapshot.changes.len() ==> kind.occurs_in(#[trigger] snapshot.changes[j]) {
            lemma_filter_keeps_all(snapshot.changes, hit);
        }
    }

    /// A global entry whose timer ran out is called once in the tick, and
    /// its context holds every track of the snapshot.
    pub proof fn law_global_timers_batch(self, elapsed: nat, snapshot: SnapshotView, id: EntryId)
        requires
            self.wf(),
            self.scope is Global,
            self.get(id) matches Some(entry) && entry.event.is_timed() && entry.remaining
                <= elapsed,
        ensures
            exists|k: int|
                0 <= k < self.firings(elapsed, snapshot).len() && #[trigger] self.firings(
                    elapsed,
                    snapshot,
                )[k] == (FiringView { id, context: EventContextView::Timed(snapshot.tracks) })
                    && forall|other: int|
                    0 <= other < self.firings(elapsed, snapshot).len() && other != k ==> (
                    #[trigger] self.firings(elapsed, snapshot)[other]).id != id,
    {
        let firings = self.firings(elapsed, snapshot);
        self.law_fires_iff_due(elapsed, snapshot, id);
        self.law_firings_in_order(elapsed, snapshot);
        let k = choose|k: int| 0 <= k < firings.len() && #[trigger] firings[k].id == id;
        self.lemma_firing_entry(elapsed, snapshot, k);
        assert forall|other: int| 0 <= other < firings.len() && other != k implies (
        #[trigger] firings[other]).id != id by {
            if other < k {
                assert(firings[other].id < firings[k].id);
            } else {
                assert(firings[k].id < firings[other].id);
            }
        }
    }
}

/// Picking by a test that every item passes keeps the whole list.
proof fn lemma_filter_keeps_all<A>(items: Seq<A>, keep: spec_fn(A) -> bool)
    requires
        forall|i: int| 0 <= i < items.len() ==> keep(#[trigger] items[i]),
    ensures
        items.filter(keep) == items,
    decreases items.len(),
{
    reveal(Seq::filter);
    if items.len() > 0 {
        lemma_filter_keeps_all(items.drop_last(), keep);
        assert(items.drop_last().push(items.last()) == items);
    }
}

/// One tick as one entry meets it: the time that passed, what the owner
/// observed, and what the entry's handler returns if it is called.
pub struct TickView {
    pub elapsed: nat,
    pub snapshot: SnapshotView,
    pub request: Option<EventView>,
}

/// The time that passes in all of `ticks`.
pub open spec fn total(ticks: Seq<TickView>) -> nat
    decreases ticks.len(),
{
    if ticks.len() == 0 {
        0
    } else {
        total(ticks.drop_last()) + ticks.last().elapsed
    }
}

/// Whether the handler returns `None` in every one of `ticks`.
pub open spec fn unanswered(ticks: Seq<TickView>) -> bool {
    forall|k: int| 0 <= k < ticks.len() ==> (#[trigger] ticks[k]).request is None
}

/// Whether two entries have the same event and the same wait.
pub open spec fn same_schedule<H, G>(a: EntryView<H>, b: EntryView<G>) -> bool {
    a.event == b.event && a.remaining == b.remaining
}

impl<H> EntryView<H> {
    /// The entry after all of `ticks`, or `None` once it has been removed.
    pub open spec fn after(self, scope: Scope, ticks: Seq<TickView>) -> Option<Self>
        decreases ticks.len(),
    {
        if ticks.len() == 0 {
            Some(self)
        } else {
            match self.after(scope, ticks.drop_last()) {
                Some(entry) => entry.ticked(
                    scope,
                    ticks.last().elapsed,
                    ticks.last().snapshot,
                    ticks.last().request,
                ),
                None => None,
            }
        }
    }

    /// Whether the entry fires in the last of `ticks`.
    pub open spec fn fires_last(self, scope: Scope, ticks: Seq<TickView>) -> bool {
        ticks.len() > 0 && match self.after(scope, ticks.drop_last()) {
            Some(entry) => entry.due(scope, ticks.last().elapsed, ticks.last().snapshot),
            None => false,
        }
    }

    /// How often the entry fires in all of `ticks`.
    pub open spec fn firings(self, scope: Scope, ticks: Seq<TickView>) -> nat
        decreases ticks.len(),
    {
        if ticks.len() == 0 {
            0
        } else {
            self.firings(scope, ticks.drop_last()) + if self.fires_last(scope, ticks) {
                1nat
            } else {
                0nat
            }
        }
    }

    /// Whether no tick runs past the moment at which the entry is due:
    /// each tick ends before that moment or exactly on it.
    pub open spec fn on_time(self, scope: Scope, ticks: Seq<TickView>) -> bool {
        forall|k: int|
            0 <= k < ticks.len() ==> match #[trigger] self.after(scope, ticks.take(k)) {
                Some(entry) => ticks[k].elapsed <= entry.remaining,
                None => true,
            }
    }

    /// A periodic entry whose handler never asks for anything stays in its
    /// registry for ever. It first fires when the wait it was armed with
    /// has passed, and after each firing it waits one period: where the
    /// ticks end on the moments at which the entry is due, the firing
    /// number `n` falls on the instant `wait + (n - 1) * period`. Where a
    /// tick runs past such a moment, the entry fires once in that tick and
    /// its next period starts at the end of the tick, so no two firings are
    /// ever closer than one period.
    pub proof fn law_periodic_spacing(self, scope: Scope, ticks: Seq<TickView>)
        requires
            self.event is Periodic,
            unanswered(ticks),
        ensures
            self.after(scope, ticks) matches Some(entry) && entry.event == self.event && total(
                ticks,
            ) + entry.remaining >= self.remaining + self.firings(scope, ticks)
                * self.event->period && (self.on_time(scope, ticks) ==> total(ticks)
                + entry.remaining == self.remaining + self.firings(scope, ticks)
                * self.event->period) && (self.fires_last(scope, ticks) ==> entry.remaining
                == self.event->period),
        decreases ticks.len(),
    {
        let period = self.event->period;
        if ticks.len() == 0 {
            assert(self.firings(scope, ticks) * period == 0) by (nonlinear_arith)
                requires
                    self.firings(scope, ticks) == 0,
            ;
        } else {
            let rest = ticks.drop_last();
            let last = ticks.last();
            let count = self.firings(scope, rest);
            assert(unanswered(rest));
            self.law_periodic_spacing(scope, rest);
            assert(ticks[ticks.len() - 1].request is None);
            let before = self.after(scope, rest).unwrap();
            if self.fires_last(scope, ticks) {
                assert(self.firings(scope, ticks) * period == count * period + period)
                    by (nonlinear_arith)
                    requires
                        self.firings(scope, ticks) == count + 1,
                ;
            } else {
                assert(self.firings(scope, ticks) == count);
            }
            if self.on_time(scope, ticks) {
                assert(self.on_time(scope, rest)) by {
                    assert forall|k: int| 0 <= k < rest.len() implies match #[trigger] self.after(
                        scope,
                        rest.take(k),
                    ) {
                        Some(entry) => rest[k].elapsed <= entry.remaining,
                        None => true,
                    } by {
                        assert(rest.take(k) == ticks.take(k));
                    }
                }
                assert(ticks.take(ticks.len() - 1) == rest);
                assert(last.elapsed <= before.remaining);
            }
        }
    }

    /// A delayed entry whose handler asks for nothing fires exactly once:
    /// in the first tick at whose end the time passed has reached the
    /// delay. It is removed in that tick and absent ever after.
    pub proof fn law_delayed_fires_once(self, scope: Scope, ticks: Seq<TickView>)
        requires
            self.event is Delayed,
            unanswered(ticks),
        ensures
            self.after(scope, ticks) is Some <==> ticks.len() == 0 || total(ticks)
                < self.remaining,
            self.after(scope, ticks) matches Some(entry) ==> entry.event == self.event
                && entry.remaining == self.remaining - total(ticks),
            self.firings(scope, ticks) == if ticks.len() > 0 && total(ticks) >= self.remaining {
                1nat
            } else {
                0nat
            },
            self.fires_last(scope, ticks) <==> ticks.len() > 0 && total(ticks) >= self.remaining
                && (ticks.len() == 1 || total(ticks.drop_last()) < self.remaining),
        decreases ticks.len(),
    {
        if ticks.len() > 0 {
            let rest = ticks.drop_last();
            assert(unanswered(rest));
            self.law_delayed_fires_once(scope, rest);
            assert(ticks[ticks.len() - 1].request is None);
            if rest.len() == 0 {
                assert(total(rest) == 0);
            }
        }
    }

    /// A core event on the registry of a track never fires, whatever the
    /// ticks bring, and its entry stays as it was registered.
    pub proof fn law_core_is_inert_on_a_track(self, track: crate::track::TrackId, ticks: Seq<TickView>)
        requires
            self.event is Core,
        ensures
            self.after(Scope::Local(track), ticks) == Some(self),
            self.firings(Scope::Local(track), ticks) == 0,
            !self.fires_last(Scope::Local(track), ticks),
        decreases ticks.len(),
    {
        if ticks.len() > 0 {
            self.law_core_is_inert_on_a_track(track, ticks.drop_last());
        }
    }

    /// A request to cancel removes the entry, whatever its event.
    pub proof fn law_cancel_removes_entry(self)
        ensures
            self.settled(Some(EventView::Cancel)) is None,
    {
    }

    /// An entry whose handler asked for another event keeps its
    /// identifier and its handler and is from then on scheduled as a fresh
    /// registration of that event would be: it has the same event and the
    /// same wait.
    pub proof fn law_override_arms_anew<G>(self, event: EventView, id: EntryId, handler: G)
        requires
            !(event is Cancel),
        ensures
            self.settled(Some(event)) matches Some(entry) && entry.id == self.id && entry.handler
                == self.handler && same_schedule(entry, EntryView::armed(id, event, handler)),
    {
    }

    /// Two entries with the same event and the same wait fire in the same
    /// ticks and with the same contexts, for as long as their handlers
    /// return the same.
    pub proof fn law_same_schedule_same_firings<G>(
        self,
        twin: EntryView<G>,
        scope: Scope,
        ticks: Seq<TickView>,
    )
        requires
            same_schedule(self, twin),
        ensures
            match (self.after(scope, ticks), twin.after(scope, ticks)) {
                (Some(a), Some(b)) => same_schedule(a, b),
                (None, None) => true,
                _ => false,
            },
            self.fires_last(scope, ticks) == twin.fires_last(scope, ticks),
            self.firings(scope, ticks) == twin.firings(scope, ticks),
            self.fires_last(scope, ticks) ==> self.after(scope, ticks.drop_last()).unwrap().context(
                scope,
                ticks.last().snapshot,
            ) == twin.after(scope, ticks.drop_last()).unwrap().context(
                scope,
                ticks.last().snapshot,
            ),
        decreases ticks.len(),
    {
        if ticks.len() > 0 {
            self.law_same_schedule_same_firings(twin, scope, ticks.drop_last());
        }
    }
}

/// One tick as a registry meets it: the time that passed, what the owner
/// observed, and how the handler calls of the tick ended.
pub struct RoundView {
    pub elapsed: nat,
    pub snapshot: SnapshotView,
    pub dispatches: Seq<DispatchView>,
}

impl RoundView {
    /// The tick as the entry `id` meets it.
    pub open spec fn seen_by(self, id: EntryId) -> TickView {
        TickView {
            elapsed: self.elapsed,
            snapshot: self.snapshot,
            request: request_for(self.dispatches, id),
        }
    }
}

/// The ticks of `rounds` as the entry `id` meets them.
pub open spec fn seen_by(rounds: Seq<RoundView>, id: EntryId) -> Seq<TickView> {
    rounds.map_values(|round: RoundView| round.seen_by(id))
}

impl<H> StoreView<H> {
    /// The registry after one whole tick.
    pub open spec fn ticked(self, round: RoundView) -> Self {
        self.advanced(round.elapsed).settled_all(round.dispatches)
    }

    /// The registry after all of `rounds`.
    pub open spec fn ran(self, rounds: Seq<RoundView>) -> Self
        decreases rounds.len(),
    {
        if rounds.len() == 0 {
            self
        } else {
            self.ran(rounds.drop_last()).ticked(rounds.last())
        }
    }

    /// Whether every tick of `rounds` holds the outcomes of exactly the
    /// handler calls that the registry makes in that tick.
    pub open spec fn faithful(self, rounds: Seq<RoundView>) -> bool
        decreases rounds.len(),
    {
        rounds.len() > 0 ==> self.faithful(rounds.drop_last()) && answers(
            rounds.last().dispatches,
            self.ran(rounds.drop_last()).firings(rounds.last().elapsed, rounds.last().snapshot),
        )
    }

    /// Through any number of ticks every entry of a registry fares as it
    /// would alone: what the registry holds under an identifier in the end
    /// is what the entry's own rule makes of the entry over those ticks,
    /// and the handler of an entry is called in the last tick exactly if
    /// the entry's own rule has it fire there.
    pub proof fn law_run_is_entrywise(self, rounds: Seq<RoundView>, id: EntryId)
        requires
            self.wf(),
            self.faithful(rounds),
        ensures
            self.ran(rounds).wf(),
            self.ran(rounds).scope == self.scope,
            self.ran(rounds).next_id == self.next_id,
            self.ran(rounds).get(id) == match self.get(id) {
                Some(entry) => entry.after(self.scope, seen_by(rounds, id)),
                None => None,
            },
            rounds.len() > 0 ==> (names(rounds.last().dispatches, id) <==> (self.get(id) matches Some(
                entry,
            ) && entry.fires_last(self.scope, seen_by(rounds, id)))),
        decreases rounds.len(),
    {
        if rounds.len() > 0 {
            let rest = rounds.drop_last();
            let last = rounds.last();
            let before = self.ran(rest);
            self.law_run_is_entrywise(rest, id);
            before.law_tick_is_entrywise(last.elapsed, last.snapshot, last.dispatches);
            before.law_fires_iff_due(last.elapsed, last.snapshot, id);
            assert(seen_by(rounds, id).drop_last() == seen_by(rest, id));
            assert(seen_by(rounds, id).last() == last.seen_by(id));
            let firings = before.firings(last.elapsed, last.snapshot);
            if names(last.dispatches, id) {
                let k = choose|k: int|
                    0 <= k < last.dispatches.len() && #[trigger] last.dispatches[k].id == id;
                assert(firings[k].id == id);
            }
            if exists|k: int| 0 <= k < firings.len() && #[trigger] firings[k].id == id {
                let k = choose|k: int| 0 <= k < firings.len() && #[trigger] firings[k].id == id;
                assert(last.dispatches[k].id == id);
            }
        }
    }

    /// The handler of a core event registered on a track is never called,
    /// whatever the ticks bring, and its entry stays as it was registered.
    pub proof fn law_local_core_never_fires(self, rounds: Seq<RoundView>, id: EntryId, k: int)
        requires
            self.wf(),
            self.scope is Local,
            self.faithful(rounds),
            self.get(id) matches Some(entry) && entry.event is Core,
            0 <= k < rounds.len(),
        ensures
            !names(rounds[k].dispatches, id),
            self.ran(rounds).get(id) == self.get(id),
        decreases rounds.len(),
    {
        let entry = self.get(id).unwrap();
        let track = self.scope->Local_0;
        self.law_run_is_entrywise(rounds, id);
        entry.law_core_is_inert_on_a_track(track, seen_by(rounds, id));
        if k < rounds.len() - 1 {
            self.law_local_core_never_fires(rounds.drop_last(), id, k);
        }
    }
}

} // verus!
