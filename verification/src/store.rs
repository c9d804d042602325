//! The registry: entries in the order of their registration, advanced and
//! settled once per tick.

use crate::context::{
    dispatch_views, firing_views, request_view, Dispatch, DispatchView, EntryId, Firing, Outcome,
    Scope, Snapshot,
};
use crate::data::EventData;
use crate::event::{Event, EventHandler};
use crate::time::nanos;
use crate::model::{answers, faults, EntryView, StoreView};
use crate::track::TrackId;
use std::time::Duration;
use vstd::prelude::*;

verus! {

/// Holds the entries of one driver or of one track.
///
/// Entries are kept in the order in which they were registered, which is
/// also the order of their identifiers and the order in which their
/// handlers are called.
pub struct EventStore<H> {
    scope: Scope,
    entries: Vec<EventData<H>>,
    next_id: u64,
}

impl<H> View for EventStore<H> {
    type V = StoreView<H>;

    closed spec fn view(&self) -> StoreView<H> {
        StoreView {
            scope: self.scope,
            entries: self.entries@.map_values(|entry: EventData<H>| entry@),
            next_id: self.next_id as nat,
        }
    }
}

impl<H> EventStore<H> {
    /// An empty registry for the whole driver.
    pub fn new() -> (store: Self)
        ensures
            store@ == StoreView::<H>::empty(Scope::Global),
            store@.wf(),
    {
        let store = EventStore { scope: Scope::Global, entries: Vec::new(), next_id: 0 };
        assert(store@.entries =~= Seq::empty());
        store
    }

    /// An empty registry for the track `track`.
    pub fn new_local(track: TrackId) -> (store: Self)
        ensures
            store@ == StoreView::<H>::empty(Scope::Local(track)),
            store@.wf(),
    {
        let store = EventStore { scope: Scope::Local(track), entries: Vec::new(), next_id: 0 };
        assert(store@.entries =~= Seq::empty());
        store
    }

    /// Whose events the registry schedules.
    pub fn scope(&self) -> (scope: Scope)
        ensures
            scope == self@.scope,
    {
        self.scope
    }

    /// The number of entries.
    pub fn len(&self) -> (len: usize)
        ensures
            len == self@.entries.len(),
    {
        self.entries.len()
    }

    /// Whether the registry holds no entry.
    pub fn is_empty(&self) -> (empty: bool)
        ensures
            empty == (self@.entries.len() == 0),
    {
        self.entries.len() == 0
    }

    /// The number of identifiers issued so far.
    pub fn issued(&self) -> (issued: u64)
        ensures
            issued == self@.next_id,
    {
        self.next_id
    }

    /// The index of the entry `id` among the entries, if it is present.
    pub fn position_of(&self, id: EntryId) -> (found: Option<usize>)
        requires
            self@.wf(),
        ensures
            match found {
                Some(i) => self@.holds_at(id, i as int),
                None => !self@.contains(id),
            },
    {
        let mut lo: usize = 0;
        let mut hi: usize = self.entries.len();
        while lo < hi
            invariant
                0 <= lo <= hi <= self.entries@.len(),
                self@.wf(),
                forall|i: int| 0 <= i < lo ==> self@.entries[i].id < id,
                forall|i: int| hi <= i < self.entries@.len() ==> self@.entries[i].id > id,
            decreases hi - lo,
        {
            let mid = lo + (hi - lo) / 2;
            let at = self.entries[mid].id();
            if at == id {
                return Some(mid);
            } else if at < id {
                lo = mid + 1;
            } else {
                hi = mid;
            }
        }
        None
    }

    /// Whether an entry with the identifier `id` is present.
    pub fn contains(&self, id: EntryId) -> (present: bool)
        requires
            self@.wf(),
        ensures
            present == self@.contains(id),
    {
        self.position_of(id).is_some()
    }

    /// The entry with the identifier `id`, if it is present.
    pub fn get(&self, id: EntryId) -> (found: Option<&EventData<H>>)
        requires
            self@.wf(),
        ensures
            match found {
                Some(entry) => self@.get(id) == Some(entry@),
                None => self@.get(id) is None,
            },
    {
        match self.position_of(id) {
            Some(i) => {
                proof {
                    self@.lemma_position(id, i as int);
                }
                Some(&self.entries[i])
            },
            None => None,
        }
    }

    /// Registers `event` with `handler` and returns the identifier of the
    /// registration. Every event is accepted. A core event on a local
    /// registry is stored and never fires; the cancellation sentinel is
    /// given an identifier and not stored.
    pub fn register(&mut self, event: Event, handler: H) -> (id: EntryId)
        requires
            old(self)@.wf(),
            old(self)@.next_id < u64::MAX,
        ensures
            id == old(self)@.next_id,
            final(self)@ == old(self)@.registered(event@, handler),
            final(self)@.wf(),
    {
        let id = self.next_id;
        self.next_id = id + 1;
        if !event.is_cancel() {
            self.entries.push(EventData::arm(id, event, handler));
        }
        proof {
            assert(self@.entries =~= old(self)@.registered(event@, handler).entries);
        }
        id
    }

    /// Removes the entry `id`. Returns whether there was such an entry.
    pub fn cancel(&mut self, id: EntryId) -> (existed: bool)
        requires
            old(self)@.wf(),
        ensures
            existed == old(self)@.contains(id),
            final(self)@ == old(self)@.cancelled(id),
            final(self)@.wf(),
    {
        match self.position_of(id) {
            Some(i) => {
                proof {
                    self@.lemma_position(id, i as int);
                }
                self.entries.remove(i);
                proof {
                    assert(self@.entries =~= old(self)@.entries.remove(i as int));
                }
                true
            },
            None => false,
        }
    }

    /// The first part of a tick, on a count of nanoseconds: lets `elapsed`
    /// nanoseconds pass for every entry and returns the entries that fire,
    /// in the order of registration, each once and with the context for
    /// its handler. No handler is called and no entry is added or removed.
    pub fn advance_by(&mut self, elapsed: u128, snapshot: &Snapshot) -> (firings: Vec<Firing>)
        requires
            old(self)@.wf(),
        ensures
            final(self)@ == old(self)@.advanced(elapsed as nat),
            firing_views(firings@) == old(self)@.firings(elapsed as nat, snapshot@),
            final(self)@.wf(),
    {
        let scope = self.scope;
        let ghost due = |entry: EntryView<H>| entry.due(scope, elapsed as nat, snapshot@);
        let ghost firing = |entry: EntryView<H>| entry.firing(scope, snapshot@);
        let mut firings: Vec<Firing> = Vec::new();
        let n = self.entries.len();
        let mut i: usize = 0;
        proof {
            reveal(Seq::filter);
            assert(old(self)@.entries.take(0).filter(due).map_values(firing) =~= firing_views(
                firings@,
            ));
        }
        while i < n
            invariant
                0 <= i <= n,
                n == self.entries@.len(),
                n == old(self)@.entries.len(),
                self.scope == scope,
                scope == old(self)@.scope,
                self.next_id == old(self)@.next_id,
                due == |entry: EntryView<H>| entry.due(scope, elapsed as nat, snapshot@),
                firing == |entry: EntryView<H>| entry.firing(scope, snapshot@),
                forall|k: int|
                    0 <= k < i ==> (#[trigger] self.entries@[k])@ == old(self)@.entries[k].advanced(
                        elapsed as nat,
                    ),
                forall|k: int| i <= k < n ==> (#[trigger] self.entries@[k])@ == old(self)@.entries[k],
                firing_views(firings@) == old(self)@.entries.take(i as int).filter(due).map_values(
                    firing,
                ),
            decreases n - i,
        {
            let ghost before = old(self)@.entries[i as int];
            let ghost fired = firing_views(firings@);
            let id = self.entries[i].id();
            let polled = self.entries[i].poll(scope, elapsed, snapshot);
            proof {
                reveal(Seq::filter);
                assert(old(self)@.entries.take(i + 1).drop_last() == old(self)@.entries.take(
                    i as int,
                ));
                assert(old(self)@.entries.take(i + 1).last() == before);
            }
            match polled {
                Some(context) => {
                    firings.push(Firing { id, context });
                    proof {
                        assert(firing_views(firings@) =~= fired.push(before.firing(scope, snapshot@)));
                        assert(old(self)@.entries.take(i + 1).filter(due).map_values(firing)
                            =~= fired.push(before.firing(scope, snapshot@)));
                    }
                },
                None => {},
            }
            i = i + 1;
        }
        proof {
            assert(old(self)@.entries.take(n as int) == old(self)@.entries);
            assert(self@.entries =~= old(self)@.advanced(elapsed as nat).entries);
        }
        firings
    }

    /// The first part of a tick: lets `elapsed` pass for every entry and
    /// returns the entries that fire, in the order of registration, each
    /// once and with the context for its handler.
    pub fn advance(&mut self, elapsed: Duration, snapshot: &Snapshot) -> (firings: Vec<Firing>)
        requires
            old(self)@.wf(),
        ensures
            final(self)@ == old(self)@.advanced(nanos(elapsed)),
            firing_views(firings@) == old(self)@.firings(nanos(elapsed), snapshot@),
            final(self)@.wf(),
    {
        self.advance_by(elapsed.as_nanos(), snapshot)
    }

    /// Applies what the handler of entry `id` asked for after a firing:
    /// the entry is armed again, given another event, or removed. No other
    /// entry changes. Returns whether there was such an entry.
    pub fn settle(&mut self, id: EntryId, request: Option<Event>) -> (existed: bool)
        requires
            old(self)@.wf(),
        ensures
            existed == old(self)@.contains(id),
            final(self)@ == old(self)@.settled(id, request_view(request)),
            final(self)@.wf(),
    {
        match self.position_of(id) {
            Some(i) => {
                proof {
                    self@.lemma_position(id, i as int);
                }
                let keep = self.entries[i].settle(request);
                if !keep {
                    self.entries.remove(i);
                }
                proof {
                    assert(self@.entries =~= old(self)@.settled(id, request_view(request)).entries);
                }
                true
            },
            None => false,
        }
    }

    /// The last part of a tick: applies every outcome in `dispatches`, one
    /// after the other, each to the entry it names. A handler that failed
    /// leaves its entry to the rule of the entry's event, as if it had
    /// returned `None`, and the entry is reported. Returns the entries
    /// whose handler failed, in the order of `dispatches`.
    pub fn finish_tick(&mut self, dispatches: &Vec<Dispatch>) -> (faulted: Vec<EntryId>)
        requires
            old(self)@.wf(),
        ensures
            final(self)@ == old(self)@.settled_all(dispatch_views(dispatches@)),
            faulted@ == faults(dispatch_views(dispatches@)),
            final(self)@.wf(),
    {
        let ghost all = dispatch_views(dispatches@);
        let ghost failed = |dispatch: DispatchView| dispatch.outcome is Faulted;
        let ghost named = |dispatch: DispatchView| dispatch.id;
        let mut faulted: Vec<EntryId> = Vec::new();
        let n = dispatches.len();
        let mut k: usize = 0;
        proof {
            reveal(Seq::filter);
            assert(all.take(0).filter(failed).map_values(named) =~= faulted@);
        }
        while k < n
            invariant
                0 <= k <= n,
                n == dispatches@.len(),
                all == dispatch_views(dispatches@),
                failed == |dispatch: DispatchView| dispatch.outcome is Faulted,
                named == |dispatch: DispatchView| dispatch.id,
                self@.wf(),
                self@ == old(self)@.settled_all(all.take(k as int)),
                faulted@ == all.take(k as int).filter(failed).map_values(named),
            decreases n - k,
        {
            let dispatch = dispatches[k];
            let ghost reported = faulted@;
            proof {
                reveal(Seq::filter);
                assert(all.take(k + 1).drop_last() == all.take(k as int));
                assert(all.take(k + 1).last() == dispatch@);
            }
            match dispatch.outcome {
                Outcome::Returned(request) => {
                    self.settle(dispatch.id, request);
                },
                Outcome::Faulted => {
                    self.settle(dispatch.id, None);
                    faulted.push(dispatch.id);
                    proof {
                        assert(all.take(k + 1).filter(failed).map_values(named) =~= reported.push(
                            dispatch.id,
                        ));
                    }
                },
            }
            k = k + 1;
        }
        proof {
            assert(all.take(n as int) == all);
        }
        faulted
    }
}

impl<H: EventHandler> EventStore<H> {
    /// One whole tick on a count of nanoseconds.
    ///
    /// Lets `elapsed` nanoseconds pass for every entry, then calls the
    /// handler of each entry that fires, in the order of registration and
    /// once per entry, and at last applies what each handler returned to
    /// that handler's own entry. Returns what the handlers returned, in the
    /// order in which they were called.
    pub fn tick_by(&mut self, elapsed: u128, snapshot: &Snapshot) -> (dispatches: Vec<Dispatch>)
        requires
            old(self)@.wf(),
        ensures
            answers(dispatch_views(dispatches@), old(self)@.firings(elapsed as nat, snapshot@)),
            forall|k: int|
                0 <= k < dispatches@.len() ==> (#[trigger] dispatches@[k]).outcome is Returned,
            final(self)@ == old(self)@.advanced(elapsed as nat).settled_all(
                dispatch_views(dispatches@),
            ),
            final(self)@.wf(),
    {
        let firings = self.advance_by(elapsed, snapshot);
        let ghost due = old(self)@.firings(elapsed as nat, snapshot@);
        let mut dispatches: Vec<Dispatch> = Vec::new();
        let m = firings.len();
        let mut k: usize = 0;
        while k < m
            invariant
                0 <= k <= m,
                m == firings@.len(),
                old(self)@.wf(),
                self@ == old(self)@.advanced(elapsed as nat),
                self@.wf(),
                due == old(self)@.firings(elapsed as nat, snapshot@),
                firing_views(firings@) == due,
                dispatches@.len() == k,
                forall|j: int|
                    0 <= j < k ==> (#[trigger] dispatch_views(dispatches@)[j]).id == due[j].id,
                forall|j: int| 0 <= j < k ==> (#[trigger] dispatches@[j]).outcome is Returned,
            decreases m - k,
        {
            let id = firings[k].id;
            let ghost called = dispatch_views(dispatches@);
            proof {
                assert(firing_views(firings@)[k as int] == firings@[k as int]@);
                old(self)@.lemma_firing_entry(elapsed as nat, snapshot@, k as int);
                let i = old(self)@.position(id);
                assert(self@.holds_at(id, i));
                self@.lemma_position(id, i);
            }
            match self.get(id) {
                Some(entry) => {
                    let request = entry.handler().act(&firings[k].context);
                    let dispatch = Dispatch { id, outcome: Outcome::Returned(request) };
                    dispatches.push(dispatch);
                    proof {
                        assert(dispatch_views(dispatches@) =~= called.push(dispatch@));
                    }
                },
                None => {
                    // Every firing names an entry that is present.
                    assert(false);
                },
            }
            k = k + 1;
        }
        self.finish_tick(&dispatches);
        dispatches
    }

    /// One whole tick: what [`EventStore::tick_by`] does, for a duration.
    pub fn tick(&mut self, elapsed: Duration, snapshot: &Snapshot) -> (dispatches: Vec<Dispatch>)
        requires
            old(self)@.wf(),
        ensures
            answers(dispatch_views(dispatches@), old(self)@.firings(nanos(elapsed), snapshot@)),
            forall|k: int|
                0 <= k < dispatches@.len() ==> (#[trigger] dispatches@[k]).outcome is Returned,
            final(self)@ == old(self)@.advanced(nanos(elapsed)).settled_all(
                dispatch_views(dispatches@),
            ),
            final(self)@.wf(),
    {
        self.tick_by(elapsed.as_nanos(), snapshot)
    }
}

} // verus!
