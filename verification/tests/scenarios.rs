use events::{
    CoreEvent, CoreOccurrence, Dispatch, Event, EventContext, EventHandler, EventStore, Outcome,
    Scope, Snapshot, TrackChange, TrackEvent, TrackState,
};
use std::collections::VecDeque;
use std::sync::{Arc, Mutex};
use std::time::Duration;

/// Records the context of every call and answers from a script; once the
/// script is used up it answers `None`.
struct Scripted {
    calls: Arc<Mutex<Vec<EventContext>>>,
    script: Mutex<VecDeque<Option<Event>>>,
}

impl EventHandler for Scripted {
    fn act(&self, ctx: &EventContext) -> Option<Event> {
        self.calls.lock().unwrap().push(ctx.clone());
        self.script.lock().unwrap().pop_front().unwrap_or(None)
    }
}

fn handler(script: Vec<Option<Event>>) -> (Scripted, Arc<Mutex<Vec<EventContext>>>) {
    let calls = Arc::new(Mutex::new(Vec::new()));
    (Scripted { calls: calls.clone(), script: Mutex::new(script.into_iter().collect()) }, calls)
}

fn quiet() -> Snapshot {
    Snapshot { tracks: vec![], changes: vec![], core: None }
}

fn changes(list: Vec<TrackChange>) -> Snapshot {
    Snapshot { tracks: vec![], changes: list, core: None }
}

fn ms(n: u64) -> Duration {
    Duration::from_millis(n)
}

fn count(calls: &Arc<Mutex<Vec<EventContext>>>) -> usize {
    calls.lock().unwrap().len()
}

#[test]
fn periodic_twenty_ms_fires_on_each_of_five_ticks() {
    let mut store = EventStore::new();
    let (h, calls) = handler(vec![]);
    let id = store.register(Event::Periodic(ms(20), None), h);
    for tick in 1..=5usize {
        let dispatches = store.tick(ms(20), &quiet());
        assert_eq!(dispatches, vec![Dispatch { id, outcome: Outcome::Returned(None) }]);
        assert_eq!(count(&calls), tick);
        assert!(store.contains(id));
        let entry = store.get(id).unwrap();
        assert_eq!(entry.event(), Event::Periodic(ms(20), None));
        assert_eq!(entry.remaining(), 20_000_000);
        assert_eq!(entry.fire_count(), tick as u64);
    }
}

#[test]
fn delayed_fifty_ms_fires_on_second_thirty_ms_tick() {
    let mut store = EventStore::new();
    let (h, calls) = handler(vec![]);
    let id = store.register(Event::Delayed(ms(50)), h);
    assert_eq!(store.get(id).unwrap().remaining(), 50_000_000);

    let first = store.tick(ms(30), &quiet());
    assert!(first.is_empty());
    assert_eq!(count(&calls), 0);
    assert_eq!(store.get(id).unwrap().remaining(), 20_000_000);

    let second = store.tick(ms(30), &quiet());
    assert_eq!(second, vec![Dispatch { id, outcome: Outcome::Returned(None) }]);
    assert_eq!(count(&calls), 1);
    assert!(!store.contains(id));
    assert!(store.is_empty());

    let third = store.tick(ms(30), &quiet());
    assert!(third.is_empty());
    assert_eq!(count(&calls), 1);
}

#[test]
fn local_track_ended_cancels_itself_on_first_fire() {
    let track = 7;
    let mut store = EventStore::new_local(track);
    let (h, calls) = handler(vec![Some(Event::Cancel)]);
    let id = store.register(Event::Track(TrackEvent::Ended), h);
    let ended = TrackChange { track, from: TrackState::Playing, to: TrackState::Ended };

    let first = store.tick(ms(20), &changes(vec![ended]));
    assert_eq!(first, vec![Dispatch { id, outcome: Outcome::Returned(Some(Event::Cancel)) }]);
    assert_eq!(
        calls.lock().unwrap().clone(),
        vec![EventContext::TrackTransition(vec![ended])]
    );
    assert!(!store.contains(id));

    let second = store.tick(ms(20), &changes(vec![ended]));
    assert!(second.is_empty());
    assert_eq!(count(&calls), 1);
}

#[test]
fn periodic_with_phase_fires_first_after_the_phase_then_every_period() {
    let mut store = EventStore::new();
    let (h, calls) = handler(vec![]);
    let id = store.register(Event::Periodic(ms(20), Some(ms(5))), h);
    assert_eq!(store.get(id).unwrap().remaining(), 5_000_000);
    let mut fired_at = Vec::new();
    for tick in 1..=10u64 {
        let before = count(&calls);
        store.tick(ms(5), &quiet());
        if count(&calls) > before {
            fired_at.push(tick * 5);
        }
    }
    assert_eq!(fired_at, vec![5, 25, 45]);
}

#[test]
fn periodic_fires_once_in_a_tick_that_spans_several_periods() {
    let mut store = EventStore::new();
    let (h, calls) = handler(vec![]);
    let id = store.register(Event::Periodic(ms(20), None), h);
    let dispatches = store.tick(ms(1000), &quiet());
    assert_eq!(dispatches.len(), 1);
    assert_eq!(count(&calls), 1);
    // The lost periods are skipped: the next wait is one whole period.
    assert_eq!(store.get(id).unwrap().remaining(), 20_000_000);
    store.tick(ms(19), &quiet());
    assert_eq!(count(&calls), 1);
    store.tick(ms(1), &quiet());
    assert_eq!(count(&calls), 2);
}

#[test]
fn zero_waits_fire_in_a_tick_of_no_time() {
    let mut store = EventStore::new();
    let (h1, calls1) = handler(vec![]);
    let (h2, calls2) = handler(vec![]);
    let periodic = store.register(Event::Periodic(ms(0), None), h1);
    let delayed = store.register(Event::Delayed(ms(0)), h2);
    let dispatches = store.tick(ms(0), &quiet());
    assert_eq!(dispatches.len(), 2);
    assert_eq!(dispatches[0].id, periodic);
    assert_eq!(dispatches[1].id, delayed);
    assert_eq!((count(&calls1), count(&calls2)), (1, 1));
    assert!(store.contains(periodic));
    assert!(!store.contains(delayed));
}

#[test]
fn a_paused_track_lets_no_time_pass() {
    let mut store = EventStore::new_local(1);
    let (h, calls) = handler(vec![]);
    let id = store.register(Event::Delayed(ms(10)), h);
    for _ in 0..5 {
        store.tick(ms(0), &quiet());
    }
    assert_eq!(count(&calls), 0);
    assert_eq!(store.get(id).unwrap().remaining(), 10_000_000);
    store.tick(ms(10), &quiet());
    assert_eq!(count(&calls), 1);
}

#[test]
fn cancel_request_removes_an_entry_of_any_kind() {
    let events = vec![
        Event::Periodic(ms(20), None),
        Event::Delayed(ms(20)),
        Event::Track(TrackEvent::Paused),
        Event::Core(CoreEvent::DriverConnect),
    ];
    for event in events {
        let mut store = EventStore::new();
        let (h, calls) = handler(vec![Some(Event::Cancel)]);
        let id = store.register(event, h);
        let snapshot = Snapshot {
            tracks: vec![1],
            changes: vec![TrackChange { track: 1, from: TrackState::Playing, to: TrackState::Paused }],
            core: Some(CoreOccurrence { kind: CoreEvent::DriverConnect, payload: vec![] }),
        };
        let dispatches = store.tick(ms(20), &snapshot);
        assert_eq!(dispatches, vec![Dispatch { id, outcome: Outcome::Returned(Some(Event::Cancel)) }]);
        assert!(!store.contains(id));
        let again = store.tick(ms(20), &snapshot);
        assert!(again.is_empty());
        assert_eq!(count(&calls), 1);
    }
}

#[test]
fn track_entry_overridden_to_delayed_waits_for_the_delay() {
    let mut store = EventStore::new();
    let (h, calls) = handler(vec![Some(Event::Delayed(ms(50)))]);
    let id = store.register(Event::Track(TrackEvent::Looped), h);
    let looped = TrackChange { track: 3, from: TrackState::Playing, to: TrackState::Looped };

    store.tick(ms(20), &changes(vec![looped]));
    assert_eq!(count(&calls), 1);
    let entry = store.get(id).unwrap();
    assert_eq!(entry.event(), Event::Delayed(ms(50)));
    assert_eq!(entry.remaining(), 50_000_000);

    // The next matching transition does not fire it any more.
    store.tick(ms(20), &changes(vec![looped]));
    assert_eq!(count(&calls), 1);
    store.tick(ms(20), &changes(vec![looped]));
    assert_eq!(count(&calls), 1);
    // 60 ms after the override the delay has passed.
    store.tick(ms(20), &quiet());
    assert_eq!(count(&calls), 2);
    assert_eq!(
        calls.lock().unwrap()[1],
        EventContext::Timed(vec![])
    );
    assert!(!store.contains(id));
}

#[test]
fn periodic_entry_overridden_to_track_stops_its_timer() {
    let mut store = EventStore::new();
    let (h, calls) = handler(vec![Some(Event::Track(TrackEvent::Errored))]);
    let id = store.register(Event::Periodic(ms(20), None), h);
    store.tick(ms(20), &quiet());
    assert_eq!(count(&calls), 1);
    assert_eq!(store.get(id).unwrap().event(), Event::Track(TrackEvent::Errored));
    assert_eq!(store.get(id).unwrap().remaining(), 0);
    store.tick(ms(500), &quiet());
    assert_eq!(count(&calls), 1);
    let failed = TrackChange { track: 9, from: TrackState::Playing, to: TrackState::Errored };
    store.tick(ms(0), &changes(vec![failed]));
    assert_eq!(count(&calls), 2);
}

#[test]
fn core_event_on_a_track_is_stored_and_never_fires() {
    let mut store = EventStore::new_local(4);
    let (h, calls) = handler(vec![]);
    let id = store.register(Event::Core(CoreEvent::SpeakingStateUpdate), h);
    assert!(store.contains(id));
    assert_eq!(store.len(), 1);
    let snapshot = Snapshot {
        tracks: vec![4],
        changes: vec![TrackChange { track: 4, from: TrackState::Playing, to: TrackState::Ended }],
        core: Some(CoreOccurrence { kind: CoreEvent::SpeakingStateUpdate, payload: vec![1, 2, 3] }),
    };
    for _ in 0..10 {
        let dispatches = store.tick(ms(20), &snapshot);
        assert!(dispatches.is_empty());
    }
    assert_eq!(count(&calls), 0);
    assert!(store.contains(id));
    assert_eq!(store.get(id).unwrap().fire_count(), 0);
}

#[test]
fn core_event_fires_globally_with_its_payload() {
    let mut store = EventStore::new();
    let (h, calls) = handler(vec![]);
    let id = store.register(Event::Core(CoreEvent::PacketReceived), h);
    let packet = CoreOccurrence { kind: CoreEvent::PacketReceived, payload: vec![9, 8, 7] };
    let other = CoreOccurrence { kind: CoreEvent::DriverDisconnect, payload: vec![1] };

    store.tick(ms(20), &Snapshot { tracks: vec![], changes: vec![], core: Some(other) });
    assert_eq!(count(&calls), 0);
    store.tick(ms(20), &quiet());
    assert_eq!(count(&calls), 0);
    store.tick(ms(20), &Snapshot { tracks: vec![], changes: vec![], core: Some(packet.clone()) });
    assert_eq!(calls.lock().unwrap().clone(), vec![EventContext::Core(packet)]);
    assert!(store.contains(id));
    assert_eq!(store.get(id).unwrap().fire_count(), 1);
}

#[test]
fn global_transitions_of_many_tracks_come_in_one_call() {
    let mut store = EventStore::new();
    let (h, calls) = handler(vec![]);
    let id = store.register(Event::Track(TrackEvent::Ended), h);
    let ended: Vec<TrackChange> = (1..=5)
        .map(|track| TrackChange { track, from: TrackState::Playing, to: TrackState::Ended })
        .collect();
    let dispatches = store.tick(ms(20), &changes(ended.clone()));
    assert_eq!(dispatches, vec![Dispatch { id, outcome: Outcome::Returned(None) }]);
    assert_eq!(calls.lock().unwrap().clone(), vec![EventContext::TrackTransition(ended)]);
    assert!(store.contains(id));
}

#[test]
fn global_batch_holds_only_the_awaited_kind() {
    let mut store = EventStore::new();
    let (h, calls) = handler(vec![]);
    store.register(Event::Track(TrackEvent::Paused), h);
    let a = TrackChange { track: 1, from: TrackState::Playing, to: TrackState::Paused };
    let b = TrackChange { track: 2, from: TrackState::Playing, to: TrackState::Ended };
    let c = TrackChange { track: 3, from: TrackState::Looped, to: TrackState::Paused };
    let steady = TrackChange { track: 4, from: TrackState::Paused, to: TrackState::Paused };
    store.tick(ms(20), &changes(vec![a, b, steady, c]));
    assert_eq!(calls.lock().unwrap().clone(), vec![EventContext::TrackTransition(vec![a, c])]);
}

#[test]
fn a_state_that_stays_is_no_transition() {
    let mut store = EventStore::new();
    let (h, calls) = handler(vec![]);
    store.register(Event::Track(TrackEvent::Resumed), h);
    let steady = TrackChange { track: 1, from: TrackState::Playing, to: TrackState::Playing };
    assert!(store.tick(ms(20), &changes(vec![steady])).is_empty());
    assert_eq!(count(&calls), 0);
    let resumed = TrackChange { track: 1, from: TrackState::Paused, to: TrackState::Playing };
    assert_eq!(store.tick(ms(20), &changes(vec![resumed])).len(), 1);
    assert_eq!(count(&calls), 1);
}

#[test]
fn local_entry_is_given_the_first_transition_of_its_own_track() {
    let mut store = EventStore::new_local(2);
    let (h, calls) = handler(vec![]);
    store.register(Event::Track(TrackEvent::Paused), h);
    let foreign = TrackChange { track: 1, from: TrackState::Playing, to: TrackState::Paused };
    let first = TrackChange { track: 2, from: TrackState::Playing, to: TrackState::Paused };
    let second = TrackChange { track: 2, from: TrackState::Looped, to: TrackState::Paused };

    assert!(store.tick(ms(20), &changes(vec![foreign])).is_empty());
    assert_eq!(count(&calls), 0);
    store.tick(ms(20), &changes(vec![foreign, first, second]));
    assert_eq!(calls.lock().unwrap().clone(), vec![EventContext::TrackTransition(vec![first])]);
}

#[test]
fn timed_context_names_all_tracks_globally_and_the_owner_locally() {
    let snapshot = Snapshot { tracks: vec![10, 11, 12], changes: vec![], core: None };

    let mut global = EventStore::new();
    let (h, calls) = handler(vec![]);
    global.register(Event::Delayed(ms(1)), h);
    global.tick(ms(1), &snapshot);
    assert_eq!(calls.lock().unwrap().clone(), vec![EventContext::Timed(vec![10, 11, 12])]);

    let mut local = EventStore::new_local(11);
    let (h, calls) = handler(vec![]);
    local.register(Event::Delayed(ms(1)), h);
    local.tick(ms(1), &snapshot);
    assert_eq!(calls.lock().unwrap().clone(), vec![EventContext::Timed(vec![11])]);
    assert_eq!(local.scope(), Scope::Local(11));
    assert_eq!(global.scope(), Scope::Global);
}

#[test]
fn handlers_are_called_in_the_order_of_registration() {
    let mut store = EventStore::new();
    let order = Arc::new(Mutex::new(Vec::new()));
    struct Tagged {
        tag: u32,
        order: Arc<Mutex<Vec<u32>>>,
    }
    impl EventHandler for Tagged {
        fn act(&self, _ctx: &EventContext) -> Option<Event> {
            self.order.lock().unwrap().push(self.tag);
            None
        }
    }
    let a = store.register(Event::Periodic(ms(20), None), Tagged { tag: 1, order: order.clone() });
    let b = store.register(Event::Delayed(ms(40)), Tagged { tag: 2, order: order.clone() });
    let c = store.register(Event::Periodic(ms(10), None), Tagged { tag: 3, order: order.clone() });
    assert!(a < b && b < c);

    let first = store.tick(ms(20), &quiet());
    assert_eq!(first.iter().map(|d| d.id).collect::<Vec<_>>(), vec![a, c]);
    let second = store.tick(ms(20), &quiet());
    assert_eq!(second.iter().map(|d| d.id).collect::<Vec<_>>(), vec![a, b, c]);
    assert_eq!(order.lock().unwrap().clone(), vec![1, 3, 1, 2, 3]);
    assert!(!store.contains(b));
    let third = store.tick(ms(20), &quiet());
    assert_eq!(third.iter().map(|d| d.id).collect::<Vec<_>>(), vec![a, c]);
}
