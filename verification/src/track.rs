//! Tracks as the scheduler sees them: an identifier, a discrete playback
//! state, and the transitions between states.

use vstd::prelude::*;

verus! {

/// Identifies one track of the driver.
pub type TrackId = u64;

/// The discrete playback state that a track reports.
#[derive(Clone, Copy, Debug, PartialEq, Eq, Hash, Structural)]
pub enum TrackState {
    /// Audio is being produced.
    Playing,
    /// Playback is suspended and can be resumed.
    Paused,
    /// Playback was stopped by its owner.
    Stopped,
    /// The track reached its end and started over.
    Looped,
    /// The track played to its end.
    Ended,
    /// The track failed.
    Errored,
}

/// The kinds of track transition that a handler can wait for. Each kind
/// stands for a track entering one state from any other state.
#[derive(Clone, Copy, Debug, PartialEq, Eq, Hash, Structural)]
pub enum TrackEvent {
    /// The track started playing again.
    Resumed,
    /// The track was paused.
    Paused,
    /// The track was stopped.
    Stopped,
    /// The track looped.
    Looped,
    /// The track ended.
    Ended,
    /// The track failed.
    Errored,
}

/// One observed transition of one track.
#[derive(Clone, Copy, Debug, PartialEq, Eq, Hash, Structural)]
pub struct TrackChange {
    /// The track that changed.
    pub track: TrackId,
    /// Its state before.
    pub from: TrackState,
    /// Its state now.
    pub to: TrackState,
}

impl TrackEvent {
    /// The state that a track enters when this kind of transition happens.
    pub open spec fn entered(self) -> TrackState {
        match self {
            TrackEvent::Resumed => TrackState::Playing,
            TrackEvent::Paused => TrackState::Paused,
            TrackEvent::Stopped => TrackState::Stopped,
            TrackEvent::Looped => TrackState::Looped,
            TrackEvent::Ended => TrackState::Ended,
            TrackEvent::Errored => TrackState::Errored,
        }
    }

    /// Whether `change` is a transition of this kind: an edge between two
    /// distinct states that ends in the state this kind stands for. A track
    /// that stays in a state produces no transition of any kind.
    pub open spec fn occurs_in(self, change: TrackChange) -> bool {
        change.from != change.to && change.to == self.entered()
    }

    /// The state that a track enters when this kind of transition happens.
    pub fn state_entered(self) -> (state: TrackState)
        ensures
            state == self.entered(),
    {
        match self {
            TrackEvent::Resumed => TrackState::Playing,
            TrackEvent::Paused => TrackState::Paused,
            TrackEvent::Stopped => TrackState::Stopped,
            TrackEvent::Looped => TrackState::Looped,
            TrackEvent::Ended => TrackState::Ended,
            TrackEvent::Errored => TrackState::Errored,
        }
    }

    /// Whether `change` is a transition of this kind.
    pub fn matches(self, change: &TrackChange) -> (hit: bool)
        ensures
            hit == self.occurs_in(*change),
    {
        change.from != change.to && change.to == self.state_entered()
    }
}

/// The kinds of session-level occurrence that a handler can wait for. Their
/// payload is opaque to the scheduler.
#[derive(Clone, Copy, Debug, PartialEq, Eq, Hash, Structural)]
pub enum CoreEvent {
    /// The driver established its connection.
    DriverConnect,
    /// The driver re-established a lost connection.
    DriverReconnect,
    /// The driver lost or closed its connection.
    DriverDisconnect,
    /// A participant's speaking state changed.
    SpeakingStateUpdate,
    /// A raw packet arrived.
    PacketReceived,
}

} // verus!
