//! Records of what happened during a tick of the engine.
use vstd::prelude::*;

verus! {

/// The kind of a recorded event.
#[derive(Clone, Copy, Debug, PartialEq, Eq, Structural)]
pub enum EventKind {
    TickAdvanced,
    VehicleSpawned,
    VehicleMoved,
    VehicleQueued,
    VehicleArrived,
    VehicleRerouted,
    SignalChanged,
}

/// An event at a tick, about an entity where there is one, with a message
/// for people.
#[derive(Clone, Debug, PartialEq)]
pub struct SimulationEvent {
    pub tick: u64,
    pub kind: EventKind,
    pub entity: Option<String>,
    pub message: String,
}

} // verus!
