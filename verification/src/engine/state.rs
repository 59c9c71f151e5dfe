//! The states that nodes, signals and vehicles of a scenario can be in.
use vstd::prelude::*;

verus! {

/// The role of a node in a scenario.
#[derive(Clone, Copy, Debug, PartialEq, Eq, Structural)]
pub enum NodeKind {
    Source,
    Intersection,
    Signal,
    Sink,
}

/// The light that a signal shows.
#[derive(Clone, Copy, Debug, PartialEq, Eq, Structural)]
pub enum SignalPhase {
    Red,
    Yellow,
    Green,
}

/// The kind of a vehicle.
#[derive(Clone, Copy, Debug, PartialEq, Eq, Structural)]
pub enum VehicleKind {
    Car,
    Bus,
    Truck,
    Emergency,
}

/// Where a vehicle is in its trip.
#[derive(Clone, Copy, Debug, PartialEq, Eq, Structural)]
pub enum VehicleState {
    WaitingToSpawn,
    Queued,
    Moving,
    WaitingForSignal,
    Arrived,
}

} // verus!
