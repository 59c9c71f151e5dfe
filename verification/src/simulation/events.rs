//! What a simulation step reports.
use vstd::prelude::*;
use crate::model::{NodeId, RoadId, VehicleId};

verus! {

#[derive(Clone, Debug)]
pub enum SimulationEvent {
    Spawned {
        vehicle_id: VehicleId,
        name: String,
        origin: NodeId,
        destination: NodeId,
        route: Vec<RoadId>,
    },
    SpawnFailed { name: String, origin: NodeId, destination: NodeId, reason: String },
    SignalChanged { node_id: NodeId, phase_name: String },
    EnteredRoad { vehicle_id: VehicleId, road_id: RoadId, lane_index: usize },
    Rerouted {
        vehicle_id: VehicleId,
        node_id: NodeId,
        avoided_road: RoadId,
        new_route: Vec<RoadId>,
        reason: String,
    },
    EmergencyEnteredRoad {
        vehicle_id: VehicleId,
        road_id: RoadId,
        lane_index: usize,
        reason: String,
    },
    ReachedNode { vehicle_id: VehicleId, node_id: NodeId },
    Completed { vehicle_id: VehicleId, destination: NodeId, wait_time: u32, travel_time: u32 },
}

} // verus!
