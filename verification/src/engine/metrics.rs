//! Running totals of the engine and the snapshots it hands out.
use vstd::prelude::*;
use super::ids::{NodeId, SignalId};
use super::state::SignalPhase;

verus! {

/// Totals kept while the engine runs.
#[derive(Clone, Copy, Debug, Default, PartialEq, Eq, Structural)]
pub struct SimulationMetrics {
    pub vehicles_spawned: u64,
    pub vehicles_completed: u64,
    pub total_travel_ticks: u64,
    pub total_wait_ticks: u64,
}

/// The totals of the engine as handed out to a front end.
#[derive(Clone, Copy, Debug, PartialEq, Eq, Structural)]
pub struct MetricsSnapshot {
    pub vehicles_spawned: u64,
    pub vehicles_completed: u64,
    pub total_travel_ticks: u64,
    pub total_wait_ticks: u64,
}

/// The state of one signal as handed out to a front end.
#[derive(Clone, Copy, Debug, PartialEq, Eq, Structural)]
pub struct SignalSnapshot {
    pub id: SignalId,
    pub node: NodeId,
    pub phase: SignalPhase,
    pub phase_tick: u32,
}

impl SimulationMetrics {
    /// The totals, copied into a snapshot.
    pub fn snapshot(&self) -> (snapshot: MetricsSnapshot)
        ensures
            snapshot.vehicles_spawned == self.vehicles_spawned,
            snapshot.vehicles_completed == self.vehicles_completed,
            snapshot.total_travel_ticks == self.total_travel_ticks,
            snapshot.total_wait_ticks == self.total_wait_ticks,
    {
        MetricsSnapshot {
            vehicles_spawned: self.vehicles_spawned,
            vehicles_completed: self.vehicles_completed,
            total_travel_ticks: self.total_travel_ticks,
            total_wait_ticks: self.total_wait_ticks,
        }
    }
}

} // verus!
