//! The moving parts that the simulation keeps beside the network: the lanes
//! of each road and the phase of each signal.
use vstd::prelude::*;
use crate::model::VehicleId;

verus! {

/// The vehicles in each lane of a road, front first.
pub struct RoadRuntime {
    pub lanes: Vec<Vec<VehicleId>>,
}

impl RoadRuntime {
    /// `lanes` empty lanes.
    pub fn new(lanes: usize) -> (runtime: Self)
        ensures
            runtime.lanes@.len() == lanes,
            forall|l: int| 0 <= l < lanes ==> (#[trigger] runtime.lanes@[l])@.len() == 0,
    {
        let mut all: Vec<Vec<VehicleId>> = Vec::new();
        let mut i: usize = 0;
        while i < lanes
            invariant
                i <= lanes,
                all@.len() == i,
                forall|l: int| 0 <= l < i ==> (#[trigger] all@[l])@.len() == 0,
            decreases lanes - i,
        {
            all.push(Vec::new());
            i = i + 1;
        }
        RoadRuntime { lanes: all }
    }
}

/// The phase a signal is in and how many ticks it has been in it.
#[derive(Clone, Copy, Debug, PartialEq, Eq, Structural)]
pub struct SignalRuntime {
    pub phase_index: usize,
    pub time_in_phase: u32,
}

} // verus!
