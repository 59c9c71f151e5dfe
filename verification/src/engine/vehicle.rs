//! The route of a vehicle in a scenario.
use vstd::prelude::*;
use super::ids::SegmentId;

verus! {

/// The segments that a vehicle drives, in order.
#[derive(Clone, Debug, Default, PartialEq)]
pub struct VehicleRoute {
    pub segments: Vec<SegmentId>,
}

} // verus!
