//! Lanes of a road segment.
use vstd::prelude::*;
use super::ids::{LaneId, SegmentId, VehicleId};

verus! {

/// One lane of a segment, with the vehicles that occupy it.
#[derive(Clone, Debug)]
pub struct Lane {
    pub id: LaneId,
    pub segment: SegmentId,
    pub index: usize,
    pub capacity: usize,
    pub occupied: Vec<VehicleId>,
}

impl Lane {
    /// How many more vehicles fit in the lane; none once it is full or
    /// over-full.
    pub fn available_space(&self) -> (space: usize)
        ensures
            space == if self.occupied@.len() <= self.capacity {
                self.capacity - self.occupied@.len()
            } else {
                0
            },
    {
        self.capacity.saturating_sub(self.occupied.len())
    }
}

} // verus!
