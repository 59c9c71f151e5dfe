//! Identifiers of the scenario engine, one type per kind of thing.
use vstd::prelude::*;

verus! {

/// Identifies a node.
#[derive(Clone, Copy, Debug, Default, PartialEq, Eq, Hash, PartialOrd, Ord, Structural)]
pub struct NodeId(pub usize);

/// Identifies a road segment.
#[derive(Clone, Copy, Debug, Default, PartialEq, Eq, Hash, PartialOrd, Ord, Structural)]
pub struct SegmentId(pub usize);

/// Identifies a lane.
#[derive(Clone, Copy, Debug, Default, PartialEq, Eq, Hash, PartialOrd, Ord, Structural)]
pub struct LaneId(pub usize);

/// Identifies a vehicle.
#[derive(Clone, Copy, Debug, Default, PartialEq, Eq, Hash, PartialOrd, Ord, Structural)]
pub struct VehicleId(pub usize);

/// Identifies a traffic signal.
#[derive(Clone, Copy, Debug, Default, PartialEq, Eq, Hash, PartialOrd, Ord, Structural)]
pub struct SignalId(pub usize);

impl From<usize> for NodeId {
    fn from(value: usize) -> (id: Self) {
        NodeId(value)
    }
}

impl vstd::std_specs::convert::FromSpecImpl<usize> for NodeId {
    open spec fn obeys_from_spec() -> bool {
        true
    }

    open spec fn from_spec(value: usize) -> Self {
        NodeId(value)
    }
}

impl From<usize> for SegmentId {
    fn from(value: usize) -> (id: Self) {
        SegmentId(value)
    }
}

impl vstd::std_specs::convert::FromSpecImpl<usize> for SegmentId {
    open spec fn obeys_from_spec() -> bool {
        true
    }

    open spec fn from_spec(value: usize) -> Self {
        SegmentId(value)
    }
}

impl From<usize> for LaneId {
    fn from(value: usize) -> (id: Self) {
        LaneId(value)
    }
}

impl vstd::std_specs::convert::FromSpecImpl<usize> for LaneId {
    open spec fn obeys_from_spec() -> bool {
        true
    }

    open spec fn from_spec(value: usize) -> Self {
        LaneId(value)
    }
}

impl From<usize> for VehicleId {
    fn from(value: usize) -> (id: Self) {
        VehicleId(value)
    }
}

impl vstd::std_specs::convert::FromSpecImpl<usize> for VehicleId {
    open spec fn obeys_from_spec() -> bool {
        true
    }

    open spec fn from_spec(value: usize) -> Self {
        VehicleId(value)
    }
}

impl From<usize> for SignalId {
    fn from(value: usize) -> (id: Self) {
        SignalId(value)
    }
}

impl vstd::std_specs::convert::FromSpecImpl<usize> for SignalId {
    open spec fn obeys_from_spec() -> bool {
        true
    }

    open spec fn from_spec(value: usize) -> Self {
        SignalId(value)
    }
}

} // verus!
