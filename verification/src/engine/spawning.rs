//! What becomes of a pending spawn of the scenario engine at a tick, once
//! its route has been searched.
use vstd::prelude::*;
use super::ids::SegmentId;

verus! {

/// What becomes of a pending spawn at a tick.
#[derive(Clone, Copy, Debug, PartialEq, Eq, Structural)]
pub enum SpawnOutcome {
    /// Its release tick has not come yet: it keeps waiting.
    NotDue,
    /// No route leads to its destination: it keeps waiting, and the miss is
    /// reported.
    NoRoute,
    /// The first segment of its route is full: it keeps waiting.
    Blocked,
    /// It enters the network, queued on this first segment of its route.
    Enter(SegmentId),
}

/// Decides what becomes of a spawn released at `release_tick`, at `tick`,
/// given the route found for it (empty where none was) and the number of
/// vehicles queued on the route's first segment against that segment's
/// capacity.
pub fn spawn_outcome(
    release_tick: u64,
    tick: u64,
    route: &[SegmentId],
    first_queue_len: usize,
    first_capacity: usize,
) -> (o: SpawnOutcome)
    ensures
        o == if release_tick > tick {
            SpawnOutcome::NotDue
        } else if route@.len() == 0 {
            SpawnOutcome::NoRoute
        } else if first_queue_len >= first_capacity {
            SpawnOutcome::Blocked
        } else {
            SpawnOutcome::Enter(route@[0])
        },
{
    if release_tick > tick {
        SpawnOutcome::NotDue
    } else if route.len() == 0 {
        SpawnOutcome::NoRoute
    } else if first_queue_len >= first_capacity {
        SpawnOutcome::Blocked
    } else {
        SpawnOutcome::Enter(route[0])
    }
}

} // verus!
