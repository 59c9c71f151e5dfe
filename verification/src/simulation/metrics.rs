//! Counts over the vehicles of a simulation and the summary report.
use vstd::prelude::*;
use crate::idmap::lemma_entries;
use crate::model::{NodeId, RoadId, Vehicle, VehicleId, VehicleStatus, lemma_map_len};
use super::Simulation;

verus! {

/// A vehicle that has not reached its destination yet.
pub open spec fn is_active(v: Vehicle) -> bool {
    v.status != VehicleStatus::Finished
}

/// A vehicle that has reached its destination.
pub open spec fn is_completed(v: Vehicle) -> bool {
    v.status == VehicleStatus::Finished
}

/// The total waiting time of the finished vehicles of `s`.
pub open spec fn completed_wait_sum(s: Seq<Vehicle>) -> nat
    decreases s.len(),
{
    if s.len() == 0 {
        0
    } else {
        completed_wait_sum(s.drop_last()) + if is_completed(s.last()) {
            s.last().total_wait_time as nat
        } else {
            0
        }
    }
}

/// The total travel time of the finished vehicles of `s`.
pub open spec fn completed_travel_sum(s: Seq<Vehicle>) -> nat
    decreases s.len(),
{
    if s.len() == 0 {
        0
    } else {
        completed_travel_sum(s.drop_last()) + if is_completed(s.last()) {
            s.last().total_travel_time as nat
        } else {
            0
        }
    }
}

/// Every vehicle of a sequence is either active or completed, never both.
pub proof fn lemma_filters_split(s: Seq<Vehicle>)
    ensures
        s.filter(|v: Vehicle| is_active(v)).len() + s.filter(|v: Vehicle| is_completed(v)).len() == s.len(),
    decreases s.len(),
{
    reveal(Seq::filter);
    if s.len() > 0 {
        lemma_filters_split(s.drop_last());
    }
}

/// A prefix of a sequence has no larger sums than the whole.
pub proof fn lemma_sums_grow(s: Seq<Vehicle>, k: int)
    requires
        0 <= k <= s.len(),
    ensures
        completed_wait_sum(s.take(k)) <= completed_wait_sum(s),
        completed_travel_sum(s.take(k)) <= completed_travel_sum(s),
    decreases s.len() - k,
{
    if k < s.len() {
        lemma_sums_grow(s, k + 1);
        assert(s.take(k + 1).drop_last() =~= s.take(k));
    } else {
        assert(s.take(k) =~= s);
    }
}

/// A summary of a simulation run. The averages are the totals divided by
/// the number of finished vehicles.
#[derive(Clone, Copy, Debug, PartialEq, Eq, Structural)]
pub struct SimulationReport {
    pub ticks_run: u32,
    pub vehicles_total: usize,
    pub vehicles_completed: usize,
    pub vehicles_active: usize,
    pub total_wait_time: u32,
    pub total_travel_time: u32,
}

impl Simulation {
    /// The number of vehicles still on their way.
    pub fn active_vehicle_count(&self) -> (count: usize)
        requires
            self.wf(),
        ensures
            count == self.vehicle_seq().filter(|v: Vehicle| is_active(v)).len(),
    {
        let ghost s = self.vehicle_seq();
        let mut count: usize = 0;
        let mut i: usize = 0;
        while i < self.vehicles.entries.len()
            invariant
                s == self.vehicle_seq(),
                s.len() == self.vehicles.entries@.len(),
                i <= s.len(),
                count == s.take(i as int).filter(|v: Vehicle| is_active(v)).len(),
                count <= i,
            decreases s.len() - i,
        {
            proof {
                assert(s.take(i + 1).drop_last() =~= s.take(i as int));
                assert(s[i as int] == self.vehicles.entries@[i as int].1);
            }
            let ghost t = s.take(i + 1);
            proof {
                reveal(Seq::filter);
                assert(t.last() == s[i as int]);
                assert(t.filter(|v: Vehicle| is_active(v)) == if is_active(t.last()) {
                    t.drop_last().filter(|v: Vehicle| is_active(v)).push(t.last())
                } else {
                    t.drop_last().filter(|v: Vehicle| is_active(v))
                });
            }
            if !self.vehicles.entries[i].1.is_finished() {
                count = count + 1;
            }
            i = i + 1;
        }
        proof {
            assert(s.take(s.len() as int) =~= s);
        }
        count
    }

    /// The number of vehicles that have reached their destination.
    pub fn completed_vehicle_count(&self) -> (count: usize)
        requires
            self.wf(),
        ensures
            count == self.vehicle_seq().filter(|v: Vehicle| is_completed(v)).len(),
    {
        let ghost s = self.vehicle_seq();
        let mut count: usize = 0;
        let mut i: usize = 0;
        while i < self.vehicles.entries.len()
            invariant
                s == self.vehicle_seq(),
                s.len() == self.vehicles.entries@.len(),
                i <= s.len(),
                count == s.take(i as int).filter(|v: Vehicle| is_completed(v)).len(),
                count <= i,
            decreases s.len() - i,
        {
            proof {
                assert(s.take(i + 1).drop_last() =~= s.take(i as int));
                assert(s[i as int] == self.vehicles.entries@[i as int].1);
            }
            let ghost t = s.take(i + 1);
            proof {
                reveal(Seq::filter);
                assert(t.last() == s[i as int]);
                assert(t.filter(|v: Vehicle| is_completed(v)) == if is_completed(t.last()) {
                    t.drop_last().filter(|v: Vehicle| is_completed(v)).push(t.last())
                } else {
                    t.drop_last().filter(|v: Vehicle| is_completed(v))
                });
            }
            if self.vehicles.entries[i].1.is_finished() {
                count = count + 1;
            }
            i = i + 1;
        }
        proof {
            assert(s.take(s.len() as int) =~= s);
        }
        count
    }

    /// Nothing is left to do: no spawn is scheduled, every vehicle has
    /// finished, and every queue and lane is empty.
    pub open spec fn idle(&self) -> bool {
        &&& self.scheduled().len() == 0
        &&& forall|v: VehicleId|
            #[trigger] self.vehicle_map().contains_key(v) ==> is_completed(self.vehicle_map()[v])
        &&& forall|n: NodeId| #[trigger] self.queue_of(n).len() == 0
        &&& forall|r: RoadId, l: int| #[trigger] self.lane_of(r, l).len() == 0
    }

    /// Whether the simulation has nothing left to do.
    pub fn is_idle(&self) -> (idle: bool)
        requires
            self.wf(),
        ensures
            idle == self.idle(),
    {
        if self.scheduled_spawns.len() > 0 {
            return false;
        }
        proof {
            lemma_entries(self.vehicles.entries@);
            lemma_entries(self.node_queues.entries@);
            lemma_entries(self.road_runtime.entries@);
        }
        let mut i: usize = 0;
        while i < self.vehicles.entries.len()
            invariant
                self.wf(),
                i <= self.vehicles.entries@.len(),
                forall|j: int| 0 <= j < i ==> is_completed(#[trigger] self.vehicles.entries@[j].1),
            decreases self.vehicles.entries@.len() - i,
        {
            if !self.vehicles.entries[i].1.is_finished() {
                proof {
                    lemma_entries(self.vehicles.entries@);
                    let v = self.vehicles.entries@[i as int].0;
                    assert(self.vehicle_map().contains_key(v));
                }
                return false;
            }
            i = i + 1;
        }
        proof {
            lemma_entries(self.vehicles.entries@);
            assert forall|v: VehicleId| #[trigger] self.vehicle_map().contains_key(v) implies is_completed(
                self.vehicle_map()[v]) by {
                let j = crate::idmap::index_of(self.vehicles.entries@, v);
                assert(self.vehicles.entries@[j].0 == v);
            }
        }
        let mut i: usize = 0;
        while i < self.node_queues.entries.len()
            invariant
                self.wf(),
                i <= self.node_queues.entries@.len(),
                forall|j: int| 0 <= j < i ==> (#[trigger] self.node_queues.entries@[j]).1@.len() == 0,
            decreases self.node_queues.entries@.len() - i,
        {
            if self.node_queues.entries[i].1.len() > 0 {
                proof {
                    lemma_entries(self.node_queues.entries@);
                    let n = self.node_queues.entries@[i as int].0;
                    assert(self.queue_of(n).len() > 0);
                }
                return false;
            }
            i = i + 1;
        }
        proof {
            lemma_entries(self.node_queues.entries@);
            assert forall|n: NodeId| #[trigger] self.queue_of(n).len() == 0 by {
                if self.node_queues@.contains_key(n) {
                    let j = crate::idmap::index_of(self.node_queues.entries@, n);
                    assert(self.node_queues.entries@[j].0 == n);
                }
            }
        }
        let mut i: usize = 0;
        while i < self.road_runtime.entries.len()
            invariant
                self.wf(),
                i <= self.road_runtime.entries@.len(),
                forall|j: int, l: int|
                    0 <= j < i && 0 <= l < self.road_runtime.entries@[j].1.lanes@.len()
                        ==> (#[trigger] self.road_runtime.entries@[j].1.lanes@[l])@.len() == 0,
            decreases self.road_runtime.entries@.len() - i,
        {
            let mut l: usize = 0;
            while l < self.road_runtime.entries[i].1.lanes.len()
                invariant
                    self.wf(),
                    i < self.road_runtime.entries@.len(),
                    l <= self.road_runtime.entries@[i as int].1.lanes@.len(),
                    forall|j: int, k: int|
                        0 <= j < i && 0 <= k < self.road_runtime.entries@[j].1.lanes@.len()
                            ==> (#[trigger] self.road_runtime.entries@[j].1.lanes@[k])@.len() == 0,
                    forall|k: int| 0 <= k < l ==> (#[trigger] self.road_runtime.entries@[i as int].1.lanes@[k])@.len() == 0,
                decreases self.road_runtime.entries@[i as int].1.lanes@.len() - l,
            {
                if self.road_runtime.entries[i].1.lanes[l].len() > 0 {
                    proof {
                        lemma_entries(self.road_runtime.entries@);
                        let r = self.road_runtime.entries@[i as int].0;
                        assert(self.lane_of(r, l as int).len() > 0);
                    }
                    return false;
                }
                l = l + 1;
            }
            i = i + 1;
        }
        proof {
            lemma_entries(self.road_runtime.entries@);
            assert forall|r: RoadId, l: int| #[trigger] self.lane_of(r, l).len() == 0 by {
                if self.road_runtime@.contains_key(r) && 0 <= l < self.road_runtime@[r].lanes@.len() {
                    let j = crate::idmap::index_of(self.road_runtime.entries@, r);
                    assert(self.road_runtime.entries@[j].0 == r);
                }
            }
        }
        true
    }

    /// A summary of the run so far: the tick reached, the number of vehicles
    /// that entered, finished and are still on their way, and the waiting and
    /// travel time summed over the finished vehicles.
    pub fn report(&self) -> (report: SimulationReport)
        requires
            self.wf(),
            completed_wait_sum(self.vehicle_seq()) <= u32::MAX,
            completed_travel_sum(self.vehicle_seq()) <= u32::MAX,
        ensures
            report.ticks_run == self.now(),
            report.vehicles_total == self.vehicle_map().dom().len(),
            report.vehicles_completed == self.vehicle_seq().filter(|v: Vehicle| is_completed(v)).len(),
            report.vehicles_active == self.vehicle_seq().filter(|v: Vehicle| is_active(v)).len(),
            report.total_wait_time == completed_wait_sum(self.vehicle_seq()),
            report.total_travel_time == completed_travel_sum(self.vehicle_seq()),
            report.vehicles_total == report.vehicles_completed + report.vehicles_active,
    {
        proof {
            Self::lemma_counts_partition(*self);
        }
        let ghost s = self.vehicle_seq();
        let mut wait: u32 = 0;
        let mut travel: u32 = 0;
        let mut i: usize = 0;
        while i < self.vehicles.entries.len()
            invariant
                s == self.vehicle_seq(),
                s.len() == self.vehicles.entries@.len(),
                i <= s.len(),
                completed_wait_sum(s) <= u32::MAX,
                completed_travel_sum(s) <= u32::MAX,
                wait == completed_wait_sum(s.take(i as int)),
                travel == completed_travel_sum(s.take(i as int)),
            decreases s.len() - i,
        {
            proof {
                assert(s.take(i + 1).drop_last() =~= s.take(i as int));
                assert(s[i as int] == self.vehicles.entries@[i as int].1);
                lemma_sums_grow(s, i + 1);
            }
            if self.vehicles.entries[i].1.is_finished() {
                wait = wait + self.vehicles.entries[i].1.total_wait_time;
                travel = travel + self.vehicles.entries[i].1.total_travel_time;
            }
            i = i + 1;
        }
        proof {
            assert(s.take(s.len() as int) =~= s);
            lemma_map_len(self.vehicles.entries@);
        }
        SimulationReport {
            ticks_run: self.current_tick,
            vehicles_total: self.vehicles.len(),
            vehicles_completed: self.completed_vehicle_count(),
            vehicles_active: self.active_vehicle_count(),
            total_wait_time: wait,
            total_travel_time: travel,
        }
    }

    /// Every vehicle that entered the simulation is counted exactly once,
    /// as active or as completed.
    pub proof fn lemma_counts_partition(sim: Simulation)
        requires
            sim.wf(),
        ensures
            sim.vehicle_seq().filter(|v: Vehicle| is_active(v)).len()
                + sim.vehicle_seq().filter(|v: Vehicle| is_completed(v)).len()
                == sim.vehicle_map().dom().len(),
    {
        lemma_filters_split(sim.vehicle_seq());
        lemma_map_len(sim.vehicles.entries@);
    }

    /// The simulation is idle exactly when no spawn is scheduled and every
    /// vehicle has finished: a finished vehicle is in no queue and no lane.
    pub proof fn lemma_idle_iff_all_finished(sim: Simulation)
        requires
            sim.wf(),
        ensures
            sim.idle() <==> (sim.scheduled().len() == 0 && forall|v: VehicleId|
                #[trigger] sim.vehicle_map().contains_key(v) ==> is_completed(sim.vehicle_map()[v])),
    {
        if sim.scheduled().len() == 0 && forall|v: VehicleId|
            #[trigger] sim.vehicle_map().contains_key(v) ==> is_completed(sim.vehicle_map()[v]) {
            assert forall|n: NodeId| #[trigger] sim.queue_of(n).len() == 0 by {
                if sim.queue_of(n).len() > 0 {
                    let v = sim.queue_of(n)[0];
                    assert(sim.vehicle_map().contains_key(v));
                }
            }
            assert forall|r: RoadId, l: int| #[trigger] sim.lane_of(r, l).len() == 0 by {
                if sim.lane_of(r, l).len() > 0 {
                    let v = sim.lane_of(r, l)[0];
                    assert(sim.vehicle_map().contains_key(v));
                }
            }
        }
    }
}

} // verus!
