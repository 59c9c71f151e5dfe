//! Counting the time that vehicles spend waiting and driving.
use vstd::prelude::*;
use crate::idmap::{lemma_changed_at, lemma_entries};
use crate::model::{Vehicle, VehicleId, VehicleStatus};
use super::Simulation;

verus! {

/// A vehicle after one more tick is counted at tick `now`: a vehicle waiting
/// at a node from its release tick on has waited one tick more there and in
/// all; a vehicle on a road has driven one tick more; a finished vehicle, or
/// one not yet released, is unchanged.
pub open spec fn counted(v: Vehicle, now: u32) -> Vehicle {
    match v.status {
        VehicleStatus::WaitingAtNode(_) => if now >= v.queued_release_tick {
            Vehicle {
                total_wait_time: (v.total_wait_time + 1) as u32,
                waiting_ticks_at_node: (v.waiting_ticks_at_node + 1) as u32,
                ..v
            }
        } else {
            v
        },
        VehicleStatus::OnRoad { .. } => Vehicle {
            total_travel_time: (v.total_travel_time + 1) as u32,
            ..v
        },
        VehicleStatus::Finished => v,
    }
}

impl Simulation {
    /// Every vehicle of `self` was in `other`, with no counter higher than
    /// there.
    pub open spec fn counters_not_above(&self, other: Simulation) -> bool {
        forall|v: VehicleId|
            #![trigger self.vehicle_map()[v]]
            self.vehicle_map().contains_key(v) ==> {
                &&& other.vehicle_map().contains_key(v)
                &&& self.vehicle_map()[v].total_wait_time <= other.vehicle_map()[v].total_wait_time
                &&& self.vehicle_map()[v].total_travel_time <= other.vehicle_map()[v].total_travel_time
                &&& self.vehicle_map()[v].waiting_ticks_at_node <= other.vehicle_map()[v].waiting_ticks_at_node
            }
    }

    /// Every vehicle that had finished in `other` is in `self`, unchanged.
    pub open spec fn finished_kept(&self, other: Simulation) -> bool {
        forall|v: VehicleId|
            #![trigger other.vehicle_map()[v]]
            other.vehicle_map().contains_key(v) && other.vehicle_map()[v].status == VehicleStatus::Finished
                ==> self.vehicle_map().contains_key(v) && self.vehicle_map()[v] == other.vehicle_map()[v]
    }

    /// Every vehicle of `other` is in `self` with the same total waiting and
    /// travel time.
    pub open spec fn totals_kept(&self, other: Simulation) -> bool {
        forall|v: VehicleId|
            #![trigger other.vehicle_map()[v]]
            other.vehicle_map().contains_key(v) ==> {
                &&& self.vehicle_map().contains_key(v)
                &&& self.vehicle_map()[v].total_wait_time == other.vehicle_map()[v].total_wait_time
                &&& self.vehicle_map()[v].total_travel_time == other.vehicle_map()[v].total_travel_time
            }
    }

    /// Keeping the totals twice keeps them.
    pub proof fn lemma_totals_kept_trans(a: Simulation, b: Simulation, c: Simulation)
        requires
            b.totals_kept(a),
            c.totals_kept(b),
        ensures
            c.totals_kept(a),
    {
        assert forall|v: VehicleId|
            #![trigger a.vehicle_map()[v]]
            a.vehicle_map().contains_key(v) implies {
                &&& c.vehicle_map().contains_key(v)
                &&& c.vehicle_map()[v].total_wait_time == a.vehicle_map()[v].total_wait_time
                &&& c.vehicle_map()[v].total_travel_time == a.vehicle_map()[v].total_travel_time
            } by {
            assert(b.vehicle_map().contains_key(v));
        }
    }

    /// Keeping the finished vehicles twice keeps them.
    pub proof fn lemma_finished_kept_trans(a: Simulation, b: Simulation, c: Simulation)
        requires
            b.finished_kept(a),
            c.finished_kept(b),
        ensures
            c.finished_kept(a),
    {
        assert forall|w: VehicleId|
            #![trigger a.vehicle_map()[w]]
            a.vehicle_map().contains_key(w) && a.vehicle_map()[w].status == VehicleStatus::Finished
                implies c.vehicle_map().contains_key(w) && c.vehicle_map()[w] == a.vehicle_map()[w] by {
            assert(b.vehicle_map().contains_key(w) && b.vehicle_map()[w] == a.vehicle_map()[w]);
        }
    }

    /// Counters that did not grow leave as much room as before.
    pub proof fn lemma_room_kept(s: Simulation, t: Simulation, k: nat)
        requires
            s.room_for_ticks(k),
            t.now() == s.now(),
            t.counters_not_above(s),
        ensures
            t.room_for_ticks(k),
    {
        assert forall|v: VehicleId|
            #![trigger t.vehicle_map()[v]]
            t.vehicle_map().contains_key(v) implies {
                &&& t.vehicle_map()[v].total_wait_time + k <= u32::MAX
                &&& t.vehicle_map()[v].total_travel_time + k <= u32::MAX
                &&& t.vehicle_map()[v].waiting_ticks_at_node + k <= u32::MAX
            } by {
            assert(s.vehicle_map().contains_key(v));
        }
    }

    /// Counters that did not grow twice did not grow.
    pub proof fn lemma_not_above_trans(a: Simulation, b: Simulation, c: Simulation)
        requires
            b.counters_not_above(a),
            c.counters_not_above(b),
        ensures
            c.counters_not_above(a),
    {
        assert forall|v: VehicleId|
            #![trigger c.vehicle_map()[v]]
            c.vehicle_map().contains_key(v) implies {
                &&& a.vehicle_map().contains_key(v)
                &&& c.vehicle_map()[v].total_wait_time <= a.vehicle_map()[v].total_wait_time
                &&& c.vehicle_map()[v].total_travel_time <= a.vehicle_map()[v].total_travel_time
                &&& c.vehicle_map()[v].waiting_ticks_at_node <= a.vehicle_map()[v].waiting_ticks_at_node
            } by {
            assert(b.vehicle_map().contains_key(v));
        }
    }

    /// Every vehicle can count `k` more ticks without its counters
    /// overflowing, and so can the clock.
    pub open spec fn room_for_ticks(&self, k: nat) -> bool {
        &&& self.now() + k <= u32::MAX
        &&& forall|v: VehicleId|
            #![trigger self.vehicle_map()[v]]
            self.vehicle_map().contains_key(v) ==> {
                &&& self.vehicle_map()[v].total_wait_time + k <= u32::MAX
                &&& self.vehicle_map()[v].total_travel_time + k <= u32::MAX
                &&& self.vehicle_map()[v].waiting_ticks_at_node + k <= u32::MAX
            }
    }

    /// Counts one tick for every vehicle: waiting time for the vehicles
    /// queued at a node (from their release tick on), travel time for the
    /// vehicles in a lane. A vehicle is queued exactly when it waits at a node
    /// and in a lane exactly when it drives a road (see `locations_agree`), so
    /// the count goes by the status of each vehicle.
    pub fn increment_time_counters(&mut self)
        requires
            old(self).wf(),
            old(self).room_for_ticks(1),
        ensures
            final(self).wf(),
            final(self).unchanged_but_places(*old(self)),
            forall|n| #[trigger] final(self).queue_of(n) == old(self).queue_of(n),
            forall|r, l| #[trigger] final(self).lane_of(r, l) == old(self).lane_of(r, l),
            forall|r| #[trigger] final(self).lane_count(r) == old(self).lane_count(r),
            final(self).vehicle_map().dom() == old(self).vehicle_map().dom(),
            forall|v: VehicleId|
                #![trigger final(self).vehicle_map()[v]]
                final(self).vehicle_map().contains_key(v) ==> final(self).vehicle_map()[v]
                    == counted(old(self).vehicle_map()[v], old(self).now()),
    {
        let ghost s0 = *self;
        proof {
            lemma_entries(self.vehicles.entries@);
            assert forall|j: int| 0 <= j < s0.vehicles.entries@.len() implies {
                &&& (#[trigger] s0.vehicles.entries@[j]).1.total_wait_time + 1 <= u32::MAX
                &&& s0.vehicles.entries@[j].1.total_travel_time + 1 <= u32::MAX
                &&& s0.vehicles.entries@[j].1.waiting_ticks_at_node + 1 <= u32::MAX
            } by {
                let k = s0.vehicles.entries@[j].0;
                assert(s0.vehicle_map().contains_key(k));
            }
        }
        let now = self.current_tick;
        let mut i: usize = 0;
        while i < self.vehicles.entries.len()
            invariant
                s0.wf(),
                now == s0.now(),
                self.network == s0.network,
                self.road_runtime == s0.road_runtime,
                self.node_queues == s0.node_queues,
                self.signals == s0.signals,
                self.scheduled_spawns == s0.scheduled_spawns,
                self.current_tick == s0.current_tick,
                self.next_vehicle_id == s0.next_vehicle_id,
                self.deadlock_wait_threshold == s0.deadlock_wait_threshold,
                self.vehicles.entries@.len() == s0.vehicles.entries@.len(),
                i <= self.vehicles.entries@.len(),
                forall|j: int| 0 <= j < s0.vehicles.entries@.len() ==> {
                    &&& (#[trigger] s0.vehicles.entries@[j]).1.total_wait_time + 1 <= u32::MAX
                    &&& s0.vehicles.entries@[j].1.total_travel_time + 1 <= u32::MAX
                    &&& s0.vehicles.entries@[j].1.waiting_ticks_at_node + 1 <= u32::MAX
                },
                forall|j: int| 0 <= j < self.vehicles.entries@.len() ==> (#[trigger] self.vehicles.entries@[j]).0 == s0.vehicles.entries@[j].0,
                forall|j: int| 0 <= j < i ==> (#[trigger] self.vehicles.entries@[j]).1 == counted(s0.vehicles.entries@[j].1, now),
                forall|j: int| i <= j < self.vehicles.entries@.len() ==> #[trigger] self.vehicles.entries@[j] == s0.vehicles.entries@[j],
            decreases self.vehicles.entries@.len() - i,
        {
            let status = self.vehicles.entries[i].1.status;
            match status {
                VehicleStatus::WaitingAtNode(_) => {
                    if now >= self.vehicles.entries[i].1.queued_release_tick {
                        self.vehicles.entries[i].1.total_wait_time = self.vehicles.entries[i].1.total_wait_time + 1;
                        self.vehicles.entries[i].1.waiting_ticks_at_node = self.vehicles.entries[i].1.waiting_ticks_at_node + 1;
                    }
                },
                VehicleStatus::OnRoad { .. } => {
                    self.vehicles.entries[i].1.total_travel_time = self.vehicles.entries[i].1.total_travel_time + 1;
                },
                VehicleStatus::Finished => {},
            }
            i = i + 1;
        }
        proof {
            lemma_entries(self.vehicles.entries@);
            lemma_entries(s0.vehicles.entries@);
            assert(self.vehicles.wf()) by {
                assert forall|a: int, b: int| 0 <= a < b < self.vehicles.entries@.len() implies
                    #[trigger] self.vehicles.entries@[a].0 < #[trigger] self.vehicles.entries@[b].0 by {
                    assert(s0.vehicles.entries@[a].0 < s0.vehicles.entries@[b].0);
                }
            }
            lemma_entries(self.vehicles.entries@);
            assert forall|v: VehicleId| #[trigger] self.vehicle_map().contains_key(v) == s0.vehicle_map().contains_key(v) by {
                if s0.vehicle_map().contains_key(v) {
                    let j = crate::idmap::index_of(s0.vehicles.entries@, v);
                    assert(self.vehicles.entries@[j].0 == v);
                }
                if self.vehicle_map().contains_key(v) {
                    let j = crate::idmap::index_of(self.vehicles.entries@, v);
                    assert(s0.vehicles.entries@[j].0 == v);
                }
            }
            assert(self.vehicle_map().dom() =~= s0.vehicle_map().dom());
            assert forall|v: VehicleId|
                #![trigger self.vehicle_map()[v]]
                self.vehicle_map().contains_key(v) implies self.vehicle_map()[v]
                    == counted(s0.vehicle_map()[v], now) by {
                let j = crate::idmap::index_of(self.vehicles.entries@, v);
                assert(s0.vehicles.entries@[j].0 == v);
            }
            Self::lemma_vehicle_edit_keeps_wf(s0, *self);
        }
    }
}

} // verus!
