//! Vehicles entering roads and reaching the end of them.
use vstd::prelude::*;
use crate::idmap::{lemma_changed_at, lemma_entries};
use crate::model::{NodeId, RoadId, Vehicle, VehicleId, VehicleStatus, spec_travel_time};
use super::Simulation;
use super::events::SimulationEvent;

verus! {

/// A vehicle at the front of its lane one tick on: with time left it counts
/// down; with none, it leaves the road for its end node `to`, finishing there
/// at the end of its route and otherwise queueing there from the next tick
/// on with no waiting counted yet.
pub open spec fn front_moved(v: Vehicle, now: u32, to: NodeId) -> Vehicle {
    match v.status {
        VehicleStatus::OnRoad { road_id, lane_index, remaining_time } => if remaining_time <= 1 {
            if v.next_road_index >= v.route@.len() {
                Vehicle { status: VehicleStatus::Finished, ..v }
            } else {
                Vehicle {
                    status: VehicleStatus::WaitingAtNode(to),
                    queued_release_tick: (now + 1) as u32,
                    waiting_ticks_at_node: 0,
                    ..v
                }
            }
        } else {
            Vehicle {
                status: VehicleStatus::OnRoad {
                    road_id,
                    lane_index,
                    remaining_time: (remaining_time - 1) as u32,
                },
                ..v
            }
        },
        _ => v,
    }
}

impl Simulation {
    /// Moves the vehicle at position `pos` of the queue of `node_id` to the
    /// back of lane `lane_index` of road `road_id`, on its way for
    /// `travel_time` ticks, one road further along its route.
    #[verifier::spinoff_prover]
    pub(crate) fn depart(
        &mut self,
        node_id: NodeId,
        pos: usize,
        road_id: RoadId,
        lane_index: usize,
        travel_time: u32,
    ) -> (vehicle_id: VehicleId)
        requires
            old(self).wf(),
            pos < old(self).queue_of(node_id).len(),
            lane_index < old(self).lane_count(road_id),
            old(self).vehicle_map()[old(self).queue_of(node_id)[pos as int]].next_road_index
                < old(self).vehicle_map()[old(self).queue_of(node_id)[pos as int]].route@.len(),
        ensures
            final(self).wf(),
            vehicle_id == old(self).queue_of(node_id)[pos as int],
            final(self).vehicle_map() == old(self).vehicle_map().insert(
                vehicle_id,
                Vehicle {
                    next_road_index: (old(self).vehicle_map()[vehicle_id].next_road_index + 1) as usize,
                    status: VehicleStatus::OnRoad {
                        road_id,
                        lane_index,
                        remaining_time: travel_time,
                    },
                    ..old(self).vehicle_map()[vehicle_id]
                },
            ),
            final(self).queue_of(node_id) == old(self).queue_of(node_id).remove(pos as int),
            forall|n: NodeId| n != node_id ==> #[trigger] final(self).queue_of(n) == old(self).queue_of(n),
            final(self).lane_of(road_id, lane_index as int) == old(self).lane_of(road_id, lane_index as int).push(vehicle_id),
            forall|r: RoadId, l: int| !(r == road_id && l == lane_index) ==> #[trigger] final(self).lane_of(r, l) == old(self).lane_of(r, l),
            forall|r: RoadId| #[trigger] final(self).lane_count(r) == old(self).lane_count(r),
            final(self).unchanged_but_places(*old(self)),
            final(self).counters_not_above(*old(self)),
            final(self).finished_kept(*old(self)),
            final(self).totals_kept(*old(self)),
    {
        let ghost s = *old(self);
        proof {
            lemma_entries(self.node_queues.entries@);
            lemma_entries(self.road_runtime.entries@);
            lemma_entries(self.vehicles.entries@);
        }
        let qi = self.node_queues.find(node_id).unwrap();
        let ghost q0 = self.node_queues.entries@;
        let vehicle_id = self.node_queues.entries[qi].1.remove(pos);
        proof {
            lemma_changed_at(q0, self.node_queues.entries@, qi as int);
        }
        let ri = self.road_runtime.find(road_id).unwrap();
        let ghost r0 = self.road_runtime.entries@;
        self.road_runtime.entries[ri].1.lanes[lane_index].push(vehicle_id);
        proof {
            lemma_changed_at(r0, self.road_runtime.entries@, ri as int);
        }
        let vi = self.vehicles.find(vehicle_id).unwrap();
        let ghost v0 = self.vehicles.entries@;
        assert(self.vehicles.entries@[vi as int].1 == s.vehicle_map()[vehicle_id]);
        let _route_len = self.vehicles.entries[vi].1.route.len();
        self.vehicles.entries[vi].1.next_road_index = self.vehicles.entries[vi].1.next_road_index + 1;
        self.vehicles.entries[vi].1.status = VehicleStatus::OnRoad {
            road_id,
            lane_index,
            remaining_time: travel_time,
        };
        proof {
            lemma_changed_at(v0, self.vehicles.entries@, vi as int);
            let vo = s.vehicle_map()[vehicle_id];
            assert(self.vehicle_map()[vehicle_id] == Vehicle {
                next_road_index: (vo.next_road_index + 1) as usize,
                status: VehicleStatus::OnRoad { road_id, lane_index, remaining_time: travel_time },
                ..vo
            });
            assert(self.vehicle_map() =~= s.vehicle_map().insert(vehicle_id, self.vehicle_map()[vehicle_id]));
            assert(self.queue_of(node_id) =~= s.queue_of(node_id).remove(pos as int));
            assert forall|n: NodeId| n != node_id implies #[trigger] self.queue_of(n) == s.queue_of(n) by {}
            assert(self.lane_of(road_id, lane_index as int) =~= s.lane_of(road_id, lane_index as int).push(vehicle_id));
            assert forall|r: RoadId, l: int| !(r == road_id && l == lane_index) implies #[trigger] self.lane_of(r, l) == s.lane_of(r, l) by {
                if r == road_id && s.road_runtime@.contains_key(r) && 0 <= l < s.road_runtime@[r].lanes@.len() {
                    assert(self.road_runtime@[r].lanes@[l] == s.road_runtime@[r].lanes@[l]);
                }
            }
            let v = vehicle_id;
            let sq = s.queue_of(node_id);
            assert(sq[pos as int] == v);
            assert(s.vehicle_map()[v].status == VehicleStatus::WaitingAtNode(node_id));
            assert(self.road_runtime.keys() == s.road_runtime.keys());
            assert forall|r: RoadId| #[trigger] self.lane_count(r) == s.lane_count(r) by {}
            assert forall|r: RoadId|
                #![trigger self.road_runtime@[r]]
                self.road_runtime@.contains_key(r) implies self.road_runtime@[r].lanes@.len()
                == self.network.road_map()[r].lanes by {
                assert(s.road_runtime@.contains_key(r));
            }
            assert forall|w: VehicleId|
                #![trigger self.vehicles@[w]]
                self.vehicles@.contains_key(w) implies {
                    &&& w < self.next_vehicle_id
                    &&& self.vehicles@[w].id == w
                    &&& forall|i: int|
                        0 <= i < self.vehicles@[w].route@.len()
                            ==> self.network.road_map().contains_key(
                            #[trigger] self.vehicles@[w].route@[i],
                        )
                } by {
                assert(s.vehicles@.contains_key(w));
            }
            // queues hold waiting vehicles
            assert forall|n: NodeId, i: int|
                #![trigger self.queue_of(n)[i]]
                0 <= i < self.queue_of(n).len() implies {
                    let x = self.queue_of(n)[i];
                    &&& self.vehicle_map().contains_key(x)
                    &&& self.vehicle_map()[x].status == VehicleStatus::WaitingAtNode(n)
                } by {
                let x = self.queue_of(n)[i];
                if n == node_id {
                    let j = if i < pos { i } else { i + 1 };
                    assert(x == sq[j]);
                    assert(sq.no_duplicates());
                    assert(x != v);
                    assert(s.vehicle_map().contains_key(x));
                } else {
                    assert(x == s.queue_of(n)[i]);
                    assert(s.vehicle_map()[x].status == VehicleStatus::WaitingAtNode(n));
                    assert(x != v);
                }
            }
            // lanes hold vehicles driving them
            assert forall|r: RoadId, l: int, i: int|
                #![trigger self.lane_of(r, l)[i]]
                0 <= i < self.lane_of(r, l).len() implies {
                    let x = self.lane_of(r, l)[i];
                    &&& self.vehicle_map().contains_key(x)
                    &&& self.vehicle_map()[x].status matches VehicleStatus::OnRoad {
                        road_id,
                        lane_index,
                        ..
                    } && road_id == r && lane_index == l
                } by {
                let x = self.lane_of(r, l)[i];
                if r == road_id && l == lane_index && i == s.lane_of(r, l).len() {
                    assert(x == v);
                } else {
                    assert(x == s.lane_of(r, l)[i]);
                    assert(s.vehicle_map().contains_key(x));
                    assert(x != v);
                }
            }
            // every vehicle is where its status says
            assert forall|w: VehicleId|
                #![trigger self.vehicle_map()[w]]
                self.vehicle_map().contains_key(w) implies match self.vehicle_map()[w].status {
                    VehicleStatus::WaitingAtNode(n) => self.queue_of(n).contains(w),
                    VehicleStatus::OnRoad { road_id, lane_index, .. } => {
                        &&& lane_index < self.lane_count(road_id)
                        &&& self.lane_of(road_id, lane_index as int).contains(w)
                    },
                    VehicleStatus::Finished => true,
                } by {
                if w == v {
                    assert(self.lane_of(road_id, lane_index as int)[s.lane_of(road_id, lane_index as int).len() as int] == v);
                } else {
                    assert(s.vehicle_map().contains_key(w));
                    match s.vehicle_map()[w].status {
                        VehicleStatus::WaitingAtNode(n) => {
                            let j = choose|j: int| 0 <= j < s.queue_of(n).len() && s.queue_of(n)[j] == w;
                            if n == node_id {
                                assert(j != pos);
                                if j < pos {
                                    assert(self.queue_of(n)[j] == w);
                                } else {
                                    assert(self.queue_of(n)[j - 1] == w);
                                }
                            } else {
                                assert(self.queue_of(n)[j] == w);
                            }
                        },
                        VehicleStatus::OnRoad { road_id: r, lane_index: l, .. } => {
                            let j = choose|j: int| 0 <= j < s.lane_of(r, l as int).len() && s.lane_of(r, l as int)[j] == w;
                            assert(self.lane_of(r, l as int)[j] == w);
                        },
                        VehicleStatus::Finished => {},
                    }
                }
            }
            assert forall|n: NodeId| #[trigger] self.queue_of(n).no_duplicates() by {
                assert(s.queue_of(n).no_duplicates());
                if n == node_id {
                    assert forall|a: int, b: int|
                        0 <= a < self.queue_of(n).len() && 0 <= b < self.queue_of(n).len() && a != b
                        implies self.queue_of(n)[a] != self.queue_of(n)[b] by {
                        let ja = if a < pos { a } else { a + 1 };
                        let jb = if b < pos { b } else { b + 1 };
                        assert(self.queue_of(n)[a] == sq[ja]);
                        assert(self.queue_of(n)[b] == sq[jb]);
                    }
                }
            }
            assert forall|r: RoadId, l: int| #[trigger] self.lane_of(r, l).no_duplicates() by {
                assert(s.lane_of(r, l).no_duplicates());
                if r == road_id && l == lane_index {
                    assert forall|i: int| 0 <= i < s.lane_of(r, l).len() implies s.lane_of(r, l)[i] != v by {
                        let x = s.lane_of(r, l)[i];
                        assert(s.vehicle_map()[x].status is OnRoad);
                    }
                    assert forall|a: int, b: int|
                        0 <= a < self.lane_of(r, l).len() && 0 <= b < self.lane_of(r, l).len() && a != b
                        implies self.lane_of(r, l)[a] != self.lane_of(r, l)[b] by {
                        if a < s.lane_of(r, l).len() && b < s.lane_of(r, l).len() {
                            assert(self.lane_of(r, l)[a] == s.lane_of(r, l)[a]);
                            assert(self.lane_of(r, l)[b] == s.lane_of(r, l)[b]);
                        } else if a < s.lane_of(r, l).len() {
                            assert(self.lane_of(r, l)[a] == s.lane_of(r, l)[a]);
                        } else {
                            assert(self.lane_of(r, l)[b] == s.lane_of(r, l)[b]);
                        }
                    }
                }
            }
            assert(self.locations_agree());
            assert(self.wf());
        }
        vehicle_id
    }
}

impl Simulation {
    /// Appends `v` to the queue of `node`, giving the node a queue where it
    /// had none.
    fn push_queue(&mut self, node: NodeId, v: VehicleId)
        requires
            old(self).node_queues.wf(),
        ensures
            final(self).node_queues.wf(),
            final(self).queue_of(node) == old(self).queue_of(node).push(v),
            forall|n: NodeId| n != node ==> #[trigger] final(self).queue_of(n) == old(self).queue_of(n),
            final(self).vehicles == old(self).vehicles,
            final(self).road_runtime == old(self).road_runtime,
            final(self).unchanged_but_places(*old(self)),
            old(self).node_queues@.contains_key(node) ==> final(self).queue_nodes() == old(self).queue_nodes(),
    {
        match self.node_queues.find(node) {
            Some(qi) => {
                let ghost q0 = self.node_queues.entries@;
                self.node_queues.entries[qi].1.push(v);
                proof {
                    lemma_changed_at(q0, self.node_queues.entries@, qi as int);
                    assert(self.queue_of(node) =~= old(self).queue_of(node).push(v));
                }
            },
            None => {
                let mut q: Vec<VehicleId> = Vec::new();
                q.push(v);
                self.node_queues.insert(node, q);
                proof {
                    assert(self.queue_of(node) =~= old(self).queue_of(node).push(v));
                }
            },
        }
    }

    /// Marks the vehicle at position `pos` of the queue of `node_id` as
    /// finished and takes it out of the queue.
    #[verifier::spinoff_prover]
    pub(crate) fn finish_in_queue(&mut self, node_id: NodeId, pos: usize) -> (vehicle_id: VehicleId)
        requires
            old(self).wf(),
            pos < old(self).queue_of(node_id).len(),
        ensures
            final(self).wf(),
            vehicle_id == old(self).queue_of(node_id)[pos as int],
            final(self).vehicle_map() == old(self).vehicle_map().insert(
                vehicle_id,
                Vehicle { status: VehicleStatus::Finished, ..old(self).vehicle_map()[vehicle_id] },
            ),
            final(self).queue_of(node_id) == old(self).queue_of(node_id).remove(pos as int),
            forall|n: NodeId| n != node_id ==> #[trigger] final(self).queue_of(n) == old(self).queue_of(n),
            forall|r: RoadId, l: int| #[trigger] final(self).lane_of(r, l) == old(self).lane_of(r, l),
            forall|r: RoadId| #[trigger] final(self).lane_count(r) == old(self).lane_count(r),
            final(self).queue_nodes() == old(self).queue_nodes(),
            final(self).unchanged_but_places(*old(self)),
            final(self).counters_not_above(*old(self)),
            final(self).finished_kept(*old(self)),
            final(self).totals_kept(*old(self)),
    {
        let ghost s = *old(self);
        proof {
            lemma_entries(self.node_queues.entries@);
            lemma_entries(self.vehicles.entries@);
        }
        let qi = self.node_queues.find(node_id).unwrap();
        let ghost q0 = self.node_queues.entries@;
        let vehicle_id = self.node_queues.entries[qi].1.remove(pos);
        proof {
            lemma_changed_at(q0, self.node_queues.entries@, qi as int);
        }
        let vi = self.vehicles.find(vehicle_id).unwrap();
        let ghost v0 = self.vehicles.entries@;
        self.vehicles.entries[vi].1.status = VehicleStatus::Finished;
        proof {
            lemma_changed_at(v0, self.vehicles.entries@, vi as int);
            let v = vehicle_id;
            let sq = s.queue_of(node_id);
            assert(sq[pos as int] == v);
            assert(s.vehicle_map()[v].status == VehicleStatus::WaitingAtNode(node_id));
            assert(self.vehicle_map() =~= s.vehicle_map().insert(v, self.vehicle_map()[v]));
            assert(self.queue_of(node_id) =~= sq.remove(pos as int));
            assert forall|n: NodeId| n != node_id implies #[trigger] self.queue_of(n) == s.queue_of(n) by {}
            assert forall|w: VehicleId|
                #![trigger self.vehicles@[w]]
                self.vehicles@.contains_key(w) implies {
                    &&& w < self.next_vehicle_id
                    &&& self.vehicles@[w].id == w
                    &&& forall|i: int|
                        0 <= i < self.vehicles@[w].route@.len()
                            ==> self.network.road_map().contains_key(
                            #[trigger] self.vehicles@[w].route@[i],
                        )
                } by {
                assert(s.vehicles@.contains_key(w));
            }
            assert forall|n: NodeId, i: int|
                #![trigger self.queue_of(n)[i]]
                0 <= i < self.queue_of(n).len() implies {
                    let x = self.queue_of(n)[i];
                    &&& self.vehicle_map().contains_key(x)
                    &&& self.vehicle_map()[x].status == VehicleStatus::WaitingAtNode(n)
                } by {
                let x = self.queue_of(n)[i];
                if n == node_id {
                    let j = if i < pos { i } else { i + 1 };
                    assert(x == sq[j]);
                    assert(sq.no_duplicates());
                    assert(x != v);
                    assert(s.vehicle_map().contains_key(x));
                } else {
                    assert(x == s.queue_of(n)[i]);
                    assert(s.vehicle_map()[x].status == VehicleStatus::WaitingAtNode(n));
                    assert(x != v);
                }
            }
            assert forall|r: RoadId, l: int, i: int|
                #![trigger self.lane_of(r, l)[i]]
                0 <= i < self.lane_of(r, l).len() implies {
                    let x = self.lane_of(r, l)[i];
                    &&& self.vehicle_map().contains_key(x)
                    &&& self.vehicle_map()[x].status matches VehicleStatus::OnRoad {
                        road_id,
                        lane_index,
                        ..
                    } && road_id == r && lane_index == l
                } by {
                let x = self.lane_of(r, l)[i];
                assert(x == s.lane_of(r, l)[i]);
                assert(s.vehicle_map().contains_key(x));
                assert(x != v);
            }
            assert forall|w: VehicleId|
                #![trigger self.vehicle_map()[w]]
                self.vehicle_map().contains_key(w) implies match self.vehicle_map()[w].status {
                    VehicleStatus::WaitingAtNode(n) => self.queue_of(n).contains(w),
                    VehicleStatus::OnRoad { road_id, lane_index, .. } => {
                        &&& lane_index < self.lane_count(road_id)
                        &&& self.lane_of(road_id, lane_index as int).contains(w)
                    },
                    VehicleStatus::Finished => true,
                } by {
                if w != v {
                    assert(s.vehicle_map().contains_key(w));
                    match s.vehicle_map()[w].status {
                        VehicleStatus::WaitingAtNode(n) => {
                            let j = choose|j: int| 0 <= j < s.queue_of(n).len() && s.queue_of(n)[j] == w;
                            if n == node_id {
                                assert(j != pos);
                                if j < pos {
                                    assert(self.queue_of(n)[j] == w);
                                } else {
                                    assert(self.queue_of(n)[j - 1] == w);
                                }
                            } else {
                                assert(self.queue_of(n)[j] == w);
                            }
                        },
                        VehicleStatus::OnRoad { road_id: r, lane_index: l, .. } => {
                            let j = choose|j: int| 0 <= j < s.lane_of(r, l as int).len() && s.lane_of(r, l as int)[j] == w;
                            assert(self.lane_of(r, l as int)[j] == w);
                        },
                        VehicleStatus::Finished => {},
                    }
                }
            }
            assert forall|n: NodeId| #[trigger] self.queue_of(n).no_duplicates() by {
                assert(s.queue_of(n).no_duplicates());
                if n == node_id {
                    assert forall|a: int, b: int|
                        0 <= a < self.queue_of(n).len() && 0 <= b < self.queue_of(n).len() && a != b
                        implies self.queue_of(n)[a] != self.queue_of(n)[b] by {
                        let ja = if a < pos { a } else { a + 1 };
                        let jb = if b < pos { b } else { b + 1 };
                        assert(self.queue_of(n)[a] == sq[ja]);
                        assert(self.queue_of(n)[b] == sq[jb]);
                    }
                }
            }
            assert forall|r: RoadId, l: int| #[trigger] self.lane_of(r, l).no_duplicates() by {
                assert(s.lane_of(r, l).no_duplicates());
            }
            assert(self.locations_agree());
            assert(self.wf());
        }
        vehicle_id
    }

    /// Counts down the remaining time of the vehicle at the front of lane
    /// `lane_index` of road `road_id`, and tells whether it has reached the
    /// end of the road.
    pub(crate) fn tick_lane_front(&mut self, road_id: RoadId, lane_index: usize) -> (result: (
        VehicleId,
        bool,
    ))
        requires
            old(self).wf(),
            lane_index < old(self).lane_count(road_id),
            old(self).lane_of(road_id, lane_index as int).len() > 0,
        ensures
            final(self).wf(),
            result.0 == old(self).lane_of(road_id, lane_index as int)[0],
            ({
                let v = result.0;
                let before = old(self).vehicle_map()[v];
                let after = final(self).vehicle_map()[v];
                &&& final(self).vehicle_map() == old(self).vehicle_map().insert(v, after)
                &&& match before.status {
                    VehicleStatus::OnRoad { road_id: r, lane_index: l, remaining_time: t } => {
                        &&& r == road_id
                        &&& l == lane_index
                        &&& after == Vehicle {
                            status: VehicleStatus::OnRoad {
                                road_id: r,
                                lane_index: l,
                                remaining_time: if t > 0 { (t - 1) as u32 } else { 0 },
                            },
                            ..before
                        }
                        &&& result.1 == (t <= 1)
                    },
                    _ => false,
                }
            }),
            forall|n: NodeId| #[trigger] final(self).queue_of(n) == old(self).queue_of(n),
            forall|r: RoadId, l: int| #[trigger] final(self).lane_of(r, l) == old(self).lane_of(r, l),
            forall|r: RoadId| #[trigger] final(self).lane_count(r) == old(self).lane_count(r),
            final(self).queue_nodes() == old(self).queue_nodes(),
            final(self).unchanged_but_places(*old(self)),
            final(self).counters_not_above(*old(self)),
            final(self).finished_kept(*old(self)),
            final(self).totals_kept(*old(self)),
    {
        let ghost s = *old(self);
        proof {
            lemma_entries(self.road_runtime.entries@);
            lemma_entries(self.vehicles.entries@);
        }
        let ri = self.road_runtime.find(road_id).unwrap();
        let vehicle_id = self.road_runtime.entries[ri].1.lanes[lane_index][0];
        proof {
            assert(s.lane_of(road_id, lane_index as int)[0] == vehicle_id);
        }
        let vi = self.vehicles.find(vehicle_id).unwrap();
        let ghost v0 = self.vehicles.entries@;
        let status = self.vehicles.entries[vi].1.status;
        let ready = match status {
            VehicleStatus::OnRoad { road_id: r, lane_index: l, remaining_time } => {
                if r == road_id && l == lane_index {
                    let t = if remaining_time > 0 { remaining_time - 1 } else { 0 };
                    self.vehicles.entries[vi].1.status = VehicleStatus::OnRoad {
                        road_id: r,
                        lane_index: l,
                        remaining_time: t,
                    };
                    t == 0
                } else {
                    false
                }
            },
            _ => false,
        };
        proof {
            lemma_changed_at(v0, self.vehicles.entries@, vi as int);
            assert(self.vehicle_map() =~= s.vehicle_map().insert(vehicle_id, self.vehicle_map()[vehicle_id]));
            assert(s.vehicle_map().contains_key(vehicle_id));
            assert(self.vehicle_map().dom() =~= s.vehicle_map().dom());
            Self::lemma_vehicle_edit_keeps_wf(s, *self);
        }
        (vehicle_id, ready)
    }
}

impl Simulation {
    /// Takes the vehicle at the front of lane `lane_index` of road `road_id`
    /// off the road at its end node `to`: a vehicle at the end of its route
    /// finishes; any other joins the back of the queue of `to`, may leave it
    /// from the next tick on, and has waited there for no tick yet.
    #[verifier::spinoff_prover]
    pub(crate) fn leave_lane(&mut self, road_id: RoadId, lane_index: usize, to: NodeId) -> (result: (
        VehicleId,
        bool,
    ))
        requires
            old(self).wf(),
            lane_index < old(self).lane_count(road_id),
            old(self).lane_of(road_id, lane_index as int).len() > 0,
            old(self).now() < u32::MAX,
        ensures
            final(self).wf(),
            result.0 == old(self).lane_of(road_id, lane_index as int)[0],
            ({
                let v = result.0;
                let before = old(self).vehicle_map()[v];
                &&& result.1 == (before.next_road_index >= before.route@.len())
                &&& result.1 ==> {
                    &&& final(self).vehicle_map() == old(self).vehicle_map().insert(
                        v,
                        Vehicle { status: VehicleStatus::Finished, ..before },
                    )
                    &&& forall|n: NodeId| #[trigger] final(self).queue_of(n) == old(self).queue_of(n)
                    &&& final(self).queue_nodes() == old(self).queue_nodes()
                }
                &&& !result.1 ==> {
                    &&& final(self).vehicle_map() == old(self).vehicle_map().insert(
                        v,
                        Vehicle {
                            status: VehicleStatus::WaitingAtNode(to),
                            queued_release_tick: (old(self).now() + 1) as u32,
                            waiting_ticks_at_node: 0,
                            ..before
                        },
                    )
                    &&& final(self).queue_of(to) == old(self).queue_of(to).push(v)
                    &&& forall|n: NodeId| n != to ==> #[trigger] final(self).queue_of(n) == old(self).queue_of(n)
                }
            }),
            final(self).lane_of(road_id, lane_index as int) == old(self).lane_of(road_id, lane_index as int).drop_first(),
            forall|r: RoadId, l: int| !(r == road_id && l == lane_index) ==> #[trigger] final(self).lane_of(r, l) == old(self).lane_of(r, l),
            forall|r: RoadId| #[trigger] final(self).lane_count(r) == old(self).lane_count(r),
            final(self).unchanged_but_places(*old(self)),
            final(self).counters_not_above(*old(self)),
            final(self).finished_kept(*old(self)),
            final(self).totals_kept(*old(self)),
    {
        let ghost s = *old(self);
        proof {
            lemma_entries(self.road_runtime.entries@);
            lemma_entries(self.vehicles.entries@);
        }
        let ri = self.road_runtime.find(road_id).unwrap();
        let ghost r0 = self.road_runtime.entries@;
        let vehicle_id = self.road_runtime.entries[ri].1.lanes[lane_index].remove(0);
        proof {
            lemma_changed_at(r0, self.road_runtime.entries@, ri as int);
        }
        let vi = self.vehicles.find(vehicle_id).unwrap();
        let ghost v0 = self.vehicles.entries@;
        let finished = self.vehicles.entries[vi].1.next_road_index >= self.vehicles.entries[vi].1.route.len();
        if finished {
            self.vehicles.entries[vi].1.status = VehicleStatus::Finished;
        } else {
            self.vehicles.entries[vi].1.status = VehicleStatus::WaitingAtNode(to);
            self.vehicles.entries[vi].1.queued_release_tick = self.current_tick + 1;
            self.vehicles.entries[vi].1.waiting_ticks_at_node = 0;
        }
        proof {
            lemma_changed_at(v0, self.vehicles.entries@, vi as int);
        }
        let ghost mid = *self;
        if !finished {
            self.push_queue(to, vehicle_id);
        }
        proof {
            let v = vehicle_id;
            let sl = s.lane_of(road_id, lane_index as int);
            assert(sl[0] == v);
            assert(s.vehicle_map().contains_key(v));
            assert(s.vehicle_map()[v].status matches VehicleStatus::OnRoad { road_id: r, lane_index: l, .. } && r == road_id && l == lane_index);
            assert(self.vehicle_map() =~= s.vehicle_map().insert(v, self.vehicle_map()[v]));
            assert(self.lane_of(road_id, lane_index as int) =~= sl.drop_first());
            assert forall|r: RoadId, l: int| !(r == road_id && l == lane_index) implies #[trigger] self.lane_of(r, l) == s.lane_of(r, l) by {
                if r == road_id && s.road_runtime@.contains_key(r) && 0 <= l < s.road_runtime@[r].lanes@.len() {
                    assert(self.road_runtime@[r].lanes@[l] == s.road_runtime@[r].lanes@[l]);
                }
            }
            assert forall|r: RoadId| #[trigger] self.lane_count(r) == s.lane_count(r) by {}
            assert(self.road_runtime.keys() == s.road_runtime.keys());
            assert forall|r: RoadId|
                #![trigger self.road_runtime@[r]]
                self.road_runtime@.contains_key(r) implies self.road_runtime@[r].lanes@.len()
                == self.network.road_map()[r].lanes by {
                assert(s.road_runtime@.contains_key(r));
            }
            assert forall|w: VehicleId|
                #![trigger self.vehicles@[w]]
                self.vehicles@.contains_key(w) implies {
                    &&& w < self.next_vehicle_id
                    &&& self.vehicles@[w].id == w
                    &&& forall|i: int|
                        0 <= i < self.vehicles@[w].route@.len()
                            ==> self.network.road_map().contains_key(
                            #[trigger] self.vehicles@[w].route@[i],
                        )
                } by {
                assert(s.vehicles@.contains_key(w));
            }
            // v was in no queue
            assert forall|n: NodeId, i: int| 0 <= i < s.queue_of(n).len() implies #[trigger] s.queue_of(n)[i] != v by {
                assert(s.vehicle_map()[s.queue_of(n)[i]].status == VehicleStatus::WaitingAtNode(n));
            }
            assert forall|n: NodeId, i: int|
                #![trigger self.queue_of(n)[i]]
                0 <= i < self.queue_of(n).len() implies {
                    let x = self.queue_of(n)[i];
                    &&& self.vehicle_map().contains_key(x)
                    &&& self.vehicle_map()[x].status == VehicleStatus::WaitingAtNode(n)
                } by {
                let x = self.queue_of(n)[i];
                if !finished && n == to && i == s.queue_of(n).len() {
                    assert(x == v);
                } else {
                    assert(x == s.queue_of(n)[i]);
                    assert(x != v);
                    assert(s.vehicle_map().contains_key(x));
                }
            }
            assert forall|r: RoadId, l: int, i: int|
                #![trigger self.lane_of(r, l)[i]]
                0 <= i < self.lane_of(r, l).len() implies {
                    let x = self.lane_of(r, l)[i];
                    &&& self.vehicle_map().contains_key(x)
                    &&& self.vehicle_map()[x].status matches VehicleStatus::OnRoad {
                        road_id,
                        lane_index,
                        ..
                    } && road_id == r && lane_index == l
                } by {
                let x = self.lane_of(r, l)[i];
                if r == road_id && l == lane_index {
                    assert(x == sl[i + 1]);
                    assert(sl.no_duplicates());
                    assert(x != v);
                } else {
                    assert(x == s.lane_of(r, l)[i]);
                    assert(s.vehicle_map()[x].status matches VehicleStatus::OnRoad { road_id: rr, lane_index: ll, .. } && rr == r && ll == l);
                    assert(x != v);
                }
                assert(s.vehicle_map().contains_key(x));
            }
            assert forall|w: VehicleId|
                #![trigger self.vehicle_map()[w]]
                self.vehicle_map().contains_key(w) implies match self.vehicle_map()[w].status {
                    VehicleStatus::WaitingAtNode(n) => self.queue_of(n).contains(w),
                    VehicleStatus::OnRoad { road_id, lane_index, .. } => {
                        &&& lane_index < self.lane_count(road_id)
                        &&& self.lane_of(road_id, lane_index as int).contains(w)
                    },
                    VehicleStatus::Finished => true,
                } by {
                if w == v {
                    if !finished {
                        assert(self.queue_of(to)[s.queue_of(to).len() as int] == v);
                    }
                } else {
                    assert(s.vehicle_map().contains_key(w));
                    match s.vehicle_map()[w].status {
                        VehicleStatus::WaitingAtNode(n) => {
                            let j = choose|j: int| 0 <= j < s.queue_of(n).len() && s.queue_of(n)[j] == w;
                            assert(self.queue_of(n)[j] == w);
                        },
                        VehicleStatus::OnRoad { road_id: r, lane_index: l, .. } => {
                            let j = choose|j: int| 0 <= j < s.lane_of(r, l as int).len() && s.lane_of(r, l as int)[j] == w;
                            if r == road_id && l == lane_index {
                                assert(j != 0);
                                assert(self.lane_of(r, l as int)[j - 1] == w);
                            } else {
                                assert(self.lane_of(r, l as int)[j] == w);
                            }
                        },
                        VehicleStatus::Finished => {},
                    }
                }
            }
            assert forall|n: NodeId| #[trigger] self.queue_of(n).no_duplicates() by {
                assert(s.queue_of(n).no_duplicates());
                if !finished && n == to {
                    assert forall|a: int, b: int|
                        0 <= a < self.queue_of(n).len() && 0 <= b < self.queue_of(n).len() && a != b
                        implies self.queue_of(n)[a] != self.queue_of(n)[b] by {
                        if a < s.queue_of(n).len() {
                            assert(self.queue_of(n)[a] == s.queue_of(n)[a]);
                        }
                        if b < s.queue_of(n).len() {
                            assert(self.queue_of(n)[b] == s.queue_of(n)[b]);
                        }
                    }
                }
            }
            assert forall|r: RoadId, l: int| #[trigger] self.lane_of(r, l).no_duplicates() by {
                assert(s.lane_of(r, l).no_duplicates());
                if r == road_id && l == lane_index {
                    assert forall|a: int, b: int|
                        0 <= a < self.lane_of(r, l).len() && 0 <= b < self.lane_of(r, l).len() && a != b
                        implies self.lane_of(r, l)[a] != self.lane_of(r, l)[b] by {
                        assert(self.lane_of(r, l)[a] == sl[a + 1]);
                        assert(self.lane_of(r, l)[b] == sl[b + 1]);
                    }
                }
            }
            assert(self.locations_agree());
            assert(self.wf());
            if finished {
                assert forall|n: NodeId| #[trigger] self.queue_of(n) == s.queue_of(n) by {}
            }
        }
        (vehicle_id, finished)
    }

    /// Adds a vehicle that the simulation does not have yet, keeping it
    /// where its status says: at the back of the queue it waits in, at the
    /// back of the lane it drives, or nowhere once it has finished.
    #[verifier::spinoff_prover]
    pub(crate) fn place_vehicle(&mut self, vehicle: Vehicle)
        requires
            old(self).wf(),
            !old(self).vehicle_map().contains_key(vehicle.id),
            vehicle.id < old(self).next_id(),
            forall|i: int|
                0 <= i < vehicle.route@.len() ==> old(self).net().road_map().contains_key(
                    #[trigger] vehicle.route@[i],
                ),
            vehicle.status matches VehicleStatus::OnRoad { road_id, lane_index, .. }
                ==> lane_index < old(self).lane_count(road_id),
        ensures
            final(self).wf(),
            final(self).vehicle_map() == old(self).vehicle_map().insert(vehicle.id, vehicle),
            forall|n: NodeId| #[trigger] final(self).queue_of(n) == if vehicle.status == VehicleStatus::WaitingAtNode(n) {
                old(self).queue_of(n).push(vehicle.id)
            } else {
                old(self).queue_of(n)
            },
            forall|r: RoadId, l: int| #[trigger] final(self).lane_of(r, l) == if vehicle.status matches VehicleStatus::OnRoad { road_id, lane_index, .. } && road_id == r && lane_index == l {
                old(self).lane_of(r, l).push(vehicle.id)
            } else {
                old(self).lane_of(r, l)
            },
            forall|r: RoadId| #[trigger] final(self).lane_count(r) == old(self).lane_count(r),
            final(self).unchanged_but_places(*old(self)),
    {
        let ghost s = *old(self);
        let ghost vh = vehicle;
        let id = vehicle.id;
        let status = vehicle.status;
        self.vehicles.insert(id, vehicle);
        match status {
            VehicleStatus::WaitingAtNode(n) => {
                self.push_queue(n, id);
            },
            VehicleStatus::OnRoad { road_id, lane_index, .. } => {
                proof {
                    lemma_entries(self.road_runtime.entries@);
                }
                let ri = self.road_runtime.find(road_id).unwrap();
                let ghost r0 = self.road_runtime.entries@;
                self.road_runtime.entries[ri].1.lanes[lane_index].push(id);
                proof {
                    lemma_changed_at(r0, self.road_runtime.entries@, ri as int);
                }
            },
            VehicleStatus::Finished => {},
        }
        proof {
            let v = id;
            assert forall|n: NodeId| #[trigger] self.queue_of(n) == if vh.status == VehicleStatus::WaitingAtNode(n) {
                s.queue_of(n).push(v) } else { s.queue_of(n) } by {}
            assert forall|r: RoadId, l: int| #[trigger] self.lane_of(r, l) == if vh.status matches VehicleStatus::OnRoad { road_id, lane_index, .. } && road_id == r && lane_index == l {
                s.lane_of(r, l).push(v) } else { s.lane_of(r, l) } by {
                if vh.status matches VehicleStatus::OnRoad { road_id, lane_index, .. } && road_id == r && lane_index == l {
                    assert(self.lane_of(r, l) =~= s.lane_of(r, l).push(v));
                } else if s.road_runtime@.contains_key(r) && 0 <= l < s.road_runtime@[r].lanes@.len() {
                    assert(self.road_runtime@[r].lanes@[l] == s.road_runtime@[r].lanes@[l]);
                }
            }
            assert forall|r: RoadId| #[trigger] self.lane_count(r) == s.lane_count(r) by {}
            assert(self.road_runtime.keys() == s.road_runtime.keys());
            assert forall|r: RoadId|
                #![trigger self.road_runtime@[r]]
                self.road_runtime@.contains_key(r) implies self.road_runtime@[r].lanes@.len()
                == self.network.road_map()[r].lanes by {
                assert(s.road_runtime@.contains_key(r));
            }
            assert forall|w: VehicleId|
                #![trigger self.vehicles@[w]]
                self.vehicles@.contains_key(w) implies {
                    &&& w < self.next_vehicle_id
                    &&& self.vehicles@[w].id == w
                    &&& forall|i: int|
                        0 <= i < self.vehicles@[w].route@.len()
                            ==> self.network.road_map().contains_key(
                            #[trigger] self.vehicles@[w].route@[i],
                        )
                } by {
                if w != v {
                    assert(s.vehicles@.contains_key(w));
                }
            }
            assert forall|n: NodeId, i: int| 0 <= i < s.queue_of(n).len() implies #[trigger] s.queue_of(n)[i] != v by {
                assert(s.vehicle_map().contains_key(s.queue_of(n)[i]));
            }
            assert forall|r: RoadId, l: int, i: int| 0 <= i < s.lane_of(r, l).len() implies #[trigger] s.lane_of(r, l)[i] != v by {
                assert(s.vehicle_map().contains_key(s.lane_of(r, l)[i]));
            }
            assert forall|n: NodeId, i: int|
                #![trigger self.queue_of(n)[i]]
                0 <= i < self.queue_of(n).len() implies {
                    let x = self.queue_of(n)[i];
                    &&& self.vehicle_map().contains_key(x)
                    &&& self.vehicle_map()[x].status == VehicleStatus::WaitingAtNode(n)
                } by {
                let x = self.queue_of(n)[i];
                if vh.status == VehicleStatus::WaitingAtNode(n) && i == s.queue_of(n).len() {
                    assert(x == v);
                } else {
                    assert(x == s.queue_of(n)[i]);
                    assert(s.vehicle_map().contains_key(x));
                }
            }
            assert forall|r: RoadId, l: int, i: int|
                #![trigger self.lane_of(r, l)[i]]
                0 <= i < self.lane_of(r, l).len() implies {
                    let x = self.lane_of(r, l)[i];
                    &&& self.vehicle_map().contains_key(x)
                    &&& self.vehicle_map()[x].status matches VehicleStatus::OnRoad {
                        road_id,
                        lane_index,
                        ..
                    } && road_id == r && lane_index == l
                } by {
                let x = self.lane_of(r, l)[i];
                if (vh.status matches VehicleStatus::OnRoad { road_id, lane_index, .. } && road_id == r && lane_index == l) && i == s.lane_of(r, l).len() {
                    assert(x == v);
                } else {
                    assert(x == s.lane_of(r, l)[i]);
                    assert(s.vehicle_map().contains_key(x));
                }
            }
            assert forall|w: VehicleId|
                #![trigger self.vehicle_map()[w]]
                self.vehicle_map().contains_key(w) implies match self.vehicle_map()[w].status {
                    VehicleStatus::WaitingAtNode(n) => self.queue_of(n).contains(w),
                    VehicleStatus::OnRoad { road_id, lane_index, .. } => {
                        &&& lane_index < self.lane_count(road_id)
                        &&& self.lane_of(road_id, lane_index as int).contains(w)
                    },
                    VehicleStatus::Finished => true,
                } by {
                if w == v {
                    match vh.status {
                        VehicleStatus::WaitingAtNode(n) => {
                            assert(self.queue_of(n)[s.queue_of(n).len() as int] == v);
                        },
                        VehicleStatus::OnRoad { road_id: r, lane_index: l, .. } => {
                            assert(self.lane_of(r, l as int)[s.lane_of(r, l as int).len() as int] == v);
                        },
                        VehicleStatus::Finished => {},
                    }
                } else {
                    assert(s.vehicle_map().contains_key(w));
                    match s.vehicle_map()[w].status {
                        VehicleStatus::WaitingAtNode(n) => {
                            let j = choose|j: int| 0 <= j < s.queue_of(n).len() && s.queue_of(n)[j] == w;
                            assert(self.queue_of(n)[j] == w);
                        },
                        VehicleStatus::OnRoad { road_id: r, lane_index: l, .. } => {
                            let j = choose|j: int| 0 <= j < s.lane_of(r, l as int).len() && s.lane_of(r, l as int)[j] == w;
                            assert(self.lane_of(r, l as int)[j] == w);
                        },
                        VehicleStatus::Finished => {},
                    }
                }
            }
            assert forall|n: NodeId| #[trigger] self.queue_of(n).no_duplicates() by {
                assert(s.queue_of(n).no_duplicates());
                if vh.status == VehicleStatus::WaitingAtNode(n) {
                    assert forall|a: int, b: int|
                        0 <= a < self.queue_of(n).len() && 0 <= b < self.queue_of(n).len() && a != b
                        implies self.queue_of(n)[a] != self.queue_of(n)[b] by {
                        if a < s.queue_of(n).len() {
                            assert(self.queue_of(n)[a] == s.queue_of(n)[a]);
                        }
                        if b < s.queue_of(n).len() {
                            assert(self.queue_of(n)[b] == s.queue_of(n)[b]);
                        }
                    }
                }
            }
            assert forall|r: RoadId, l: int| #[trigger] self.lane_of(r, l).no_duplicates() by {
                assert(s.lane_of(r, l).no_duplicates());
                if vh.status matches VehicleStatus::OnRoad { road_id, lane_index, .. } && road_id == r && lane_index == l {
                    assert forall|a: int, b: int|
                        0 <= a < self.lane_of(r, l).len() && 0 <= b < self.lane_of(r, l).len() && a != b
                        implies self.lane_of(r, l)[a] != self.lane_of(r, l)[b] by {
                        if a < s.lane_of(r, l).len() {
                            assert(self.lane_of(r, l)[a] == s.lane_of(r, l)[a]);
                        }
                        if b < s.lane_of(r, l).len() {
                            assert(self.lane_of(r, l)[b] == s.lane_of(r, l)[b]);
                        }
                    }
                }
            }
            assert(self.locations_agree());
            assert(self.wf());
        }
    }

    /// A vehicle can be placed as it stands: its identifier is new, its route
    /// runs over roads of the network, and a vehicle on a road is in one of
    /// that road's lanes.
    pub open spec fn placeable(&self, vehicle: Vehicle) -> bool {
        &&& !self.vehicle_map().contains_key(vehicle.id)
        &&& forall|i: int|
            0 <= i < vehicle.route@.len() ==> self.net().road_map().contains_key(#[trigger] vehicle.route@[i])
        &&& vehicle.status matches VehicleStatus::OnRoad { road_id, lane_index, .. }
            ==> lane_index < self.lane_count(road_id)
    }

    /// Puts a vehicle into the simulation as it stands: into the queue of the
    /// node it waits at, or at the back of the lane it drives in. Later
    /// spawns get identifiers above its own. A vehicle that cannot be placed
    /// (see `placeable`) leaves the simulation unchanged.
    pub fn insert_vehicle(&mut self, vehicle: Vehicle) -> (inserted: bool)
        requires
            old(self).wf(),
            vehicle.id < usize::MAX,
        ensures
            final(self).wf(),
            inserted == old(self).placeable(vehicle),
            !inserted ==> *final(self) == *old(self),
            inserted ==> {
                &&& final(self).vehicle_map() == old(self).vehicle_map().insert(vehicle.id, vehicle)
                &&& final(self).next_id() == if vehicle.id < old(self).next_id() {
                    old(self).next_id()
                } else {
                    (vehicle.id + 1) as usize
                }
                &&& forall|n: NodeId| #[trigger] final(self).queue_of(n) == if vehicle.status == VehicleStatus::WaitingAtNode(n) {
                    old(self).queue_of(n).push(vehicle.id)
                } else {
                    old(self).queue_of(n)
                }
                &&& forall|r: RoadId, l: int| #[trigger] final(self).lane_of(r, l) == if vehicle.status matches VehicleStatus::OnRoad { road_id, lane_index, .. } && road_id == r && lane_index == l {
                    old(self).lane_of(r, l).push(vehicle.id)
                } else {
                    old(self).lane_of(r, l)
                }
                &&& final(self).net() == old(self).net()
                &&& final(self).scheduled() == old(self).scheduled()
                &&& final(self).now() == old(self).now()
                &&& final(self).threshold() == old(self).threshold()
                &&& final(self).signal_map() == old(self).signal_map()
            },
    {
        if self.vehicles.contains_key(vehicle.id) {
            return false;
        }
        let mut i: usize = 0;
        while i < vehicle.route.len()
            invariant
                self.wf(),
                i <= vehicle.route@.len(),
                forall|j: int| 0 <= j < i ==> self.net().road_map().contains_key(#[trigger] vehicle.route@[j]),
            decreases vehicle.route@.len() - i,
        {
            proof {
                self.network.lemma_views();
            }
            if self.network.road(vehicle.route[i]).is_none() {
                return false;
            }
            i = i + 1;
        }
        match vehicle.status {
            VehicleStatus::OnRoad { road_id, lane_index, .. } => {
                match self.road_runtime.find(road_id) {
                    Some(ri) => {
                        if lane_index >= self.road_runtime.entries[ri].1.lanes.len() {
                            return false;
                        }
                    },
                    None => {
                        return false;
                    },
                }
            },
            _ => {},
        }
        let ghost s0 = *self;
        if vehicle.id >= self.next_vehicle_id {
            self.next_vehicle_id = vehicle.id + 1;
            proof {
                Self::lemma_places_agree(s0, *self);
            }
        }
        self.place_vehicle(vehicle);
        true
    }
}

impl Simulation {
    /// Lane `l` of road `r` has room for one more vehicle.
    pub open spec fn lane_has_room(&self, r: RoadId, l: int) -> bool {
        self.lane_of(r, l).len() < self.net().road_map()[r].capacity_per_lane
    }

    /// Lane `l` is the lane with the fewest vehicles among the lanes of road
    /// `r` that `eligible` accepts, the first such lane where several tie.
    pub open spec fn least_loaded(&self, r: RoadId, l: int, eligible: spec_fn(int) -> bool) -> bool {
        &&& 0 <= l < self.lane_count(r)
        &&& eligible(l)
        &&& forall|m: int|
            0 <= m < self.lane_count(r) && eligible(m) ==> {
                ||| self.lane_of(r, l).len() < #[trigger] self.lane_of(r, m).len()
                ||| (self.lane_of(r, l).len() == self.lane_of(r, m).len() && l <= m)
            }
    }

    /// The emptiest lane of road `road_id` that has room, the first one
    /// where several tie; `None` where no lane has room or the network lacks
    /// the road.
    pub fn find_lane_with_capacity(&self, road_id: RoadId) -> (lane: Option<usize>)
        requires
            self.wf(),
        ensures
            match lane {
                Some(l) => self.net().road_map().contains_key(road_id)
                    && self.least_loaded(road_id, l as int, |m: int| self.lane_has_room(road_id, m)),
                None => !self.net().road_map().contains_key(road_id) || forall|m: int|
                    0 <= m < self.lane_count(road_id) ==> !#[trigger] self.lane_has_room(road_id, m),
            },
    {
        let road = match self.network.road(road_id) {
            Some(road) => road,
            None => {
                return None;
            },
        };
        proof {
            lemma_entries(self.road_runtime.entries@);
            self.network.lemma_views();
            assert(self.road_runtime.keys().contains(road_id));
            let j = choose|j: int| 0 <= j < self.road_runtime.keys().len() && self.road_runtime.keys()[j] == road_id;
            assert(self.road_runtime.entries@[j].0 == road_id);
        }
        let ri = self.road_runtime.find(road_id).unwrap();
        let lanes = &self.road_runtime.entries[ri].1.lanes;
        let mut best: Option<usize> = None;
        let mut l: usize = 0;
        while l < lanes.len()
            invariant
                self.wf(),
                self.net().road_map().contains_key(road_id),
                *road == self.net().road_map()[road_id],
                *lanes == self.road_runtime@[road_id].lanes,
                self.road_runtime@.contains_key(road_id),
                lanes@.len() == self.lane_count(road_id),
                l <= lanes@.len(),
                match best {
                    Some(b) => b < l && self.lane_has_room(road_id, b as int) && forall|m: int|
                        0 <= m < l && self.lane_has_room(road_id, m) ==> {
                            ||| self.lane_of(road_id, b as int).len() < #[trigger] self.lane_of(road_id, m).len()
                            ||| (self.lane_of(road_id, b as int).len() == self.lane_of(road_id, m).len() && b <= m)
                        },
                    None => forall|m: int| 0 <= m < l ==> !#[trigger] self.lane_has_room(road_id, m),
                },
            decreases lanes@.len() - l,
        {
            proof {
                assert(self.lane_of(road_id, l as int) == lanes@[l as int]@);
            }
            let len = lanes[l].len();
            if len < road.capacity_per_lane {
                match best {
                    Some(b) => {
                        proof {
                            assert(self.lane_of(road_id, b as int) == lanes@[b as int]@);
                        }
                        if len < lanes[b].len() {
                            best = Some(l);
                        }
                    },
                    None => {
                        best = Some(l);
                    },
                }
            }
            l = l + 1;
        }
        best
    }

    /// The emptiest lane of road `road_id`, room or not, the first one where
    /// several tie; `None` where the simulation keeps no lane for it.
    pub fn find_lane_for_emergency_release(&self, road_id: RoadId) -> (lane: Option<usize>)
        requires
            self.wf(),
        ensures
            match lane {
                Some(l) => self.least_loaded(road_id, l as int, |m: int| true),
                None => self.lane_count(road_id) == 0,
            },
    {
        proof {
            lemma_entries(self.road_runtime.entries@);
        }
        let ri = match self.road_runtime.find(road_id) {
            Some(ri) => ri,
            None => {
                return None;
            },
        };
        let lanes = &self.road_runtime.entries[ri].1.lanes;
        let mut best: Option<usize> = None;
        let mut l: usize = 0;
        while l < lanes.len()
            invariant
                self.wf(),
                *lanes == self.road_runtime@[road_id].lanes,
                self.road_runtime@.contains_key(road_id),
                lanes@.len() == self.lane_count(road_id),
                l <= lanes@.len(),
                match best {
                    Some(b) => b < l && forall|m: int|
                        0 <= m < l ==> {
                            ||| self.lane_of(road_id, b as int).len() < #[trigger] self.lane_of(road_id, m).len()
                            ||| (self.lane_of(road_id, b as int).len() == self.lane_of(road_id, m).len() && b <= m)
                        },
                    None => l == 0,
                },
            decreases lanes@.len() - l,
        {
            proof {
                assert(self.lane_of(road_id, l as int) == lanes@[l as int]@);
            }
            match best {
                Some(b) => {
                    proof {
                        assert(self.lane_of(road_id, b as int) == lanes@[b as int]@);
                    }
                    if lanes[l].len() < lanes[b].len() {
                        best = Some(l);
                    }
                },
                None => {
                    best = Some(l);
                },
            }
            l = l + 1;
        }
        best
    }

    /// The vehicle at position `pos` of the queue of `node_id` enters lane
    /// `lane_index` of road `road_id` for the road's travel time.
    pub fn enter_road(
        &mut self,
        node_id: NodeId,
        pos: usize,
        road_id: RoadId,
        lane_index: usize,
        events: &mut Vec<SimulationEvent>,
    )
        requires
            old(self).wf(),
            pos < old(self).queue_of(node_id).len(),
            old(self).net().road_map().contains_key(road_id),
            lane_index < old(self).lane_count(road_id),
            old(self).vehicle_map()[old(self).queue_of(node_id)[pos as int]].next_road_index
                < old(self).vehicle_map()[old(self).queue_of(node_id)[pos as int]].route@.len(),
        ensures
            final(self).wf(),
            ({
                let v = old(self).queue_of(node_id)[pos as int];
                &&& final(self).vehicle_map() == old(self).vehicle_map().insert(
                    v,
                    Vehicle {
                        next_road_index: (old(self).vehicle_map()[v].next_road_index + 1) as usize,
                        status: VehicleStatus::OnRoad {
                            road_id,
                            lane_index,
                            remaining_time: spec_travel_time(old(self).net().road_map()[road_id]),
                        },
                        ..old(self).vehicle_map()[v]
                    },
                )
                &&& final(self).lane_of(road_id, lane_index as int) == old(self).lane_of(road_id, lane_index as int).push(v)
                &&& final(events)@ == old(events)@.push(SimulationEvent::EnteredRoad { vehicle_id: v, road_id, lane_index })
            }),
            final(self).queue_of(node_id) == old(self).queue_of(node_id).remove(pos as int),
            forall|n: NodeId| n != node_id ==> #[trigger] final(self).queue_of(n) == old(self).queue_of(n),
            forall|r: RoadId, l: int| !(r == road_id && l == lane_index) ==> #[trigger] final(self).lane_of(r, l) == old(self).lane_of(r, l),
            forall|r: RoadId| #[trigger] final(self).lane_count(r) == old(self).lane_count(r),
            final(self).unchanged_but_places(*old(self)),
            final(self).counters_not_above(*old(self)),
            final(self).finished_kept(*old(self)),
            final(self).totals_kept(*old(self)),
            final(self).only_moved(*old(self), node_id, old(self).queue_of(node_id)[pos as int]),
    {
        let travel_time = match self.network.road(road_id) {
            Some(road) => road.travel_time_seconds(),
            None => 1,
        };
        let vehicle_id = self.depart(node_id, pos, road_id, lane_index, travel_time);
        events.push(SimulationEvent::EnteredRoad { vehicle_id, road_id, lane_index });
    }

    /// Like `enter_road`, for a vehicle that the simulation moves on to get
    /// it out of a jam; the lane may already be full.
    pub fn enter_road_emergency(
        &mut self,
        node_id: NodeId,
        pos: usize,
        road_id: RoadId,
        lane_index: usize,
        reason: String,
        events: &mut Vec<SimulationEvent>,
    )
        requires
            old(self).wf(),
            pos < old(self).queue_of(node_id).len(),
            old(self).net().road_map().contains_key(road_id),
            lane_index < old(self).lane_count(road_id),
            old(self).vehicle_map()[old(self).queue_of(node_id)[pos as int]].next_road_index
                < old(self).vehicle_map()[old(self).queue_of(node_id)[pos as int]].route@.len(),
        ensures
            final(self).wf(),
            ({
                let v = old(self).queue_of(node_id)[pos as int];
                &&& final(self).vehicle_map() == old(self).vehicle_map().insert(
                    v,
                    Vehicle {
                        next_road_index: (old(self).vehicle_map()[v].next_road_index + 1) as usize,
                        status: VehicleStatus::OnRoad {
                            road_id,
                            lane_index,
                            remaining_time: spec_travel_time(old(self).net().road_map()[road_id]),
                        },
                        ..old(self).vehicle_map()[v]
                    },
                )
                &&& final(self).lane_of(road_id, lane_index as int) == old(self).lane_of(road_id, lane_index as int).push(v)
                &&& final(events)@ == old(events)@.push(SimulationEvent::EmergencyEnteredRoad { vehicle_id: v, road_id, lane_index, reason })
            }),
            final(self).queue_of(node_id) == old(self).queue_of(node_id).remove(pos as int),
            forall|n: NodeId| n != node_id ==> #[trigger] final(self).queue_of(n) == old(self).queue_of(n),
            forall|r: RoadId, l: int| !(r == road_id && l == lane_index) ==> #[trigger] final(self).lane_of(r, l) == old(self).lane_of(r, l),
            forall|r: RoadId| #[trigger] final(self).lane_count(r) == old(self).lane_count(r),
            final(self).unchanged_but_places(*old(self)),
            final(self).counters_not_above(*old(self)),
            final(self).finished_kept(*old(self)),
            final(self).totals_kept(*old(self)),
            final(self).only_moved(*old(self), node_id, old(self).queue_of(node_id)[pos as int]),
    {
        let travel_time = match self.network.road(road_id) {
            Some(road) => road.travel_time_seconds(),
            None => 1,
        };
        let vehicle_id = self.depart(node_id, pos, road_id, lane_index, travel_time);
        events.push(SimulationEvent::EmergencyEnteredRoad { vehicle_id, road_id, lane_index, reason });
    }

    /// Vehicle `v` is at the front of the lane its status names.
    pub open spec fn at_lane_front(&self, v: VehicleId) -> bool {
        &&& self.vehicle_map()[v].status matches VehicleStatus::OnRoad { road_id, lane_index, .. }
            && self.lane_of(road_id, lane_index as int).len() > 0
            && self.lane_of(road_id, lane_index as int)[0] == v
    }

    /// Lane `l` of road `r` comes before lane `cl` of road `cr` in the order
    /// the lanes are visited: by road, then by lane.
    pub open spec fn lane_before(r: RoadId, l: int, cr: int, cl: int) -> bool {
        r < cr || (r == cr && l < cl)
    }

    /// The road the `k`-th kept road runtime belongs to, and past the last
    /// one a bound above every road.
    pub closed spec fn road_at(&self, k: int) -> int {
        if 0 <= k < self.road_runtime.entries@.len() {
            self.road_runtime.entries@[k].0 as int
        } else {
            usize::MAX + 1
        }
    }

    /// Vehicles in lanes before lane `cl` of road `cr` that were at the
    /// front in `s0` have moved one tick; every other vehicle is as in `s0`;
    /// the lanes from there on are as in `s0`.
    pub open spec fn fronts_moved_upto(&self, s0: Simulation, cr: int, cl: int) -> bool {
        &&& forall|r: RoadId, l: int| !Self::lane_before(r, l, cr, cl) ==> #[trigger] self.lane_of(r, l) == s0.lane_of(r, l)
        &&& forall|v: VehicleId|
            #![trigger s0.vehicle_map()[v]]
            s0.vehicle_map().contains_key(v) ==> self.vehicle_map()[v] == if s0.at_lane_front(v)
                && Self::lane_before(
                s0.vehicle_map()[v].status->OnRoad_road_id,
                s0.vehicle_map()[v].status->OnRoad_lane_index as int,
                cr,
                cl,
            ) {
                front_moved(
                    s0.vehicle_map()[v],
                    s0.now(),
                    s0.net().road_map()[s0.vehicle_map()[v].status->OnRoad_road_id].to,
                )
            } else {
                s0.vehicle_map()[v]
            }
    }

    /// What moving the front of lane `l` of road `r` reports: a vehicle that
    /// leaves the road finishes at the end of its route and otherwise reaches
    /// the road's end node; a vehicle that stays reports nothing.
    pub open spec fn front_event(&self, r: RoadId, l: int) -> Seq<SimulationEvent> {
        if self.lane_of(r, l).len() > 0 {
            let v = self.lane_of(r, l)[0];
            let vehicle = self.vehicle_map()[v];
            if vehicle.status->OnRoad_remaining_time <= 1 {
                if vehicle.next_road_index >= vehicle.route@.len() {
                    seq![
                        SimulationEvent::Completed {
                            vehicle_id: v,
                            destination: vehicle.destination,
                            wait_time: vehicle.total_wait_time,
                            travel_time: vehicle.total_travel_time,
                        },
                    ]
                } else {
                    seq![SimulationEvent::ReachedNode { vehicle_id: v, node_id: self.net().road_map()[r].to }]
                }
            } else {
                Seq::empty()
            }
        } else {
            Seq::empty()
        }
    }

    /// What moving the fronts of the first `n` lanes of road `r` reports.
    pub open spec fn road_front_events(&self, r: RoadId, n: int) -> Seq<SimulationEvent>
        decreases n,
    {
        if n <= 0 {
            Seq::empty()
        } else {
            self.road_front_events(r, n - 1) + self.front_event(r, n - 1)
        }
    }

    /// What moving the fronts of every lane of the first `k` roads, in
    /// increasing identifier, reports.
    pub open spec fn fronts_events(&self, k: int) -> Seq<SimulationEvent>
        decreases k,
    {
        if k <= 0 {
            Seq::empty()
        } else {
            let r = self.net().road_ids()[k - 1];
            self.fronts_events(k - 1) + self.road_front_events(r, self.lane_count(r))
        }
    }

    /// The vehicle that moving the front of lane `l` of road `r` brings to
    /// the back of the queue of node `n`: a front vehicle that reaches the end
    /// of the road, with more of its route ahead, at a road that ends at `n`.
    pub open spec fn front_arrival(&self, r: RoadId, l: int, n: NodeId) -> Seq<VehicleId> {
        if self.lane_of(r, l).len() > 0 {
            let v = self.lane_of(r, l)[0];
            let vehicle = self.vehicle_map()[v];
            if vehicle.status->OnRoad_remaining_time <= 1 && vehicle.next_road_index < vehicle.route@.len()
                && self.net().road_map()[r].to == n {
                seq![v]
            } else {
                Seq::empty()
            }
        } else {
            Seq::empty()
        }
    }

    /// The vehicles that moving the fronts of the first `k` lanes of road `r`
    /// brings to the back of the queue of `n`, in lane order.
    pub open spec fn road_arrivals(&self, r: RoadId, k: int, n: NodeId) -> Seq<VehicleId>
        decreases k,
    {
        if k <= 0 {
            Seq::empty()
        } else {
            self.road_arrivals(r, k - 1, n) + self.front_arrival(r, k - 1, n)
        }
    }

    /// The vehicles that moving the fronts of every lane of the first `k`
    /// roads, in increasing identifier, brings to the back of the queue of
    /// `n`, in that order.
    pub open spec fn fronts_arrivals(&self, k: int, n: NodeId) -> Seq<VehicleId>
        decreases k,
    {
        if k <= 0 {
            Seq::empty()
        } else {
            let r = self.net().road_ids()[k - 1];
            self.fronts_arrivals(k - 1, n) + self.road_arrivals(r, self.lane_count(r), n)
        }
    }

    /// Moving the front of lane `l` of road `r` extends the moved lanes by
    /// that lane.
    proof fn lemma_front_step(s0: Simulation, before: Simulation, after: Simulation, r: RoadId, l: int, v: VehicleId)
        requires
            s0.wf(),
            before.fronts_moved_upto(s0, r as int, l),
            before.lane_of(r, l).len() > 0,
            v == before.lane_of(r, l)[0],
            after.vehicle_map() == before.vehicle_map().insert(
                v,
                front_moved(before.vehicle_map()[v], s0.now(), s0.net().road_map()[r].to),
            ),
            forall|r2: RoadId, l2: int| !(r2 == r && l2 == l) ==> #[trigger] after.lane_of(r2, l2) == before.lane_of(r2, l2),
        ensures
            after.fronts_moved_upto(s0, r as int, l + 1),
    {
        assert(before.lane_of(r, l) == s0.lane_of(r, l));
        assert(s0.lane_of(r, l)[0] == v);
        assert(s0.vehicle_map().contains_key(v));
        assert(s0.vehicle_map()[v].status matches VehicleStatus::OnRoad { road_id, lane_index, .. }
            && road_id == r && lane_index == l);
        assert(s0.at_lane_front(v));
        assert forall|v2: VehicleId|
            #![trigger s0.vehicle_map()[v2]]
            s0.vehicle_map().contains_key(v2) implies after.vehicle_map()[v2] == if s0.at_lane_front(v2)
                && Self::lane_before(
                s0.vehicle_map()[v2].status->OnRoad_road_id,
                s0.vehicle_map()[v2].status->OnRoad_lane_index as int,
                r as int,
                l + 1,
            ) {
                front_moved(
                    s0.vehicle_map()[v2],
                    s0.now(),
                    s0.net().road_map()[s0.vehicle_map()[v2].status->OnRoad_road_id].to,
                )
            } else {
                s0.vehicle_map()[v2]
            } by {
            if v2 == v {
                assert(before.vehicle_map()[v] == s0.vehicle_map()[v]);
            } else {
                assert(after.vehicle_map()[v2] == before.vehicle_map()[v2]);
                if s0.at_lane_front(v2) {
                    let r2 = s0.vehicle_map()[v2].status->OnRoad_road_id;
                    let l2 = s0.vehicle_map()[v2].status->OnRoad_lane_index as int;
                    if r2 == r && l2 == l {
                        assert(s0.lane_of(r, l)[0] == v2);
                    }
                }
            }
        }
    }

    /// An empty lane has no front to move.
    proof fn lemma_empty_lane_step(s0: Simulation, s: Simulation, r: RoadId, l: int)
        requires
            s.fronts_moved_upto(s0, r as int, l),
            s.lane_of(r, l).len() == 0,
        ensures
            s.fronts_moved_upto(s0, r as int, l + 1),
    {
        assert(s.lane_of(r, l) == s0.lane_of(r, l));
        assert forall|v2: VehicleId|
            #![trigger s0.vehicle_map()[v2]]
            s0.vehicle_map().contains_key(v2) implies s.vehicle_map()[v2] == if s0.at_lane_front(v2)
                && Self::lane_before(
                s0.vehicle_map()[v2].status->OnRoad_road_id,
                s0.vehicle_map()[v2].status->OnRoad_lane_index as int,
                r as int,
                l + 1,
            ) {
                front_moved(
                    s0.vehicle_map()[v2],
                    s0.now(),
                    s0.net().road_map()[s0.vehicle_map()[v2].status->OnRoad_road_id].to,
                )
            } else {
                s0.vehicle_map()[v2]
            } by {
            if s0.at_lane_front(v2) {
                let r2 = s0.vehicle_map()[v2].status->OnRoad_road_id;
                let l2 = s0.vehicle_map()[v2].status->OnRoad_lane_index as int;
                assert(!(r2 == r && l2 == l));
            }
        }
    }

    /// Lane `l` of road `r` once its front has moved one tick: without its
    /// front where the front's time on the road ran out.
    pub open spec fn lane_after_front(&self, r: RoadId, l: int) -> Seq<VehicleId> {
        let lane = self.lane_of(r, l);
        if lane.len() > 0 && self.vehicle_map()[lane[0]].status->OnRoad_remaining_time <= 1 {
            lane.drop_first()
        } else {
            lane
        }
    }

    /// The lanes visited before lane `cl` of road `cr` have moved their
    /// fronts.
    pub open spec fn lanes_moved_upto(&self, s0: Simulation, cr: int, cl: int) -> bool {
        forall|r: RoadId, l: int| Self::lane_before(r, l, cr, cl) ==> #[trigger] self.lane_of(r, l) == s0.lane_after_front(r, l)
    }

    /// Once every lane of the road at position `ri` is done, the lanes of the
    /// next road come: those in between hold no vehicle.
    proof fn lemma_next_road_lanes(s0: Simulation, s: Simulation, ri: int, lanes: int)
        requires
            s0.wf(),
            0 <= ri < s0.road_runtime.entries@.len(),
            lanes == s0.lane_count(s0.road_runtime.entries@[ri].0),
            s.fronts_moved_upto(s0, s0.road_at(ri), lanes),
            s.lanes_moved_upto(s0, s0.road_at(ri), lanes),
        ensures
            s.lanes_moved_upto(s0, s0.road_at(ri + 1), 0),
    {
        let es = s0.road_runtime.entries@;
        lemma_entries(es);
        let cr = s0.road_at(ri);
        let nr = s0.road_at(ri + 1);
        assert forall|r: RoadId, l: int| Self::lane_before(r, l, nr, 0) implies #[trigger] s.lane_of(r, l)
            == s0.lane_after_front(r, l) by {
            if !Self::lane_before(r, l, cr, lanes) {
                assert(s.lane_of(r, l) == s0.lane_of(r, l));
                if s0.lane_of(r, l).len() > 0 {
                    assert(s0.road_runtime@.contains_key(r));
                    let k = crate::idmap::index_of(es, r);
                    assert(es[k].0 == r);
                    if k < ri {
                        assert(es[k].0 < es[ri].0);
                    } else if k > ri {
                        if ri + 1 < k {
                            assert(es[ri + 1].0 < es[k].0);
                        }
                    } else {
                        assert(l < s0.lane_count(r));
                    }
                }
            }
        }
    }

    /// Once every lane of the road at position `ri` is done, the next road
    /// comes.
    proof fn lemma_next_road(s0: Simulation, s: Simulation, ri: int, lanes: int)
        requires
            s0.wf(),
            0 <= ri < s0.road_runtime.entries@.len(),
            lanes == s0.lane_count(s0.road_runtime.entries@[ri].0),
            s.fronts_moved_upto(s0, s0.road_at(ri), lanes),
        ensures
            s.fronts_moved_upto(s0, s0.road_at(ri + 1), 0),
    {
        let es = s0.road_runtime.entries@;
        lemma_entries(es);
        let cr = s0.road_at(ri);
        let nr = s0.road_at(ri + 1);
        assert(cr < nr) by {
            if ri + 1 < es.len() {
                assert(es[ri].0 < es[ri + 1].0);
            }
        }
        assert forall|r: RoadId, l: int| !Self::lane_before(r, l, nr, 0) implies #[trigger] s.lane_of(r, l) == s0.lane_of(r, l) by {
            assert(!Self::lane_before(r, l, cr, lanes));
        }
        assert forall|v2: VehicleId|
            #![trigger s0.vehicle_map()[v2]]
            s0.vehicle_map().contains_key(v2) implies s.vehicle_map()[v2] == if s0.at_lane_front(v2)
                && Self::lane_before(
                s0.vehicle_map()[v2].status->OnRoad_road_id,
                s0.vehicle_map()[v2].status->OnRoad_lane_index as int,
                nr,
                0,
            ) {
                front_moved(
                    s0.vehicle_map()[v2],
                    s0.now(),
                    s0.net().road_map()[s0.vehicle_map()[v2].status->OnRoad_road_id].to,
                )
            } else {
                s0.vehicle_map()[v2]
            } by {
            if s0.at_lane_front(v2) {
                let r2 = s0.vehicle_map()[v2].status->OnRoad_road_id;
                let l2 = s0.vehicle_map()[v2].status->OnRoad_lane_index as int;
                assert(s0.lane_of(r2, l2).len() > 0);
                assert(s0.road_runtime@.contains_key(r2));
                let k = crate::idmap::index_of(es, r2);
                assert(es[k].0 == r2);
                if k < ri {
                    assert(es[k].0 < es[ri].0);
                } else if k > ri {
                    if ri + 1 < k {
                        assert(es[ri + 1].0 < es[k].0);
                    }
                } else {
                    assert(l2 < s0.lane_count(r2));
                }
            }
        }
    }

    /// Moves the front vehicle of every lane one tick along, road by road in
    /// increasing identifier and lane by lane: a vehicle whose time on the
    /// road runs out leaves it, finishing at the end of its route and
    /// otherwise joining the queue of the road's end node. Vehicles behind
    /// the front of their lane, and vehicles off the roads, stay as they are.
    #[verifier::spinoff_prover]
    pub fn advance_road_fronts(&mut self, events: &mut Vec<SimulationEvent>)
        requires
            old(self).wf(),
            old(self).now() < u32::MAX,
        ensures
            final(self).wf(),
            final(self).unchanged_but_places(*old(self)),
            final(self).counters_not_above(*old(self)),
            final(self).finished_kept(*old(self)),
            final(self).totals_kept(*old(self)),
            final(self).vehicle_map().dom() == old(self).vehicle_map().dom(),
            final(events)@ == old(events)@ + old(self).fronts_events(old(self).net().road_ids().len() as int),
            forall|r: RoadId, l: int| #[trigger] final(self).lane_of(r, l) == old(self).lane_after_front(r, l),
            forall|n: NodeId|
                #[trigger] final(self).queue_of(n) == old(self).queue_of(n) + old(self).fronts_arrivals(
                    old(self).net().road_ids().len() as int,
                    n,
                ),
            forall|v: VehicleId|
                #![trigger old(self).vehicle_map()[v]]
                old(self).vehicle_map().contains_key(v) ==> final(self).vehicle_map()[v] == if old(self).at_lane_front(v) {
                    front_moved(
                        old(self).vehicle_map()[v],
                        old(self).now(),
                        old(self).net().road_map()[old(self).vehicle_map()[v].status->OnRoad_road_id].to,
                    )
                } else {
                    old(self).vehicle_map()[v]
                },
    {
        let ghost s0 = *self;
        let ghost e0 = events@;
        proof {
            lemma_entries(s0.road_runtime.entries@);
        }
        let mut ri: usize = 0;
        while ri < self.road_runtime.entries.len()
            invariant
                self.wf(),
                self.unchanged_but_places(s0),
                self.counters_not_above(s0),
                self.finished_kept(s0),
                self.totals_kept(s0),
                s0.now() < u32::MAX,
                self.vehicle_map().dom() == s0.vehicle_map().dom(),
                self.road_runtime.entries@.len() == s0.road_runtime.entries@.len(),
                s0.wf(),
                ri <= s0.road_runtime.entries@.len(),
                forall|k: int| 0 <= k < s0.road_runtime.entries@.len() ==> #[trigger] self.road_runtime.entries@[k].0 == s0.road_runtime.entries@[k].0,
                self.fronts_moved_upto(s0, s0.road_at(ri as int), 0),
                self.lanes_moved_upto(s0, s0.road_at(ri as int), 0),
                s0.net().road_ids() == s0.road_runtime.keys(),
                events@ == e0 + s0.fronts_events(ri as int),
                forall|n: NodeId| #[trigger] self.queue_of(n) == s0.queue_of(n) + s0.fronts_arrivals(ri as int, n),
            decreases s0.road_runtime.entries@.len() - ri,
        {
            let road_id = self.road_runtime.entries[ri].0;
            let lane_count = self.road_runtime.entries[ri].1.lanes.len();
            proof {
                lemma_entries(self.road_runtime.entries@);
                assert(self.lane_count(road_id) == lane_count);
                assert(s0.road_at(ri as int) == road_id);
            }
            let mut l: usize = 0;
            while l < lane_count
                invariant
                    self.wf(),
                    self.unchanged_but_places(s0),
                    self.counters_not_above(s0),
                    self.finished_kept(s0),
                    self.totals_kept(s0),
                    s0.now() < u32::MAX,
                    self.vehicle_map().dom() == s0.vehicle_map().dom(),
                    self.lane_count(road_id) == lane_count,
                    self.road_runtime.entries@.len() == s0.road_runtime.entries@.len(),
                    s0.wf(),
                    ri < self.road_runtime.entries@.len(),
                    road_id == s0.road_runtime.entries@[ri as int].0,
                    forall|k: int| 0 <= k < s0.road_runtime.entries@.len() ==> #[trigger] self.road_runtime.entries@[k].0 == s0.road_runtime.entries@[k].0,
                    l <= lane_count,
                    self.fronts_moved_upto(s0, road_id as int, l as int),
                    self.lanes_moved_upto(s0, road_id as int, l as int),
                    s0.net().road_ids() == s0.road_runtime.keys(),
                    lane_count == s0.lane_count(road_id),
                    events@ == e0 + s0.fronts_events(ri as int) + s0.road_front_events(road_id, l as int),
                    forall|n: NodeId|
                        #[trigger] self.queue_of(n) == s0.queue_of(n) + s0.fronts_arrivals(ri as int, n)
                            + s0.road_arrivals(road_id, l as int, n),
                decreases lane_count - l,
            {
                let ghost before = *self;
                let ghost ev_before = events@;
                proof {
                    lemma_entries(self.road_runtime.entries@);
                    assert(self.road_runtime@.contains_key(road_id));
                }
                let ri2 = self.road_runtime.find(road_id).unwrap();
                if self.road_runtime.entries[ri2].1.lanes[l].len() > 0 {
                    proof {
                        assert(self.lane_of(road_id, l as int) == self.road_runtime.entries@[ri2 as int].1.lanes@[l as int]@);
                        self.network.lemma_views();
                        assert(self.road_runtime.keys()[ri2 as int] == road_id);
                        assert(self.network.road_ids()[ri2 as int] == road_id);
                    }
                    let to = match self.network.road(road_id) {
                        Some(road) => road.to,
                        None => 0,
                    };
                    let (vehicle_id, ready) = self.tick_lane_front(road_id, l);
                    proof {
                        Self::lemma_not_above_trans(s0, before, *self);
                        Self::lemma_finished_kept_trans(s0, before, *self);
                        Self::lemma_totals_kept_trans(s0, before, *self);
                    }
                    let ghost mid = *self;
                    if ready {
                        let (vehicle_id, finished) = self.leave_lane(road_id, l, to);
                        proof {
                            lemma_entries(self.vehicles.entries@);
                            Self::lemma_not_above_trans(s0, mid, *self);
                            Self::lemma_finished_kept_trans(s0, mid, *self);
                            Self::lemma_totals_kept_trans(s0, mid, *self);
                        }
                        let vi = self.vehicles.find(vehicle_id).unwrap();
                        if finished {
                            let vehicle = &self.vehicles.entries[vi].1;
                            events.push(SimulationEvent::Completed {
                                vehicle_id,
                                destination: vehicle.destination,
                                wait_time: vehicle.total_wait_time,
                                travel_time: vehicle.total_travel_time,
                            });
                        } else {
                            events.push(SimulationEvent::ReachedNode { vehicle_id, node_id: to });
                        }
                    }
                    proof {
                        assert(self.road_runtime.keys() == s0.road_runtime.keys());
                        assert(self.road_runtime.keys().len() == self.road_runtime.entries@.len());
                        assert(s0.road_runtime.keys().len() == s0.road_runtime.entries@.len());
                        assert forall|k: int| 0 <= k < s0.road_runtime.entries@.len() implies #[trigger] self.road_runtime.entries@[k].0
                            == s0.road_runtime.entries@[k].0 by {
                            assert(self.road_runtime.keys()[k] == s0.road_runtime.keys()[k]);
                        }
                        assert(self.vehicle_map().dom() =~= before.vehicle_map().dom());
                        assert(before.lane_of(road_id, l as int) == s0.lane_of(road_id, l as int));
                        assert(before.vehicle_map()[vehicle_id] == s0.vehicle_map()[vehicle_id]) by {
                            assert(s0.lane_of(road_id, l as int)[0] == vehicle_id);
                            assert(s0.vehicle_map().contains_key(vehicle_id));
                        }
                        assert(events@ =~= ev_before + s0.front_event(road_id, l as int));
                        assert(before.vehicle_map()[vehicle_id].status matches VehicleStatus::OnRoad { road_id: rr, lane_index: ll, .. }
                            && rr == road_id && ll == l);
                        assert(self.vehicle_map() =~= before.vehicle_map().insert(
                            vehicle_id,
                            front_moved(before.vehicle_map()[vehicle_id], s0.now(), s0.net().road_map()[road_id].to),
                        ));
                        Self::lemma_front_step(s0, before, *self, road_id, l as int, vehicle_id);
                        assert forall|r: RoadId, l2: int| Self::lane_before(r, l2, road_id as int, l + 1) implies
                            #[trigger] self.lane_of(r, l2) == s0.lane_after_front(r, l2) by {
                            if r == road_id && l2 == l {
                                assert(s0.lane_of(road_id, l as int)[0] == vehicle_id);
                                if ready {
                                    assert(self.lane_of(r, l2) == mid.lane_of(r, l2).drop_first());
                                } else {
                                    assert(self.lane_of(r, l2) == mid.lane_of(r, l2));
                                }
                            } else {
                                assert(self.lane_of(r, l2) == before.lane_of(r, l2));
                            }
                        }
                        assert forall|n: NodeId|
                            #[trigger] self.queue_of(n) == s0.queue_of(n) + s0.fronts_arrivals(ri as int, n)
                                + s0.road_arrivals(road_id, l + 1, n) by {
                            assert(s0.road_arrivals(road_id, l + 1, n) == s0.road_arrivals(road_id, l as int, n)
                                + s0.front_arrival(road_id, l as int, n));
                            assert(mid.queue_of(n) == before.queue_of(n));
                            assert(s0.lane_of(road_id, l as int)[0] == vehicle_id);
                            assert(self.queue_of(n) =~= before.queue_of(n) + s0.front_arrival(road_id, l as int, n));
                            assert(self.queue_of(n) =~= s0.queue_of(n) + s0.fronts_arrivals(ri as int, n)
                                + s0.road_arrivals(road_id, l + 1, n));
                        }
                    }
                } else {
                    proof {
                        assert(self.lane_of(road_id, l as int) == self.road_runtime.entries@[ri2 as int].1.lanes@[l as int]@);
                        Self::lemma_empty_lane_step(s0, *self, road_id, l as int);
                        assert forall|r: RoadId, l2: int| Self::lane_before(r, l2, road_id as int, l + 1) implies
                            #[trigger] self.lane_of(r, l2) == s0.lane_after_front(r, l2) by {
                            if r == road_id && l2 == l {
                                assert(s0.lane_of(r, l2) == self.lane_of(r, l2));
                            }
                        }
                        assert(self.lane_of(road_id, l as int) == s0.lane_of(road_id, l as int));
                        assert(events@ =~= ev_before + s0.front_event(road_id, l as int));
                        assert forall|n: NodeId|
                            #[trigger] self.queue_of(n) == s0.queue_of(n) + s0.fronts_arrivals(ri as int, n)
                                + s0.road_arrivals(road_id, l + 1, n) by {
                            assert(s0.front_arrival(road_id, l as int, n) =~= Seq::<VehicleId>::empty());
                            assert(s0.road_arrivals(road_id, l + 1, n) =~= s0.road_arrivals(road_id, l as int, n));
                        }
                    }
                }
                l = l + 1;
            }
            proof {
                Self::lemma_next_road_lanes(s0, *self, ri as int, lane_count as int);
                Self::lemma_next_road(s0, *self, ri as int, lane_count as int);
                assert(s0.net().road_ids()[ri as int] == road_id);
                assert(e0 + s0.fronts_events(ri + 1) =~= e0 + s0.fronts_events(ri as int) + s0.road_front_events(road_id, lane_count as int));
                assert forall|n: NodeId| #[trigger] self.queue_of(n) == s0.queue_of(n) + s0.fronts_arrivals(ri + 1, n) by {
                    assert(s0.fronts_arrivals(ri + 1, n) == s0.fronts_arrivals(ri as int, n)
                        + s0.road_arrivals(road_id, lane_count as int, n));
                    assert(s0.queue_of(n) + s0.fronts_arrivals(ri as int, n) + s0.road_arrivals(road_id, lane_count as int, n)
                        =~= s0.queue_of(n) + s0.fronts_arrivals(ri + 1, n));
                }
            }
            ri = ri + 1;
        }
        proof {
            assert forall|r: RoadId, l: int| #[trigger] self.lane_of(r, l) == s0.lane_after_front(r, l) by {
                assert(s0.road_at(ri as int) == usize::MAX + 1);
                assert(Self::lane_before(r, l, s0.road_at(ri as int), 0));
            }
            assert forall|v: VehicleId|
                #![trigger s0.vehicle_map()[v]]
                s0.vehicle_map().contains_key(v) implies self.vehicle_map()[v] == if s0.at_lane_front(v) {
                    front_moved(
                        s0.vehicle_map()[v],
                        s0.now(),
                        s0.net().road_map()[s0.vehicle_map()[v].status->OnRoad_road_id].to,
                    )
                } else {
                    s0.vehicle_map()[v]
                } by {
                if s0.at_lane_front(v) {
                    let r = s0.vehicle_map()[v].status->OnRoad_road_id;
                    assert(s0.lane_of(r, s0.vehicle_map()[v].status->OnRoad_lane_index as int).len() > 0);
                    assert(s0.road_runtime@.contains_key(r));
                    assert(s0.road_at(ri as int) == usize::MAX + 1);
                }
            }
        }
    }
}

} // verus!
