//! Releasing vehicles from node queues: finishing those at the end of their
//! route, letting through those whose next road is open and has room, and
//! getting around a jam those that have waited too long.
use vstd::prelude::*;
use vstd::string::*;
use crate::idmap::lemma_entries;
use crate::model::{Network, NodeId, RoadId, Vehicle, VehicleId, VehicleStatus, spec_priority_rank, spec_travel_time};
use crate::text::{decimal, spec_decimal};
use super::Simulation;
use super::events::SimulationEvent;
use super::routing::{RouteSearchOptions, escape_search, relaxed_escape_search};
use super::timing::counted;

verus! {

/// What a queue scan looks for.
#[derive(Clone, Copy, Debug, PartialEq, Eq, Structural)]
pub enum CandidateKind {
    /// A vehicle at the end of its route.
    Completion,
    /// A vehicle whose next road it may enter now and has a lane with room.
    Departure,
    /// A vehicle that has waited at least the deadlock threshold.
    Deadlock,
}

/// A queued vehicle that may leave, with what decides which leaves first.
#[derive(Clone, Copy, Debug, PartialEq, Eq, Structural)]
pub struct QueueCandidate {
    pub queue_index: usize,
    pub vehicle_id: VehicleId,
    pub next_road_id: Option<RoadId>,
    pub waiting_ticks: u32,
    pub rank: u8,
}

/// The road a vehicle takes next, if its route has one left.
pub open spec fn next_road_of(v: Vehicle) -> Option<RoadId> {
    if v.next_road_index < v.route@.len() {
        Some(v.route@[v.next_road_index as int])
    } else {
        None
    }
}

/// The vehicle that an event is about.
pub open spec fn event_vehicle(e: SimulationEvent) -> VehicleId {
    match e {
        SimulationEvent::Spawned { vehicle_id, .. } => vehicle_id,
        SimulationEvent::SpawnFailed { .. } => 0,
        SimulationEvent::SignalChanged { .. } => 0,
        SimulationEvent::EnteredRoad { vehicle_id, .. } => vehicle_id,
        SimulationEvent::Rerouted { vehicle_id, .. } => vehicle_id,
        SimulationEvent::EmergencyEnteredRoad { vehicle_id, .. } => vehicle_id,
        SimulationEvent::ReachedNode { vehicle_id, .. } => vehicle_id,
        SimulationEvent::Completed { vehicle_id, .. } => vehicle_id,
    }
}

/// Event `e` reports how a queued vehicle, `before`, became `after` on
/// leaving its queue: it finished at its destination, or entered a road and
/// lane, or was given a new route.
pub open spec fn reports_left(e: SimulationEvent, before: Vehicle, after: Vehicle) -> bool {
    match e {
        SimulationEvent::Completed { destination, wait_time, travel_time, .. } => {
            &&& after == Vehicle { status: VehicleStatus::Finished, ..before }
            &&& destination == before.destination
            &&& wait_time == before.total_wait_time
            &&& travel_time == before.total_travel_time
        },
        SimulationEvent::EnteredRoad { road_id, lane_index, .. } => after.status matches VehicleStatus::OnRoad {
            road_id: r,
            lane_index: l,
            ..
        } && r == road_id && l == lane_index,
        SimulationEvent::Rerouted { node_id, new_route, .. } => {
            &&& before.status == VehicleStatus::WaitingAtNode(node_id)
            &&& after.status is OnRoad
            &&& after.route@ == new_route@
        },
        SimulationEvent::EmergencyEnteredRoad { road_id, lane_index, .. } => after.status matches VehicleStatus::OnRoad {
            road_id: r,
            lane_index: l,
            ..
        } && r == road_id && l == lane_index,
        _ => false,
    }
}

/// `after` is what the queued vehicle `before` became on leaving its queue:
/// at the end of its route it finished; otherwise it drives the road before
/// its new next road, that of its own route or of a route found around a
/// jam, with the road's whole travel time ahead, and nothing else about it
/// has changed but its wait at the node.
pub open spec fn left_queue(net: Network, before: Vehicle, after: Vehicle) -> bool {
    ||| (next_road_of(before) is None && after == Vehicle { status: VehicleStatus::Finished, ..before })
    ||| {
        &&& after.status matches VehicleStatus::OnRoad { road_id, remaining_time, .. }
            && remaining_time == spec_travel_time(net.road_map()[road_id])
            && 1 <= after.next_road_index <= after.route@.len()
            && after.route@[after.next_road_index - 1] == road_id
        &&& after == Vehicle {
            route: after.route,
            next_road_index: after.next_road_index,
            waiting_ticks_at_node: after.waiting_ticks_at_node,
            status: after.status,
            ..before
        }
    }
}

impl Simulation {
    /// Every vehicle of `other` is as it was there, or was free to leave its
    /// queue there and has left it.
    pub open spec fn queue_moves_only(&self, other: Simulation) -> bool {
        forall|v: VehicleId|
            #![trigger other.vehicle_map()[v]]
            other.vehicle_map().contains_key(v) ==> {
                ||| self.vehicle_map()[v] == other.vehicle_map()[v]
                ||| (other.leaving(other.vehicle_map()[v]) && left_queue(
                    other.net(),
                    other.vehicle_map()[v],
                    self.vehicle_map()[v],
                ))
            }
    }

    /// Event `e` reports how a vehicle that was free to leave its queue in
    /// `s` has left it, as the vehicle stands in `t`.
    pub open spec fn reports_leaving(s: Simulation, t: Simulation, e: SimulationEvent) -> bool {
        let v = event_vehicle(e);
        &&& s.vehicle_map().contains_key(v)
        &&& s.leaving(s.vehicle_map()[v])
        &&& reports_left(e, s.vehicle_map()[v], t.vehicle_map()[v])
    }

    /// Moving a vehicle that is still queued leaves what earlier events
    /// report true.
    pub proof fn lemma_reports_kept(s0: Simulation, before: Simulation, after: Simulation, n: NodeId, i: int, e: SimulationEvent)
        requires
            before.wf(),
            0 <= i < before.queue_of(n).len(),
            after.vehicle_map() == before.vehicle_map().insert(before.queue_of(n)[i], after.vehicle_map()[before.queue_of(n)[i]]),
            Self::reports_leaving(s0, before, e),
        ensures
            Self::reports_leaving(s0, after, e),
    {
        let w = before.queue_of(n)[i];
        assert(before.vehicle_map()[w].status == VehicleStatus::WaitingAtNode(n));
    }

    /// Letting one more vehicle out of its queue, with events that report it
    /// against the state just before, keeps every event since `s0` true.
    pub proof fn lemma_reports_step(
        s0: Simulation,
        before: Simulation,
        after: Simulation,
        n: NodeId,
        i: int,
        start: int,
        ev_before: Seq<SimulationEvent>,
        ev_after: Seq<SimulationEvent>,
    )
        requires
            before.wf(),
            before.queue_moves_only(s0),
            before.now() == s0.now(),
            before.vehicle_map().dom() == s0.vehicle_map().dom(),
            0 <= i < before.queue_of(n).len(),
            after.vehicle_map() == before.vehicle_map().insert(before.queue_of(n)[i], after.vehicle_map()[before.queue_of(n)[i]]),
            0 <= start <= ev_before.len() <= ev_after.len(),
            ev_after.subrange(0, ev_before.len() as int) == ev_before,
            forall|x: int| start <= x < ev_before.len() ==> Self::reports_leaving(s0, before, #[trigger] ev_before[x]),
            forall|x: int| ev_before.len() <= x < ev_after.len() ==> Self::reports_leaving(before, after, #[trigger] ev_after[x]),
        ensures
            forall|x: int| start <= x < ev_after.len() ==> Self::reports_leaving(s0, after, #[trigger] ev_after[x]),
    {
        assert forall|x: int| start <= x < ev_after.len() implies Self::reports_leaving(s0, after, #[trigger] ev_after[x]) by {
            if x < ev_before.len() {
                assert(ev_after[x] == ev_after.subrange(0, ev_before.len() as int)[x]);
                Self::lemma_reports_kept(s0, before, after, n, i, ev_before[x]);
            } else {
                assert(Self::reports_leaving(before, after, ev_after[x]));
                let v = event_vehicle(ev_after[x]);
                assert(before.vehicle_map().contains_key(v));
                assert(s0.vehicle_map().contains_key(v));
                assert(before.vehicle_map()[v] == s0.vehicle_map()[v]);
            }
        }
    }

    /// Every event from position `start` of `events` that names a vehicle
    /// which had waited less than the deadlock threshold in `s0` reports it
    /// finishing or entering a road: only a jammed vehicle is rerouted.
    pub open spec fn plain_reports(s0: Simulation, start: int, events: Seq<SimulationEvent>) -> bool {
        forall|x: int|
            start <= x < events.len() && s0.vehicle_map()[event_vehicle(#[trigger] events[x])].waiting_ticks_at_node
                < s0.threshold() ==> (events[x] is Completed || events[x] is EnteredRoad)
    }

    /// Every vehicle of `s0` that differs in `t` is named by one of the events
    /// from position `start` of `events` on.
    pub open spec fn changes_reported(s0: Simulation, t: Simulation, start: int, events: Seq<SimulationEvent>) -> bool {
        forall|v: VehicleId|
            #![trigger t.vehicle_map()[v]]
            s0.vehicle_map().contains_key(v) && t.vehicle_map()[v] != s0.vehicle_map()[v] ==> exists|x: int|
                start <= x < events.len() && event_vehicle(#[trigger] events[x]) == v
    }

    /// Changing one vehicle, and naming it in the first new event, keeps
    /// every change reported.
    pub proof fn lemma_changes_reported_step(
        s0: Simulation,
        before: Simulation,
        after: Simulation,
        w: VehicleId,
        start: int,
        ev_before: Seq<SimulationEvent>,
        ev_after: Seq<SimulationEvent>,
    )
        requires
            Self::changes_reported(s0, before, start, ev_before),
            after.vehicle_map() == before.vehicle_map().insert(w, after.vehicle_map()[w]),
            0 <= start <= ev_before.len() < ev_after.len(),
            ev_after.subrange(0, ev_before.len() as int) == ev_before,
            event_vehicle(ev_after[ev_before.len() as int]) == w,
        ensures
            Self::changes_reported(s0, after, start, ev_after),
    {
        assert forall|v: VehicleId|
            #![trigger after.vehicle_map()[v]]
            s0.vehicle_map().contains_key(v) && after.vehicle_map()[v] != s0.vehicle_map()[v] implies exists|x: int|
                start <= x < ev_after.len() && event_vehicle(#[trigger] ev_after[x]) == v by {
            if v == w {
                assert(event_vehicle(ev_after[ev_before.len() as int]) == v);
            } else {
                assert(before.vehicle_map()[v] == after.vehicle_map()[v]);
                let x = choose|x: int| start <= x < ev_before.len() && event_vehicle(#[trigger] ev_before[x]) == v;
                assert(ev_after[x] == ev_after.subrange(0, ev_before.len() as int)[x]);
            }
        }
    }

    /// Letting one more vehicle that may leave out of its queue keeps the
    /// moves legal.
    pub proof fn lemma_queue_move(s0: Simulation, before: Simulation, after: Simulation, n: NodeId, i: int)
        requires
            before.wf(),
            before.queue_moves_only(s0),
            before.now() == s0.now(),
            before.net() == s0.net(),
            before.vehicle_map().dom() == s0.vehicle_map().dom(),
            0 <= i < before.queue_of(n).len(),
            before.ready_to_leave(before.queued(n, i)),
            after.vehicle_map() == before.vehicle_map().insert(before.queue_of(n)[i], after.vehicle_map()[before.queue_of(n)[i]]),
            left_queue(s0.net(), before.queued(n, i), after.vehicle_map()[before.queue_of(n)[i]]),
        ensures
            after.queue_moves_only(s0),
    {
        let w = before.queue_of(n)[i];
        assert(before.vehicle_map()[w].status == VehicleStatus::WaitingAtNode(n));
        assert(s0.vehicle_map().contains_key(w));
        assert(before.vehicle_map()[w] == s0.vehicle_map()[w]);
    }

    /// The vehicle at position `i` of the queue of node `n`.
    pub open spec fn queued(&self, n: NodeId, i: int) -> Vehicle {
        self.vehicle_map()[self.queue_of(n)[i]]
    }

    /// A vehicle may leave its queue: its release tick has come and it has
    /// waited at least one tick.
    pub open spec fn ready_to_leave(&self, v: Vehicle) -> bool {
        self.now() >= v.queued_release_tick && v.waiting_ticks_at_node != 0
    }

    /// Road `r` exists and one of its lanes has room.
    pub open spec fn has_free_lane(&self, r: RoadId) -> bool {
        &&& self.net().road_map().contains_key(r)
        &&& exists|m: int| 0 <= m < self.lane_count(r) && #[trigger] self.lane_has_room(r, m)
    }

    /// The vehicle at position `i` of the queue of `n` is of the kind that a
    /// scan looks for.
    pub open spec fn fits(&self, n: NodeId, i: int, kind: CandidateKind) -> bool {
        let v = self.queued(n, i);
        &&& self.ready_to_leave(v)
        &&& match kind {
            CandidateKind::Completion => next_road_of(v) is None,
            CandidateKind::Departure => next_road_of(v) matches Some(r) && self.spec_can_depart(n, r)
                && self.has_free_lane(r),
            CandidateKind::Deadlock => v.waiting_ticks_at_node >= self.threshold() && next_road_of(
                v,
            ) is Some,
        }
    }

    /// Position `i` leaves before position `j`: a lower priority rank first,
    /// then the longer wait, then the earlier place in the queue.
    pub open spec fn leaves_first(&self, n: NodeId, i: int, j: int) -> bool {
        let a = self.queued(n, i);
        let b = self.queued(n, j);
        let ra = spec_priority_rank(a.vehicle_type);
        let rb = spec_priority_rank(b.vehicle_type);
        ||| ra < rb
        ||| (ra == rb && a.waiting_ticks_at_node > b.waiting_ticks_at_node)
        ||| (ra == rb && a.waiting_ticks_at_node == b.waiting_ticks_at_node && i <= j)
    }

    /// Position `i` is the one of its kind that leaves first.
    pub open spec fn first_of_kind(&self, n: NodeId, i: int, kind: CandidateKind) -> bool {
        &&& 0 <= i < self.queue_of(n).len()
        &&& self.fits(n, i, kind)
        &&& forall|j: int|
            0 <= j < self.queue_of(n).len() && #[trigger] self.fits(n, j, kind) ==> self.leaves_first(
                n,
                i,
                j,
            )
    }

    /// Only one position of a queue is the first of its kind.
    pub proof fn lemma_first_unique(&self, n: NodeId, i: int, j: int, kind: CandidateKind)
        requires
            self.first_of_kind(n, i, kind),
            self.first_of_kind(n, j, kind),
        ensures
            i == j,
    {
        assert(self.leaves_first(n, i, j));
        assert(self.leaves_first(n, j, i));
    }

    /// No vehicle queued at `n` is of the kind `kind`.
    pub open spec fn none_fit(&self, n: NodeId, kind: CandidateKind) -> bool {
        forall|i: int| 0 <= i < self.queue_of(n).len() ==> !#[trigger] self.fits(n, i, kind)
    }

    /// In `t`, the vehicle at position `i` of the queue of `n` has left the
    /// queue; the other queues, the number of lanes of each road and all but
    /// the places of vehicles are as in `self`.
    pub open spec fn only_left_queue(&self, t: Simulation, n: NodeId, i: int) -> bool {
        &&& t.unchanged_but_places(*self)
        &&& t.queue_of(n) == self.queue_of(n).remove(i)
        &&& forall|m: NodeId| m != n ==> #[trigger] t.queue_of(m) == self.queue_of(m)
        &&& forall|r: RoadId| #[trigger] t.lane_count(r) == self.lane_count(r)
    }

    /// The vehicle at position `i` of the queue of `n` finishes there, as
    /// `evs` reports.
    pub open spec fn completes(&self, t: Simulation, n: NodeId, i: int, evs: Seq<SimulationEvent>) -> bool {
        let v = self.queue_of(n)[i];
        let before = self.vehicle_map()[v];
        &&& self.only_left_queue(t, n, i)
        &&& t.vehicle_map() == self.vehicle_map().insert(v, Vehicle { status: VehicleStatus::Finished, ..before })
        &&& forall|r: RoadId, l: int| #[trigger] t.lane_of(r, l) == self.lane_of(r, l)
        &&& evs == seq![
            SimulationEvent::Completed {
                vehicle_id: v,
                destination: before.destination,
                wait_time: before.total_wait_time,
                travel_time: before.total_travel_time,
            },
        ]
    }

    /// The vehicle at position `i` of the queue of `n` takes the next road
    /// of its route into the emptiest of its lanes with room, the first of
    /// them where several tie, with the road's whole travel time ahead, as
    /// `evs` reports.
    pub open spec fn departs(&self, t: Simulation, n: NodeId, i: int, evs: Seq<SimulationEvent>) -> bool {
        let v = self.queue_of(n)[i];
        let before = self.vehicle_map()[v];
        let r = next_road_of(before).unwrap();
        let l = t.vehicle_map()[v].status->OnRoad_lane_index;
        &&& self.only_left_queue(t, n, i)
        &&& self.least_loaded(r, l as int, |m: int| self.lane_has_room(r, m))
        &&& t.vehicle_map() == self.vehicle_map().insert(
            v,
            Vehicle {
                next_road_index: (before.next_road_index + 1) as usize,
                status: VehicleStatus::OnRoad {
                    road_id: r,
                    lane_index: l,
                    remaining_time: spec_travel_time(self.net().road_map()[r]),
                },
                ..before
            },
        )
        &&& t.lane_of(r, l as int) == self.lane_of(r, l as int).push(v)
        &&& forall|r2: RoadId, l2: int| !(r2 == r && l2 == l) ==> #[trigger] t.lane_of(r2, l2) == self.lane_of(r2, l2)
        &&& evs == seq![SimulationEvent::EnteredRoad { vehicle_id: v, road_id: r, lane_index: l }]
    }

    /// The vehicle at position `i` of the queue of `n`, stuck in front of the
    /// next road of its route, is got around the jam as
    /// `try_deadlock_escape` does, as `evs` reports: on a new route if one
    /// avoids that road, else pushed on along its own.
    pub open spec fn escapes(&self, t: Simulation, n: NodeId, i: int, evs: Seq<SimulationEvent>) -> bool {
        let v = self.queue_of(n)[i];
        let before = self.vehicle_map()[v];
        let after = t.vehicle_map()[v];
        let avoided = next_road_of(before).unwrap();
        let waiting = before.waiting_ticks_at_node;
        &&& self.only_left_queue(t, n, i)
        &&& t.vehicle_map() == self.vehicle_map().insert(v, after)
        &&& n != before.destination
        &&& after == Vehicle {
            route: after.route,
            next_road_index: after.next_road_index,
            waiting_ticks_at_node: 0,
            status: after.status,
            ..before
        }
        &&& after.status matches VehicleStatus::OnRoad { road_id, lane_index, remaining_time }
            && remaining_time == spec_travel_time(self.net().road_map()[road_id])
            && self.least_loaded(road_id, lane_index as int, |m: int| true)
        &&& after.next_road_index <= after.route@.len()
        &&& t.lane_of(after.status->OnRoad_road_id, after.status->OnRoad_lane_index as int)
            == self.lane_of(after.status->OnRoad_road_id, after.status->OnRoad_lane_index as int).push(v)
        &&& forall|r: RoadId, l: int|
            !(r == after.status->OnRoad_road_id && l == after.status->OnRoad_lane_index)
                ==> #[trigger] t.lane_of(r, l) == self.lane_of(r, l)
        &&& evs.len() == 2
        &&& evs[0] matches SimulationEvent::Rerouted { vehicle_id: rv, node_id: rn, avoided_road: ra, new_route, .. }
            && rv == v && rn == n && ra == avoided && new_route@ == after.route@
        &&& evs[1] matches SimulationEvent::EmergencyEnteredRoad { vehicle_id: ev, road_id: er, lane_index: el, .. }
            && ev == v && er == after.status->OnRoad_road_id && el == after.status->OnRoad_lane_index
        &&& ({
            ||| {
                &&& self.escape_route(avoided, n, before.destination, after.route@)
                &&& after.next_road_index == 1
                &&& after.status->OnRoad_road_id == after.route@[0]
                &&& evs[0]->Rerouted_reason@ == long_wait_reason(waiting)
                &&& evs[1]->EmergencyEnteredRoad_reason@ == "ruta de emergencia"@
            }
            ||| {
                &&& self.no_route_under(escape_search(avoided), n, before.destination)
                &&& self.no_route_under(relaxed_escape_search(avoided), n, before.destination)
                &&& after.route@ == before.route@
                &&& after.next_road_index == before.next_road_index + 1
                &&& after.status->OnRoad_road_id == before.route@[before.next_road_index as int]
                &&& evs[0]->Rerouted_reason@ == forced_release_reason(waiting)
                &&& evs[1]->EmergencyEnteredRoad_reason@ == "liberaci\u{f3}n de emergencia por atasco"@
            }
        })
    }

    /// `t` follows from `self` by one move at node `n`, reported by `evs`:
    /// the first vehicle at the end of its route finishes; where none is,
    /// the first that may take its next road does; where none may, the first
    /// that has waited the deadlock threshold is got around the jam.
    pub open spec fn queue_step(&self, t: Simulation, n: NodeId, evs: Seq<SimulationEvent>) -> bool {
        ||| exists|i: int| #[trigger] self.first_of_kind(n, i, CandidateKind::Completion) && self.completes(t, n, i, evs)
        ||| {
            &&& self.none_fit(n, CandidateKind::Completion)
            &&& exists|i: int| #[trigger] self.first_of_kind(n, i, CandidateKind::Departure) && self.departs(t, n, i, evs)
        }
        ||| {
            &&& self.none_fit(n, CandidateKind::Completion)
            &&& self.none_fit(n, CandidateKind::Departure)
            &&& exists|i: int| #[trigger] self.first_of_kind(n, i, CandidateKind::Deadlock) && self.escapes(t, n, i, evs)
        }
    }

    /// Nothing more leaves the queue of `n`: no vehicle there is at the end
    /// of its route or may take its next road, and the first that has waited
    /// the deadlock threshold, if any, is at its destination, where no way
    /// around a jam is sought.
    pub open spec fn stuck_at(&self, n: NodeId) -> bool {
        &&& self.none_fit(n, CandidateKind::Completion)
        &&& self.none_fit(n, CandidateKind::Departure)
        &&& forall|i: int| #[trigger] self.first_of_kind(n, i, CandidateKind::Deadlock) ==> self.queued(n, i).destination == n
    }

    /// `t` follows from `s` by the moves `states`, at the nodes `nodes`,
    /// reported by `chunks`: the queues of `s` are served in increasing
    /// node, the moves from `marks[k]` to `marks[k + 1]` at the `k`-th of
    /// them, each node until nothing more leaves it.
    pub open spec fn queue_run(
        s: Simulation,
        t: Simulation,
        states: Seq<Simulation>,
        nodes: Seq<NodeId>,
        chunks: Seq<Seq<SimulationEvent>>,
        marks: Seq<int>,
    ) -> bool {
        let ns = s.queue_nodes();
        &&& states.len() == nodes.len() + 1
        &&& chunks.len() == nodes.len()
        &&& states[0] == s
        &&& states[nodes.len() as int] == t
        &&& forall|m: int| 0 <= m < nodes.len() ==> states[m].queue_step(states[m + 1], nodes[m], #[trigger] chunks[m])
        &&& marks.len() == ns.len() + 1
        &&& marks[0] == 0
        &&& marks[ns.len() as int] == nodes.len()
        &&& forall|k: int| 0 <= k < ns.len() ==> #[trigger] marks[k] <= marks[k + 1]
        &&& forall|k: int, m: int|
            #![trigger marks[k], nodes[m]]
            0 <= k < ns.len() && marks[k] <= m < marks[k + 1] ==> nodes[m] == ns[k]
        &&& forall|k: int| 0 <= k < ns.len() ==> states[marks[k + 1]].stuck_at(#[trigger] ns[k])
    }

    /// In a tick from `s` to `t`, the node queues were served as `queue_run`
    /// describes, reported by `evs`, from the state the tick had reached
    /// before: there the waiting vehicles of `s` have their wait counted for
    /// the tick, every other vehicle is as in `t`, each lane has moved its
    /// front, and each queue begins with the queue of `s`.
    pub open spec fn queues_served(s: Simulation, t: Simulation, evs: Seq<SimulationEvent>) -> bool {
        exists|
            mid: Simulation,
            states: Seq<Simulation>,
            nodes: Seq<NodeId>,
            chunks: Seq<Seq<SimulationEvent>>,
            marks: Seq<int>,
        |
            {
                &&& #[trigger] Self::queue_run(mid, t.at_tick(s.now()), states, nodes, chunks, marks)
                &&& mid.wf()
                &&& mid.now() == s.now()
                &&& mid.vehicle_map().dom() == t.vehicle_map().dom()
                &&& forall|r: RoadId, l: int| #[trigger] mid.lane_of(r, l) == s.lane_after_front(r, l)
                &&& forall|n: NodeId| s.queue_of(n).is_prefix_of(#[trigger] mid.queue_of(n))
                &&& forall|v: VehicleId|
                    #![trigger mid.vehicle_map()[v]]
                    mid.vehicle_map().contains_key(v) ==> mid.vehicle_map()[v] == if s.vehicle_map().contains_key(v)
                        && s.vehicle_map()[v].status is WaitingAtNode {
                        counted(s.vehicle_map()[v], s.now())
                    } else {
                        t.vehicle_map()[v]
                    }
                &&& evs == chunks.flatten()
            }
    }

    /// The candidate that describes position `i` of the queue of `n`.
    pub open spec fn describes(&self, n: NodeId, c: QueueCandidate) -> bool {
        let v = self.queued(n, c.queue_index as int);
        &&& c.vehicle_id == self.queue_of(n)[c.queue_index as int]
        &&& c.next_road_id == next_road_of(v)
        &&& c.waiting_ticks == v.waiting_ticks_at_node
        &&& c.rank == spec_priority_rank(v.vehicle_type)
    }

    /// At the first `k` nodes of `ns`, no queued vehicle is at the end of its
    /// route, and none could take its next road now.
    pub open spec fn drained_upto(&self, ns: Seq<NodeId>, k: int) -> bool {
        forall|d: int, i: int|
            0 <= d < k && 0 <= i < self.queue_of(ns[d]).len() ==> !#[trigger] self.fits(
                ns[d],
                i,
                CandidateKind::Completion,
            ) && !self.fits(ns[d], i, CandidateKind::Departure)
    }

    /// No queued vehicle is at the end of its route, and none could take its
    /// next road now.
    pub open spec fn drained(&self) -> bool {
        forall|n: NodeId, i: int|
            0 <= i < self.queue_of(n).len() ==> !#[trigger] self.fits(n, i, CandidateKind::Completion)
                && !self.fits(n, i, CandidateKind::Departure)
    }

    /// A queued vehicle that may leave now.
    pub open spec fn leaving(&self, v: Vehicle) -> bool {
        v.status is WaitingAtNode && self.ready_to_leave(v)
    }

    /// Every vehicle of `other` that could not leave its queue there is as it
    /// was.
    pub open spec fn unready_kept(&self, other: Simulation) -> bool {
        forall|v: VehicleId|
            #![trigger other.vehicle_map()[v]]
            other.vehicle_map().contains_key(v) && !other.leaving(other.vehicle_map()[v])
                ==> self.vehicle_map()[v] == other.vehicle_map()[v]
    }

    /// Moving a vehicle that may leave keeps every vehicle that could not.
    pub proof fn lemma_unready_kept(s0: Simulation, before: Simulation, after: Simulation, n: NodeId, v: VehicleId)
        requires
            before.wf(),
            before.unready_kept(s0),
            before.now() == s0.now(),
            before.vehicle_map().dom() == s0.vehicle_map().dom(),
            after.only_moved(before, n, v),
            exists|i: int| 0 <= i < before.queue_of(n).len() && before.queue_of(n)[i] == v
                && #[trigger] before.ready_to_leave(before.queued(n, i)),
        ensures
            after.unready_kept(s0),
    {
        let i = choose|i: int| 0 <= i < before.queue_of(n).len() && before.queue_of(n)[i] == v
            && #[trigger] before.ready_to_leave(before.queued(n, i));
        assert(before.vehicle_map()[v].status == VehicleStatus::WaitingAtNode(n));
        assert forall|w: VehicleId|
            #![trigger s0.vehicle_map()[w]]
            s0.vehicle_map().contains_key(w) && !s0.leaving(s0.vehicle_map()[w])
                implies after.vehicle_map()[w] == s0.vehicle_map()[w] by {
            if w == v {
                assert(before.vehicle_map()[v] == s0.vehicle_map()[v]);
                assert(s0.leaving(s0.vehicle_map()[v]));
            }
        }
    }

    /// Of the state `other`, only the vehicle `v` queued at `n` has changed:
    /// the other queues are as they were, no lane lost a vehicle and every
    /// road keeps its lanes.
    pub open spec fn only_moved(&self, other: Simulation, n: NodeId, v: VehicleId) -> bool {
        &&& self.vehicle_map() == other.vehicle_map().insert(v, self.vehicle_map()[v])
        &&& forall|m: NodeId| m != n ==> #[trigger] self.queue_of(m) == other.queue_of(m)
        &&& forall|r: RoadId, l: int| other.lane_of(r, l).len() <= #[trigger] self.lane_of(r, l).len()
        &&& forall|r: RoadId| #[trigger] self.lane_count(r) == other.lane_count(r)
    }

    /// Moving the same vehicle twice moves only it.
    pub proof fn lemma_only_moved_trans(a: Simulation, b: Simulation, c: Simulation, n: NodeId, v: VehicleId)
        requires
            b.only_moved(a, n, v),
            c.only_moved(b, n, v),
        ensures
            c.only_moved(a, n, v),
    {
        assert(c.vehicle_map() =~= a.vehicle_map().insert(v, c.vehicle_map()[v]));
        assert forall|r: RoadId, l: int| a.lane_of(r, l).len() <= #[trigger] c.lane_of(r, l).len() by {
            assert(a.lane_of(r, l).len() <= b.lane_of(r, l).len());
        }
    }

    /// Away from node `n` nothing has changed but that lanes may have
    /// filled: the other queues and the vehicles in them are as in `other`.
    pub open spec fn settled_elsewhere(&self, other: Simulation, n: NodeId) -> bool {
        &&& self.unchanged_but_places(other)
        &&& forall|m: NodeId| m != n ==> #[trigger] self.queue_of(m) == other.queue_of(m)
        &&& forall|m: NodeId, i: int|
            #![trigger other.queue_of(m)[i]]
            m != n && 0 <= i < other.queue_of(m).len() ==> self.vehicle_map()[other.queue_of(m)[i]]
                == other.vehicle_map()[other.queue_of(m)[i]]
        &&& forall|r: RoadId, l: int| other.lane_of(r, l).len() <= #[trigger] self.lane_of(r, l).len()
        &&& forall|r: RoadId| #[trigger] self.lane_count(r) == other.lane_count(r)
    }

    /// Moving a vehicle queued at `n` changes nothing elsewhere.
    pub proof fn lemma_moved_settles(s: Simulation, t: Simulation, n: NodeId, v: VehicleId)
        requires
            s.wf(),
            t.unchanged_but_places(s),
            t.only_moved(s, n, v),
            s.queue_of(n).contains(v),
        ensures
            t.settled_elsewhere(s, n),
    {
        assert forall|m: NodeId, i: int|
            #![trigger s.queue_of(m)[i]]
            m != n && 0 <= i < s.queue_of(m).len() implies t.vehicle_map()[s.queue_of(m)[i]]
                == s.vehicle_map()[s.queue_of(m)[i]] by {
            let w = s.queue_of(m)[i];
            let j = choose|j: int| 0 <= j < s.queue_of(n).len() && s.queue_of(n)[j] == v;
            assert(s.vehicle_map()[s.queue_of(n)[j]].status == VehicleStatus::WaitingAtNode(n));
            assert(s.vehicle_map()[w].status == VehicleStatus::WaitingAtNode(m));
            assert(w != v);
        }
    }

    /// Settling elsewhere twice settles elsewhere.
    pub proof fn lemma_settled_trans(a: Simulation, b: Simulation, c: Simulation, n: NodeId)
        requires
            b.settled_elsewhere(a, n),
            c.settled_elsewhere(b, n),
        ensures
            c.settled_elsewhere(a, n),
    {
        assert forall|m: NodeId, i: int|
            #![trigger a.queue_of(m)[i]]
            m != n && 0 <= i < a.queue_of(m).len() implies c.vehicle_map()[a.queue_of(m)[i]]
                == a.vehicle_map()[a.queue_of(m)[i]] by {
            assert(b.queue_of(m) == a.queue_of(m));
            assert(b.queue_of(m)[i] == a.queue_of(m)[i]);
        }
        assert forall|r: RoadId, l: int| a.lane_of(r, l).len() <= #[trigger] c.lane_of(r, l).len() by {
            assert(a.lane_of(r, l).len() <= b.lane_of(r, l).len());
        }
    }

    /// What can leave a queue away from `n` could leave before: fuller lanes
    /// let no more vehicles through.
    pub proof fn lemma_no_new_leavers(s: Simulation, t: Simulation, n: NodeId, m: NodeId, i: int)
        requires
            t.settled_elsewhere(s, n),
            m != n,
            0 <= i < t.queue_of(m).len(),
        ensures
            t.fits(m, i, CandidateKind::Completion) ==> s.fits(m, i, CandidateKind::Completion),
            t.fits(m, i, CandidateKind::Departure) ==> s.fits(m, i, CandidateKind::Departure),
    {
        assert(t.queue_of(m) == s.queue_of(m));
        assert(t.queued(m, i) == s.queued(m, i)) by {
            assert(s.queue_of(m)[i] == t.queue_of(m)[i]);
        }
        let v = t.queued(m, i);
        if t.fits(m, i, CandidateKind::Departure) {
            let r = next_road_of(v).unwrap();
            let k = choose|k: int| 0 <= k < t.lane_count(r) && #[trigger] t.lane_has_room(r, k);
            assert(s.lane_of(r, k).len() <= t.lane_of(r, k).len());
            assert(s.lane_has_room(r, k));
        }
    }

    /// The vehicle of the queue of `node_id` of the given kind that leaves
    /// first, if any.
    pub fn select_candidate(&self, node_id: NodeId, kind: CandidateKind) -> (candidate: Option<QueueCandidate>)
        requires
            self.wf(),
        ensures
            match candidate {
                Some(c) => self.first_of_kind(node_id, c.queue_index as int, kind) && self.describes(node_id, c),
                None => forall|i: int| 0 <= i < self.queue_of(node_id).len() ==> !#[trigger] self.fits(node_id, i, kind),
            },
    {
        proof {
            lemma_entries(self.node_queues.entries@);
        }
        let qi = match self.node_queues.find(node_id) {
            Some(qi) => qi,
            None => {
                return None;
            },
        };
        let queue = &self.node_queues.entries[qi].1;
        let mut best: Option<QueueCandidate> = None;
        let mut i: usize = 0;
        while i < queue.len()
            invariant
                self.wf(),
                self.node_queues@.contains_key(node_id),
                queue@ == self.queue_of(node_id),
                i <= queue@.len(),
                match best {
                    Some(c) => c.queue_index < i && self.fits(node_id, c.queue_index as int, kind)
                        && self.describes(node_id, c) && forall|j: int|
                        0 <= j < i && #[trigger] self.fits(node_id, j, kind) ==> self.leaves_first(
                            node_id,
                            c.queue_index as int,
                            j,
                        ),
                    None => forall|j: int| 0 <= j < i ==> !#[trigger] self.fits(node_id, j, kind),
                },
            decreases queue@.len() - i,
        {
            let vehicle_id = queue[i];
            proof {
                lemma_entries(self.vehicles.entries@);
                assert(self.queue_of(node_id)[i as int] == vehicle_id);
                assert(self.vehicle_map().contains_key(vehicle_id));
            }
            let vi = self.vehicles.find(vehicle_id).unwrap();
            let vehicle = &self.vehicles.entries[vi].1;
            if self.current_tick >= vehicle.queued_release_tick && vehicle.waiting_ticks_at_node != 0 {
                let next_road_id = if vehicle.next_road_index < vehicle.route.len() {
                    Some(vehicle.route[vehicle.next_road_index])
                } else {
                    None
                };
                let fits = match kind {
                    CandidateKind::Completion => next_road_id.is_none(),
                    CandidateKind::Departure => match next_road_id {
                        Some(r) => self.can_depart(node_id, r) && self.find_lane_with_capacity(r).is_some(),
                        None => false,
                    },
                    CandidateKind::Deadlock => vehicle.waiting_ticks_at_node >= self.deadlock_wait_threshold
                        && next_road_id.is_some(),
                };
                if fits {
                    let candidate = QueueCandidate {
                        queue_index: i,
                        vehicle_id,
                        next_road_id,
                        waiting_ticks: vehicle.waiting_ticks_at_node,
                        rank: vehicle.vehicle_type.priority_rank(),
                    };
                    match best {
                        Some(b) => {
                            if candidate.rank < b.rank || (candidate.rank == b.rank
                                && candidate.waiting_ticks > b.waiting_ticks) {
                                best = Some(candidate);
                            }
                        },
                        None => {
                            best = Some(candidate);
                        },
                    }
                }
            }
            i = i + 1;
        }
        best
    }
}

/// The reason given when a vehicle is rerouted after a long wait.
pub open spec fn long_wait_reason(ticks: u32) -> Seq<char> {
    "espera prolongada de "@ + spec_decimal(ticks as nat) + " ticks"@
}

/// The reason given when a vehicle is pushed on after a long wait with no
/// way around.
pub open spec fn forced_release_reason(ticks: u32) -> Seq<char> {
    "liberaci\u{f3}n forzada tras "@ + spec_decimal(ticks as nat) + " ticks"@
}

fn reason_with_ticks(prefix: &str, ticks: u32) -> (text: String)
    ensures
        text@ == prefix@ + spec_decimal(ticks as nat) + " ticks"@,
{
    let mut text = String::from_str(prefix);
    let digits = decimal(ticks);
    text.append(digits.as_str());
    text.append(" ticks");
    text
}

impl Simulation {
    /// Finishes the vehicle that `candidate` describes and reports it.
    pub fn complete_queue_vehicle(
        &mut self,
        node_id: NodeId,
        candidate: QueueCandidate,
        events: &mut Vec<SimulationEvent>,
    )
        requires
            old(self).wf(),
            candidate.queue_index < old(self).queue_of(node_id).len(),
        ensures
            final(self).wf(),
            ({
                let v = old(self).queue_of(node_id)[candidate.queue_index as int];
                let before = old(self).vehicle_map()[v];
                &&& final(self).vehicle_map() == old(self).vehicle_map().insert(
                    v,
                    Vehicle { status: VehicleStatus::Finished, ..before },
                )
                &&& final(events)@ == old(events)@.push(
                    SimulationEvent::Completed {
                        vehicle_id: v,
                        destination: before.destination,
                        wait_time: before.total_wait_time,
                        travel_time: before.total_travel_time,
                    },
                )
            }),
            final(self).queue_of(node_id) == old(self).queue_of(node_id).remove(candidate.queue_index as int),
            forall|n: NodeId| n != node_id ==> #[trigger] final(self).queue_of(n) == old(self).queue_of(n),
            forall|r: RoadId, l: int| #[trigger] final(self).lane_of(r, l) == old(self).lane_of(r, l),
            final(self).only_moved(*old(self), node_id, old(self).queue_of(node_id)[candidate.queue_index as int]),
            final(self).queue_nodes() == old(self).queue_nodes(),
            final(self).unchanged_but_places(*old(self)),
            final(self).counters_not_above(*old(self)),
            final(self).finished_kept(*old(self)),
            final(self).totals_kept(*old(self)),
            old(self).completes(
                *final(self),
                node_id,
                candidate.queue_index as int,
                final(events)@.subrange(old(events)@.len() as int, final(events)@.len() as int),
            ),
    {
        let ghost e0 = events@;
        let vehicle_id = self.finish_in_queue(node_id, candidate.queue_index);
        proof {
            lemma_entries(self.vehicles.entries@);
        }
        let vi = self.vehicles.find(vehicle_id).unwrap();
        let vehicle = &self.vehicles.entries[vi].1;
        events.push(SimulationEvent::Completed {
            vehicle_id,
            destination: vehicle.destination,
            wait_time: vehicle.total_wait_time,
            travel_time: vehicle.total_travel_time,
        });
        proof {
            assert(events@.subrange(e0.len() as int, events@.len() as int) =~= seq![events@.last()]);
        }
    }

    /// Pushes the vehicle at position `pos` of the queue of `node_id` on to
    /// the next road of its route, into the emptiest lane whether it has
    /// room or not, and reports it as rerouted (keeping its route) and as
    /// entering the road. Returns `false`, changing nothing, where the route
    /// has no road left.
    #[verifier::spinoff_prover]
    pub fn force_emergency_release(
        &mut self,
        node_id: NodeId,
        pos: usize,
        avoided_road: RoadId,
        waiting_ticks: u32,
        events: &mut Vec<SimulationEvent>,
    ) -> (released: bool)
        requires
            old(self).wf(),
            pos < old(self).queue_of(node_id).len(),
        ensures
            final(self).wf(),
            final(self).unchanged_but_places(*old(self)),
            final(self).counters_not_above(*old(self)),
            final(self).finished_kept(*old(self)),
            final(self).totals_kept(*old(self)),
            final(self).only_moved(*old(self), node_id, old(self).queue_of(node_id)[pos as int]),
            final(self).vehicle_map().dom() == old(self).vehicle_map().dom(),
            ({
                let v = old(self).queue_of(node_id)[pos as int];
                let before = old(self).vehicle_map()[v];
                &&& released == (next_road_of(before) is Some)
                &&& !released ==> *final(self) == *old(self) && final(events)@ == old(events)@
                &&& released ==> {
                    let r = next_road_of(before).unwrap();
                    let after = final(self).vehicle_map()[v];
                    &&& final(self).queue_of(node_id) == old(self).queue_of(node_id).remove(pos as int)
                    &&& forall|n: NodeId| n != node_id ==> #[trigger] final(self).queue_of(n) == old(self).queue_of(n)
                    &&& after == Vehicle {
                        next_road_index: (before.next_road_index + 1) as usize,
                        waiting_ticks_at_node: 0,
                        status: after.status,
                        ..before
                    }
                    &&& after.status matches VehicleStatus::OnRoad { road_id, lane_index, remaining_time }
                        && road_id == r && remaining_time == spec_travel_time(old(self).net().road_map()[r])
                        && old(self).least_loaded(r, lane_index as int, |m: int| true)
                    &&& final(self).lane_of(r, after.status->OnRoad_lane_index as int)
                        == old(self).lane_of(r, after.status->OnRoad_lane_index as int).push(v)
                    &&& forall|r2: RoadId, l: int|
                        !(r2 == r && l == after.status->OnRoad_lane_index)
                            ==> #[trigger] final(self).lane_of(r2, l) == old(self).lane_of(r2, l)
                    &&& final(events)@.len() == old(events)@.len() + 2
                    &&& final(events)@.subrange(0, old(events)@.len() as int) == old(events)@
                    &&& final(events)@[old(events)@.len() as int] matches SimulationEvent::Rerouted {
                        vehicle_id: rv,
                        node_id: rn,
                        avoided_road: ra,
                        new_route,
                        reason,
                    } && rv == v && rn == node_id && ra == avoided_road && new_route@ == before.route@
                        && reason@ == forced_release_reason(waiting_ticks)
                    &&& final(events)@[old(events)@.len() + 1int] matches SimulationEvent::EmergencyEnteredRoad {
                        vehicle_id: ev,
                        road_id: er,
                        lane_index: el,
                        reason,
                    } && ev == v && er == r && el == after.status->OnRoad_lane_index
                        && reason@ == "liberaci\u{f3}n de emergencia por atasco"@
                }
            }),
    {
        let ghost s = *self;
        proof {
            lemma_entries(self.vehicles.entries@);
            lemma_entries(self.node_queues.entries@);
        }
        let qi = self.node_queues.find(node_id).unwrap();
        let vehicle_id = self.node_queues.entries[qi].1[pos];
        proof {
            assert(self.queue_of(node_id)[pos as int] == vehicle_id);
        }
        let vi = self.vehicles.find(vehicle_id).unwrap();
        let next_road_id = if self.vehicles.entries[vi].1.next_road_index < self.vehicles.entries[vi].1.route.len() {
            self.vehicles.entries[vi].1.route[self.vehicles.entries[vi].1.next_road_index]
        } else {
            proof {
                assert(self.vehicle_map() =~= s.vehicle_map().insert(vehicle_id, self.vehicle_map()[vehicle_id]));
            }
            return false;
        };
        let ghost v0 = self.vehicles.entries@;
        self.vehicles.entries[vi].1.waiting_ticks_at_node = 0;
        proof {
            crate::idmap::lemma_changed_at(v0, self.vehicles.entries@, vi as int);
            assert(self.vehicle_map() =~= s.vehicle_map().insert(vehicle_id, self.vehicle_map()[vehicle_id]));
            assert(self.vehicle_map().dom() =~= s.vehicle_map().dom());
            Self::lemma_vehicle_edit_keeps_wf(s, *self);
        }
        let new_route = self.vehicles.entries[vi].1.route.clone();
        let reason = reason_with_ticks("liberaci\u{f3}n forzada tras ", waiting_ticks);
        events.push(SimulationEvent::Rerouted {
            vehicle_id,
            node_id,
            avoided_road,
            new_route,
            reason,
        });
        let ghost mid = *self;
        proof {
            assert(mid.only_moved(s, node_id, vehicle_id));
        }
        proof {
            assert(self.net().road_map().contains_key(next_road_id));
            assert(self.lane_count(next_road_id) == self.net().road_map()[next_road_id].lanes) by {
                lemma_entries(self.road_runtime.entries@);
                self.network.lemma_views();
                assert(self.road_runtime.keys().contains(next_road_id));
                let j = choose|j: int| 0 <= j < self.road_runtime.keys().len() && self.road_runtime.keys()[j] == next_road_id;
                assert(self.road_runtime.entries@[j].0 == next_road_id);
            }
        }
        let lane_index = match self.find_lane_for_emergency_release(next_road_id) {
            Some(l) => l,
            None => 0,
        };
        self.enter_road_emergency(
            node_id,
            pos,
            next_road_id,
            lane_index,
            String::from_str("liberaci\u{f3}n de emergencia por atasco"),
            events,
        );
        proof {
            assert(self.vehicle_map().dom() =~= s.vehicle_map().dom());
            assert(forall|r: RoadId, l: int| #[trigger] mid.lane_of(r, l) == s.lane_of(r, l));
            assert(forall|r: RoadId| #[trigger] mid.lane_count(r) == s.lane_count(r));
            assert(events@.subrange(0, old(events)@.len() as int) =~= old(events)@);
            let v = vehicle_id;
            let before = s.vehicle_map()[v];
            let after = self.vehicle_map()[v];
            assert(next_road_of(before) == Some(next_road_id));
            assert(mid.vehicle_map()[v] == Vehicle { waiting_ticks_at_node: 0, ..before });
            assert(after == Vehicle {
                next_road_index: (before.next_road_index + 1) as usize,
                waiting_ticks_at_node: 0,
                status: after.status,
                ..before
            });
            assert(mid.least_loaded(next_road_id, lane_index as int, |m: int| true));
            assert(mid.road_runtime == s.road_runtime);
            assert(s.least_loaded(next_road_id, lane_index as int, |m: int| true)) by {
                assert(mid.lane_count(next_road_id) == s.lane_count(next_road_id));
                assert(mid.lane_of(next_road_id, lane_index as int) == s.lane_of(next_road_id, lane_index as int));
                assert forall|m: int| 0 <= m < s.lane_count(next_road_id) implies {
                    ||| s.lane_of(next_road_id, lane_index as int).len() < #[trigger] s.lane_of(next_road_id, m).len()
                    ||| (s.lane_of(next_road_id, lane_index as int).len() == s.lane_of(next_road_id, m).len() && lane_index <= m)
                } by {
                    assert(mid.lane_of(next_road_id, m) == s.lane_of(next_road_id, m));
                }
            }
            assert(after.status matches VehicleStatus::OnRoad { road_id, lane_index, remaining_time }
                        && road_id == next_road_id && remaining_time == spec_travel_time(s.net().road_map()[next_road_id]));
        }
        proof {
            Self::lemma_only_moved_trans(s, mid, *self, node_id, vehicle_id);
        }
        true
    }
}

impl Simulation {
    /// Gets the vehicle at position `pos` of the queue of `node_id`, which has
    /// waited `waiting_ticks` for road `avoided_road`, around the jam: it
    /// searches a route to the vehicle's destination that avoids that road and
    /// full roads, first respecting the signal at the node, then not. With a
    /// route, the vehicle takes it and is pushed on to its first road into the
    /// emptiest lane; with none, it is pushed on along its old route. Returns
    /// whether the vehicle left the queue.
    #[verifier::spinoff_prover]
    pub fn try_deadlock_escape(
        &mut self,
        node_id: NodeId,
        pos: usize,
        vehicle_id: VehicleId,
        avoided_road: RoadId,
        waiting_ticks: u32,
        events: &mut Vec<SimulationEvent>,
    ) -> (released: bool)
        requires
            old(self).wf(),
            pos < old(self).queue_of(node_id).len(),
            vehicle_id == old(self).queue_of(node_id)[pos as int],
        ensures
            final(self).wf(),
            final(self).unchanged_but_places(*old(self)),
            final(self).counters_not_above(*old(self)),
            final(self).finished_kept(*old(self)),
            final(self).totals_kept(*old(self)),
            final(self).only_moved(*old(self), node_id, vehicle_id),
            final(self).vehicle_map().dom() == old(self).vehicle_map().dom(),
            final(events)@.len() >= old(events)@.len(),
            final(events)@.subrange(0, old(events)@.len() as int) == old(events)@,
            !released ==> *final(self) == *old(self) && final(events)@ == old(events)@,
            !released ==> (node_id == old(self).vehicle_map()[vehicle_id].destination || next_road_of(
                old(self).vehicle_map()[vehicle_id],
            ) is None),
            released ==> {
                let before = old(self).vehicle_map()[vehicle_id];
                let after = final(self).vehicle_map()[vehicle_id];
                let k = old(events)@.len() as int;
                &&& node_id != before.destination
                &&& final(self).queue_of(node_id) == old(self).queue_of(node_id).remove(pos as int)
                &&& forall|n: NodeId| n != node_id ==> #[trigger] final(self).queue_of(n) == old(self).queue_of(n)
                &&& after == Vehicle {
                    route: after.route,
                    next_road_index: after.next_road_index,
                    waiting_ticks_at_node: 0,
                    status: after.status,
                    ..before
                }
                &&& after.status matches VehicleStatus::OnRoad { road_id, lane_index, remaining_time }
                    && remaining_time == spec_travel_time(old(self).net().road_map()[road_id])
                    && old(self).least_loaded(road_id, lane_index as int, |m: int| true)
                    && final(events)@[k + 1]->EmergencyEnteredRoad_lane_index == lane_index
                &&& after.next_road_index <= after.route@.len()
                &&& final(self).lane_of(after.status->OnRoad_road_id, after.status->OnRoad_lane_index as int)
                    == old(self).lane_of(after.status->OnRoad_road_id, after.status->OnRoad_lane_index as int).push(vehicle_id)
                &&& forall|r: RoadId, l: int|
                    !(r == after.status->OnRoad_road_id && l == after.status->OnRoad_lane_index)
                        ==> #[trigger] final(self).lane_of(r, l) == old(self).lane_of(r, l)
                &&& (after.route@ == before.route@ || old(self).net().leads_to(
                    node_id,
                    before.destination,
                    after.route@,
                    |n: NodeId, x: RoadId| x != avoided_road && !old(self).spec_road_is_full(x),
                ))
                &&& final(events)@.len() == k + 2
                &&& final(events)@[k] matches SimulationEvent::Rerouted {
                    vehicle_id: rv,
                    node_id: rn,
                    avoided_road: ra,
                    new_route,
                    ..
                } && rv == vehicle_id && rn == node_id && ra == avoided_road && new_route@ == after.route@
                &&& final(events)@[k + 1] matches SimulationEvent::EmergencyEnteredRoad { vehicle_id: ev, road_id: er, .. }
                    && ev == vehicle_id && er == after.status->OnRoad_road_id
                &&& ({
                    ||| {
                        &&& old(self).escape_route(avoided_road, node_id, before.destination, after.route@)
                        &&& after.next_road_index == 1
                        &&& after.status->OnRoad_road_id == after.route@[0]
                        &&& final(events)@[k]->Rerouted_reason@ == long_wait_reason(waiting_ticks)
                        &&& final(events)@[k + 1]->EmergencyEnteredRoad_reason@ == "ruta de emergencia"@
                    }
                    ||| {
                        &&& old(self).no_route_under(escape_search(avoided_road), node_id, before.destination)
                        &&& old(self).no_route_under(relaxed_escape_search(avoided_road), node_id, before.destination)
                        &&& after.route@ == before.route@
                        &&& after.next_road_index == before.next_road_index + 1
                        &&& after.status->OnRoad_road_id == before.route@[before.next_road_index as int]
                        &&& final(events)@[k]->Rerouted_reason@ == forced_release_reason(waiting_ticks)
                        &&& final(events)@[k + 1]->EmergencyEnteredRoad_reason@
                            == "liberaci\u{f3}n de emergencia por atasco"@
                    }
                })
            },
    {
        let ghost s = *self;
        proof {
            lemma_entries(self.vehicles.entries@);
            assert(self.vehicle_map().contains_key(vehicle_id));
        }
        let vi = self.vehicles.find(vehicle_id).unwrap();
        let destination = self.vehicles.entries[vi].1.destination;
        let options = RouteSearchOptions {
            avoid_road: Some(avoided_road),
            avoid_full_roads: true,
            respect_signals: true,
        };
        let relaxed = RouteSearchOptions {
            avoid_road: Some(avoided_road),
            avoid_full_roads: true,
            respect_signals: false,
        };
        let first = self.compute_route_from(node_id, destination, options);
        let new_route = match first {
            Some(r) => {
                proof {
                    self.network.lemma_leads_to_weaken(node_id, destination, r@,
                        |n: NodeId, x: RoadId| self.search_admits(options, node_id, n, x),
                        |n: NodeId, x: RoadId| x != avoided_road && !self.spec_road_is_full(x));
                }
                Some(r)
            },
            None => {
                let second = self.compute_route_from(node_id, destination, relaxed);
                proof {
                    if second is Some {
                        self.network.lemma_leads_to_weaken(node_id, destination, second.unwrap()@,
                            |n: NodeId, x: RoadId| self.search_admits(relaxed, node_id, n, x),
                            |n: NodeId, x: RoadId| x != avoided_road && !self.spec_road_is_full(x));
                    }
                }
                second
            },
        };
        let route = match new_route {
            Some(route) => route,
            None => {
                let released = self.force_emergency_release(node_id, pos, avoided_road, waiting_ticks, events);
                proof {
                    if released {
                        let before = s.vehicle_map()[vehicle_id];
                        assert(before.route.len() == before.route@.len());
                    }
                }
                return released;
            },
        };
        if route.len() == 0 {
            proof {
                assert(self.vehicle_map() =~= s.vehicle_map().insert(vehicle_id, self.vehicle_map()[vehicle_id]));
            }
            return false;
        }
        let next_road_id = route[0];
        proof {
            self.network.lemma_route_roads(node_id, destination, route@,
                |n: NodeId, x: RoadId| x != avoided_road && !self.spec_road_is_full(x));
        }
        let route_copy = route.clone();
        proof {
            assert(route_copy@ =~= route@);
        }
        let ghost v0 = self.vehicles.entries@;
        self.vehicles.entries[vi].1.route = route_copy;
        self.vehicles.entries[vi].1.next_road_index = 0;
        self.vehicles.entries[vi].1.waiting_ticks_at_node = 0;
        proof {
            crate::idmap::lemma_changed_at(v0, self.vehicles.entries@, vi as int);
            assert(self.vehicle_map() =~= s.vehicle_map().insert(vehicle_id, self.vehicle_map()[vehicle_id]));
            assert(self.vehicle_map().dom() =~= s.vehicle_map().dom());
            Self::lemma_vehicle_edit_keeps_wf(s, *self);
        }
        let reason = reason_with_ticks("espera prolongada de ", waiting_ticks);
        events.push(SimulationEvent::Rerouted {
            vehicle_id,
            node_id,
            avoided_road,
            new_route: route,
            reason,
        });
        let ghost mid = *self;
        proof {
            assert(mid.only_moved(s, node_id, vehicle_id));
        }
        proof {
            assert(self.lane_count(next_road_id) == self.net().road_map()[next_road_id].lanes) by {
                lemma_entries(self.road_runtime.entries@);
                self.network.lemma_views();
                assert(self.road_runtime.keys().contains(next_road_id));
                let j = choose|j: int| 0 <= j < self.road_runtime.keys().len() && self.road_runtime.keys()[j] == next_road_id;
                assert(self.road_runtime.entries@[j].0 == next_road_id);
            }
        }
        let lane_index = match self.find_lane_for_emergency_release(next_road_id) {
            Some(l) => l,
            None => 0,
        };
        proof {
            assert forall|r: RoadId, l: int| #[trigger] mid.lane_of(r, l) == s.lane_of(r, l) by {}
            assert forall|r: RoadId| #[trigger] mid.lane_count(r) == s.lane_count(r) by {}
            assert(s.least_loaded(next_road_id, lane_index as int, |m: int| true)) by {
                assert forall|m: int| 0 <= m < s.lane_count(next_road_id) implies {
                    ||| s.lane_of(next_road_id, lane_index as int).len() < #[trigger] s.lane_of(next_road_id, m).len()
                    ||| (s.lane_of(next_road_id, lane_index as int).len() == s.lane_of(next_road_id, m).len() && lane_index <= m)
                } by {
                    assert(mid.lane_of(next_road_id, m) == s.lane_of(next_road_id, m));
                }
            }
        }
        self.enter_road_emergency(
            node_id,
            pos,
            next_road_id,
            lane_index,
            String::from_str("ruta de emergencia"),
            events,
        );
        proof {
            assert(self.vehicle_map().dom() =~= s.vehicle_map().dom());
            assert(events@.subrange(0, old(events)@.len() as int) =~= old(events)@);
        }
        proof {
            Self::lemma_only_moved_trans(s, mid, *self, node_id, vehicle_id);
        }
        true
    }

    /// Recording one more move at the node being served keeps every move
    /// labelled with the node it was made at.
    proof fn lemma_labels_push(nodes: Seq<NodeId>, n: NodeId, marks: Seq<int>, k: int, ns: Seq<NodeId>)
        requires
            0 <= k < marks.len(),
            forall|j: int| 0 <= j <= k ==> 0 <= #[trigger] marks[j] <= marks[k],
            marks[k] <= nodes.len(),
            forall|j: int, m: int|
                #![trigger marks[j], nodes[m]]
                0 <= j < k && marks[j] <= m < marks[j + 1] ==> nodes[m] == ns[j],
            forall|m: int| marks[k] <= m < nodes.len() ==> #[trigger] nodes[m] == n,
        ensures
            forall|j: int, m: int|
                #![trigger marks[j], nodes.push(n)[m]]
                0 <= j < k && marks[j] <= m < marks[j + 1] ==> nodes.push(n)[m] == ns[j],
            forall|m: int| marks[k] <= m < nodes.len() + 1 ==> #[trigger] nodes.push(n)[m] == n,
    {
        assert forall|j: int, m: int|
            #![trigger marks[j], nodes.push(n)[m]]
            0 <= j < k && marks[j] <= m < marks[j + 1] implies nodes.push(n)[m] == ns[j] by {
            assert(marks[j + 1] <= marks[k]);
            assert(nodes.push(n)[m] == nodes[m]);
        }
        assert forall|m: int| marks[k] <= m < nodes.len() + 1 implies #[trigger] nodes.push(n)[m] == n by {
            if m < nodes.len() {
                assert(nodes.push(n)[m] == nodes[m]);
            }
        }
    }

    /// A move at a node keeps plain vehicles reported as finishing or
    /// entering a road.
    proof fn lemma_plain_push(
        s0: Simulation,
        before: Simulation,
        after: Simulation,
        n: NodeId,
        i: int,
        start: int,
        ev_before: Seq<SimulationEvent>,
        c: Seq<SimulationEvent>,
    )
        requires
            before.wf(),
            before.queue_moves_only(s0),
            before.now() == s0.now(),
            before.threshold() == s0.threshold(),
            before.vehicle_map().dom() == s0.vehicle_map().dom(),
            0 <= start <= ev_before.len(),
            Self::plain_reports(s0, start, ev_before),
            ({
                ||| (exists|j: int| #[trigger] before.first_of_kind(n, j, CandidateKind::Completion) && before.completes(after, n, j, c))
                ||| (exists|j: int| #[trigger] before.first_of_kind(n, j, CandidateKind::Departure) && before.departs(after, n, j, c))
                ||| (0 <= i < before.queue_of(n).len() && before.first_of_kind(n, i, CandidateKind::Deadlock) && before.escapes(after, n, i, c))
            }),
        ensures
            Self::plain_reports(s0, start, ev_before + c),
    {
        let e = ev_before + c;
        assert forall|x: int|
            start <= x < e.len() && s0.vehicle_map()[event_vehicle(#[trigger] e[x])].waiting_ticks_at_node
                < s0.threshold() implies (e[x] is Completed || e[x] is EnteredRoad) by {
            if x < ev_before.len() {
                assert(e[x] == ev_before[x]);
            } else if before.first_of_kind(n, i, CandidateKind::Deadlock) && 0 <= i < before.queue_of(n).len()
                && before.escapes(after, n, i, c) {
                let w = before.queue_of(n)[i];
                assert(before.vehicle_map()[w].status == VehicleStatus::WaitingAtNode(n));
                assert(s0.vehicle_map().contains_key(w));
                assert(before.vehicle_map()[w] == s0.vehicle_map()[w]);
                assert(event_vehicle(e[x]) == w);
            }
        }
    }

    /// Recording one more move keeps the record of moves a chain of moves.
    proof fn lemma_run_push(
        states: Seq<Simulation>,
        nodes: Seq<NodeId>,
        chunks: Seq<Seq<SimulationEvent>>,
        after: Simulation,
        n: NodeId,
        c: Seq<SimulationEvent>,
    )
        requires
            states.len() == nodes.len() + 1,
            chunks.len() == nodes.len(),
            forall|m: int| 0 <= m < nodes.len() ==> states[m].queue_step(states[m + 1], nodes[m], #[trigger] chunks[m]),
            states[nodes.len() as int].queue_step(after, n, c),
        ensures
            forall|m: int|
                0 <= m < nodes.len() + 1 ==> states.push(after)[m].queue_step(
                    states.push(after)[m + 1],
                    nodes.push(n)[m],
                    #[trigger] chunks.push(c)[m],
                ),
            chunks.push(c).flatten() == chunks.flatten() + c,
    {
        chunks.lemma_flatten_push(c);
        assert forall|m: int| 0 <= m < nodes.len() + 1 implies states.push(after)[m].queue_step(
            states.push(after)[m + 1],
            nodes.push(n)[m],
            #[trigger] chunks.push(c)[m],
        ) by {
            if m < nodes.len() {
                assert(states.push(after)[m] == states[m]);
                assert(states.push(after)[m + 1] == states[m + 1]);
                assert(chunks.push(c)[m] == chunks[m]);
                assert(nodes.push(n)[m] == nodes[m]);
            }
        }
    }

    /// Lets vehicles out of every node queue, node by node in increasing
    /// identifier. At each node, as long as something can leave: a vehicle at
    /// the end of its route finishes; else the vehicle that leaves first among
    /// those whose next road is open and has a lane with room enters the
    /// emptiest such lane; else the first among those that have waited the
    /// deadlock threshold is got around the jam, and the node is left when
    /// that fails. Afterwards no queued vehicle is at the end of its route,
    /// and none could take its next road.
    #[verifier::spinoff_prover]
    #[verifier::rlimit(80)]
    pub fn release_node_queues(&mut self, events: &mut Vec<SimulationEvent>)
        requires
            old(self).wf(),
        ensures
            final(self).wf(),
            final(self).unchanged_but_places(*old(self)),
            final(self).counters_not_above(*old(self)),
            final(self).finished_kept(*old(self)),
            final(self).totals_kept(*old(self)),
            final(self).vehicle_map().dom() == old(self).vehicle_map().dom(),
            final(events)@.len() >= old(events)@.len(),
            final(events)@.subrange(0, old(events)@.len() as int) == old(events)@,
            final(self).drained(),
            forall|v: VehicleId|
                #![trigger old(self).vehicle_map()[v]]
                old(self).vehicle_map().contains_key(v) && !old(self).leaving(old(self).vehicle_map()[v])
                    ==> final(self).vehicle_map()[v] == old(self).vehicle_map()[v],
            final(self).queue_moves_only(*old(self)),
            forall|x: int|
                old(events)@.len() <= x < final(events)@.len() ==> Self::reports_leaving(
                    *old(self),
                    *final(self),
                    #[trigger] final(events)@[x],
                ),
            Self::changes_reported(*old(self), *final(self), old(events)@.len() as int, final(events)@),
            Self::plain_reports(*old(self), old(events)@.len() as int, final(events)@),
            exists|states: Seq<Simulation>, nodes: Seq<NodeId>, chunks: Seq<Seq<SimulationEvent>>, marks: Seq<int>|
                Self::queue_run(*old(self), *final(self), states, nodes, chunks, marks) && final(events)@
                    == old(events)@ + chunks.flatten(),
    {
        let ghost s0 = *self;
        let ghost e0 = events@;
        proof {
            lemma_entries(self.node_queues.entries@);
        }
        let mut node_ids: Vec<NodeId> = Vec::new();
        let mut k: usize = 0;
        while k < self.node_queues.entries.len()
            invariant
                *self == s0,
                k <= self.node_queues.entries@.len(),
                node_ids@ == s0.queue_nodes().take(k as int),
            decreases self.node_queues.entries@.len() - k,
        {
            node_ids.push(self.node_queues.entries[k].0);
            proof {
                assert(node_ids@ =~= s0.queue_nodes().take(k + 1));
            }
            k = k + 1;
        }
        proof {
            assert(node_ids@ =~= s0.queue_nodes());
            assert forall|n: NodeId| !node_ids@.contains(n) implies #[trigger] s0.queue_of(n).len() == 0 by {
                if s0.node_queues@.contains_key(n) {
                    let j = crate::idmap::index_of(s0.node_queues.entries@, n);
                    assert(node_ids@[j] == n);
                }
            }
        }
        let ghost mut states: Seq<Simulation> = seq![s0];
        let ghost mut nodes: Seq<NodeId> = Seq::empty();
        let ghost mut chunks: Seq<Seq<SimulationEvent>> = Seq::empty();
        let ghost mut marks: Seq<int> = seq![0int];
        proof {
            assert(events@ =~= e0 + chunks.flatten());
        }
        let mut k: usize = 0;
        while k < node_ids.len()
            invariant
                states.len() == nodes.len() + 1,
                chunks.len() == nodes.len(),
                states[0] == s0,
                states[nodes.len() as int] == *self,
                forall|m: int| 0 <= m < nodes.len() ==> states[m].queue_step(states[m + 1], nodes[m], #[trigger] chunks[m]),
                events@ == e0 + chunks.flatten(),
                marks.len() == k + 1,
                marks[0] == 0,
                marks[k as int] == nodes.len(),
                forall|j: int| 0 <= j < k ==> #[trigger] marks[j] <= marks[j + 1],
                forall|j: int| 0 <= j <= k ==> 0 <= #[trigger] marks[j] <= marks[k as int],
                forall|j: int, m: int|
                    #![trigger marks[j], nodes[m]]
                    0 <= j < k && marks[j] <= m < marks[j + 1] ==> nodes[m] == node_ids@[j],
                forall|j: int| 0 <= j < k ==> states[marks[j + 1]].stuck_at(#[trigger] node_ids@[j]),
                self.wf(),
                self.unchanged_but_places(s0),
                self.counters_not_above(s0),
                self.finished_kept(s0),
                self.totals_kept(s0),
                self.vehicle_map().dom() == s0.vehicle_map().dom(),
                events@.len() >= e0.len(),
                events@.subrange(0, e0.len() as int) == e0,
                k <= node_ids@.len(),
                node_ids@ == s0.queue_nodes(),
                forall|a: int, b: int| 0 <= a < b < node_ids@.len() ==> #[trigger] node_ids@[a] < #[trigger] node_ids@[b],
                forall|n: NodeId| !node_ids@.contains(n) ==> #[trigger] self.queue_of(n).len() == 0,
                self.drained_upto(node_ids@, k as int),
                self.unready_kept(s0),
                self.queue_moves_only(s0),
                forall|x: int| e0.len() <= x < events@.len() ==> Self::reports_leaving(s0, *self, #[trigger] events@[x]),
                    Self::changes_reported(s0, *self, e0.len() as int, events@),
                    Self::plain_reports(s0, e0.len() as int, events@),
            decreases node_ids@.len() - k,
        {
            let node_id = node_ids[k];
            let ghost sk = *self;
            assert(sk.drained_upto(node_ids@, k as int));
            assert(forall|d: int, i: int|
                0 <= d < k && 0 <= i < sk.queue_of(node_ids@[d]).len() ==> !#[trigger] sk.fits(
                    node_ids@[d],
                    i,
                    CandidateKind::Completion,
                ) && !sk.fits(node_ids@[d], i, CandidateKind::Departure));
            loop
                invariant
                    states.len() == nodes.len() + 1,
                    chunks.len() == nodes.len(),
                    states[0] == s0,
                    states[nodes.len() as int] == *self,
                    forall|m: int| 0 <= m < nodes.len() ==> states[m].queue_step(states[m + 1], nodes[m], #[trigger] chunks[m]),
                    events@ == e0 + chunks.flatten(),
                    marks.len() == k + 1,
                    marks[0] == 0,
                    marks[k as int] <= nodes.len(),
                    forall|j: int| 0 <= j < k ==> #[trigger] marks[j] <= marks[j + 1],
                    forall|j: int| 0 <= j <= k ==> 0 <= #[trigger] marks[j] <= marks[k as int],
                    forall|j: int, m: int|
                        #![trigger marks[j], nodes[m]]
                        0 <= j < k && marks[j] <= m < marks[j + 1] ==> nodes[m] == node_ids@[j],
                    forall|m: int| marks[k as int] <= m < nodes.len() ==> #[trigger] nodes[m] == node_id,
                    forall|j: int| 0 <= j < k ==> states[marks[j + 1]].stuck_at(#[trigger] node_ids@[j]),
                    self.wf(),
                    self.unchanged_but_places(s0),
                    self.counters_not_above(s0),
                    self.finished_kept(s0),
                    self.totals_kept(s0),
                    self.vehicle_map().dom() == s0.vehicle_map().dom(),
                    events@.len() >= e0.len(),
                    events@.subrange(0, e0.len() as int) == e0,
                    self.settled_elsewhere(sk, node_id),
                    self.unready_kept(s0),
                    self.queue_moves_only(s0),
                    forall|x: int| e0.len() <= x < events@.len() ==> Self::reports_leaving(s0, *self, #[trigger] events@[x]),
                    Self::changes_reported(s0, *self, e0.len() as int, events@),
                    Self::plain_reports(s0, e0.len() as int, events@),
                ensures
                    states.len() == nodes.len() + 1,
                    chunks.len() == nodes.len(),
                    states[0] == s0,
                    states[nodes.len() as int] == *self,
                    forall|m: int| 0 <= m < nodes.len() ==> states[m].queue_step(states[m + 1], nodes[m], #[trigger] chunks[m]),
                    events@ == e0 + chunks.flatten(),
                    marks.len() == k + 1,
                    marks[0] == 0,
                    marks[k as int] <= nodes.len(),
                    forall|j: int| 0 <= j < k ==> #[trigger] marks[j] <= marks[j + 1],
                    forall|j: int| 0 <= j <= k ==> 0 <= #[trigger] marks[j] <= marks[k as int],
                    forall|j: int, m: int|
                        #![trigger marks[j], nodes[m]]
                        0 <= j < k && marks[j] <= m < marks[j + 1] ==> nodes[m] == node_ids@[j],
                    forall|m: int| marks[k as int] <= m < nodes.len() ==> #[trigger] nodes[m] == node_id,
                    forall|j: int| 0 <= j < k ==> states[marks[j + 1]].stuck_at(#[trigger] node_ids@[j]),
                    self.stuck_at(node_id),
                    self.wf(),
                    self.unchanged_but_places(s0),
                    self.counters_not_above(s0),
                    self.finished_kept(s0),
                    self.totals_kept(s0),
                    self.vehicle_map().dom() == s0.vehicle_map().dom(),
                    events@.len() >= e0.len(),
                    events@.subrange(0, e0.len() as int) == e0,
                    self.settled_elsewhere(sk, node_id),
                    self.unready_kept(s0),
                    self.queue_moves_only(s0),
                    forall|x: int| e0.len() <= x < events@.len() ==> Self::reports_leaving(s0, *self, #[trigger] events@[x]),
                    Self::changes_reported(s0, *self, e0.len() as int, events@),
                    Self::plain_reports(s0, e0.len() as int, events@),
                    forall|i: int|
                        0 <= i < self.queue_of(node_id).len() ==> !#[trigger] self.fits(
                            node_id,
                            i,
                            CandidateKind::Completion,
                        ) && !self.fits(node_id, i, CandidateKind::Departure),
                decreases self.queue_of(node_id).len(),
            {
                let ghost before = *self;
                let ghost ev_before = events@;
                let completion = self.select_candidate(node_id, CandidateKind::Completion);
                if let Some(candidate) = completion {
                    self.complete_queue_vehicle(node_id, candidate, events);
                    proof {
                        let w = before.queue_of(node_id)[candidate.queue_index as int];
                        assert(before.vehicle_map()[w].status == VehicleStatus::WaitingAtNode(node_id));
                        assert(Self::reports_leaving(before, *self, events@[ev_before.len() as int]));
                        assert(events@.subrange(0, ev_before.len() as int) =~= ev_before);
                        Self::lemma_reports_step(s0, before, *self, node_id, candidate.queue_index as int, e0.len() as int, ev_before, events@);
                        Self::lemma_changes_reported_step(s0, before, *self, w, e0.len() as int, ev_before, events@);
                        Self::lemma_queue_move(s0, before, *self, node_id, candidate.queue_index as int);
                        Self::lemma_not_above_trans(s0, before, *self);
                        Self::lemma_finished_kept_trans(s0, before, *self);
                        Self::lemma_totals_kept_trans(s0, before, *self);
                        assert(before.queue_of(node_id)[candidate.queue_index as int] == candidate.vehicle_id);
                        Self::lemma_moved_settles(before, *self, node_id, candidate.vehicle_id);
                        Self::lemma_unready_kept(s0, before, *self, node_id, candidate.vehicle_id);
                        Self::lemma_settled_trans(sk, before, *self, node_id);
                        assert(self.vehicle_map().dom() =~= before.vehicle_map().dom());
                        assert forall|i: int| 0 <= i < e0.len() implies events@[i] == e0[i] by {
                            assert(ev_before.subrange(0, e0.len() as int)[i] == e0[i]);
                        }
                        assert(events@.subrange(0, e0.len() as int) =~= e0);
                    }
                        proof {
                            let c = events@.subrange(ev_before.len() as int, events@.len() as int);
                            let qi = candidate.queue_index as int;
                            assert(events@ =~= ev_before + c);
                            assert(before.completes(*self, node_id, qi, c));
                            assert(before.queue_step(*self, node_id, c));
                            Self::lemma_run_push(states, nodes, chunks, *self, node_id, c);
                            Self::lemma_labels_push(nodes, node_id, marks, k as int, node_ids@);
                            Self::lemma_plain_push(s0, before, *self, node_id, qi, e0.len() as int, ev_before, c);
                            states = states.push(*self);
                            nodes = nodes.push(node_id);
                            chunks = chunks.push(c);
                        }
                    continue;
                }
                let departure = self.select_candidate(node_id, CandidateKind::Departure);
                match departure {
                    Some(candidate) => {
                        let next_road_id = candidate.next_road_id.unwrap();
                        let lane_index = self.find_lane_with_capacity(next_road_id).unwrap();
                        self.enter_road(node_id, candidate.queue_index, next_road_id, lane_index, events);
                        proof {
                            let w = before.queue_of(node_id)[candidate.queue_index as int];
                            assert(before.vehicle_map()[w].route.len() == before.vehicle_map()[w].route@.len());
                            assert(before.vehicle_map()[w].status == VehicleStatus::WaitingAtNode(node_id));
                            assert(Self::reports_leaving(before, *self, events@[ev_before.len() as int]));
                            assert(events@.subrange(0, ev_before.len() as int) =~= ev_before);
                            Self::lemma_reports_step(s0, before, *self, node_id, candidate.queue_index as int, e0.len() as int, ev_before, events@);
                            Self::lemma_changes_reported_step(s0, before, *self, w, e0.len() as int, ev_before, events@);
                            Self::lemma_queue_move(s0, before, *self, node_id, candidate.queue_index as int);
                            Self::lemma_not_above_trans(s0, before, *self);
                            Self::lemma_finished_kept_trans(s0, before, *self);
                            Self::lemma_totals_kept_trans(s0, before, *self);
                            assert(before.queue_of(node_id)[candidate.queue_index as int] == candidate.vehicle_id);
                            Self::lemma_moved_settles(before, *self, node_id, candidate.vehicle_id);
                            Self::lemma_unready_kept(s0, before, *self, node_id, candidate.vehicle_id);
                            Self::lemma_settled_trans(sk, before, *self, node_id);
                            assert(self.vehicle_map().dom() =~= before.vehicle_map().dom());
                            assert forall|i: int| 0 <= i < e0.len() implies events@[i] == e0[i] by {
                                assert(ev_before.subrange(0, e0.len() as int)[i] == e0[i]);
                            }
                            assert(events@.subrange(0, e0.len() as int) =~= e0);
                        }
                        proof {
                            let c = events@.subrange(ev_before.len() as int, events@.len() as int);
                            let qi = candidate.queue_index as int;
                            assert(events@ =~= ev_before + c);
                            assert(c =~= seq![events@[ev_before.len() as int]]);
                            assert(before.departs(*self, node_id, qi, c));
                            assert(before.queue_step(*self, node_id, c));
                            Self::lemma_run_push(states, nodes, chunks, *self, node_id, c);
                            Self::lemma_labels_push(nodes, node_id, marks, k as int, node_ids@);
                            Self::lemma_plain_push(s0, before, *self, node_id, qi, e0.len() as int, ev_before, c);
                            states = states.push(*self);
                            nodes = nodes.push(node_id);
                            chunks = chunks.push(c);
                        }
                    },
                    None => {
                        match self.select_candidate(node_id, CandidateKind::Deadlock) {
                            Some(candidate) => {
                                let next_road_id = candidate.next_road_id.unwrap();
                                let released = self.try_deadlock_escape(
                                    node_id,
                                    candidate.queue_index,
                                    candidate.vehicle_id,
                                    next_road_id,
                                    candidate.waiting_ticks,
                                    events,
                                );
                                proof {
                                    if released {
                                        let w = before.queue_of(node_id)[candidate.queue_index as int];
                                        assert(before.vehicle_map()[w].status == VehicleStatus::WaitingAtNode(node_id));
                                        assert(Self::reports_leaving(before, *self, events@[ev_before.len() as int]));
                                        assert(Self::reports_leaving(before, *self, events@[ev_before.len() + 1int]));
                                        assert forall|x: int| ev_before.len() <= x < events@.len() implies
                                            Self::reports_leaving(before, *self, #[trigger] events@[x]) by {
                                            if x == ev_before.len() {
                                            } else {
                                                assert(x == ev_before.len() + 1);
                                            }
                                        }
                                        Self::lemma_reports_step(s0, before, *self, node_id, candidate.queue_index as int, e0.len() as int, ev_before, events@);
                                        Self::lemma_changes_reported_step(s0, before, *self, w, e0.len() as int, ev_before, events@);
                                        Self::lemma_queue_move(s0, before, *self, node_id, candidate.queue_index as int);
                                    }
                                    Self::lemma_not_above_trans(s0, before, *self);
                                    Self::lemma_finished_kept_trans(s0, before, *self);
                                    Self::lemma_totals_kept_trans(s0, before, *self);
                                    assert(before.queue_of(node_id)[candidate.queue_index as int] == candidate.vehicle_id);
                                    Self::lemma_moved_settles(before, *self, node_id, candidate.vehicle_id);
                                    Self::lemma_unready_kept(s0, before, *self, node_id, candidate.vehicle_id);
                                    Self::lemma_settled_trans(sk, before, *self, node_id);
                                }
                                if !released {
                                    proof {
                                        assert forall|i: int|
                                            #[trigger] self.first_of_kind(node_id, i, CandidateKind::Deadlock)
                                            implies self.queued(node_id, i).destination == node_id by {
                                            self.lemma_first_unique(node_id, i, candidate.queue_index as int, CandidateKind::Deadlock);
                                        }
                                    }
                                    break;
                                }
                                proof {
                                    assert forall|i: int| 0 <= i < e0.len() implies events@[i] == e0[i] by {
                                        assert(ev_before.subrange(0, e0.len() as int)[i] == e0[i]);
                                    }
                                    assert(events@.subrange(0, e0.len() as int) =~= e0);
                                }
                        proof {
                            let c = events@.subrange(ev_before.len() as int, events@.len() as int);
                            let qi = candidate.queue_index as int;
                            assert(events@ =~= ev_before + c);
                            assert(before.escapes(*self, node_id, qi, c));
                            assert(before.queue_step(*self, node_id, c));
                            Self::lemma_run_push(states, nodes, chunks, *self, node_id, c);
                            Self::lemma_labels_push(nodes, node_id, marks, k as int, node_ids@);
                            Self::lemma_plain_push(s0, before, *self, node_id, qi, e0.len() as int, ev_before, c);
                            states = states.push(*self);
                            nodes = nodes.push(node_id);
                            chunks = chunks.push(c);
                        }

                            },
                            None => {
                                break;
                            },
                        }
                    },
                }
            }
            proof {
                marks = marks.push(nodes.len() as int);
                assert(states[marks[k + 1]] == *self);
                assert forall|j: int| 0 <= j <= k + 1 implies 0 <= #[trigger] marks[j] <= marks[k + 1] by {
                    if j <= k {
                        assert(marks[j] == marks.drop_last()[j]);
                    }
                }
                assert forall|j: int| 0 <= j < k + 1 implies #[trigger] marks[j] <= marks[j + 1] by {
                    assert(marks[j] == marks.drop_last()[j]);
                    if j < k {
                        assert(marks[j + 1] == marks.drop_last()[j + 1]);
                    }
                }
                assert forall|j: int| 0 <= j < k + 1 implies states[marks[j + 1]].stuck_at(#[trigger] node_ids@[j]) by {
                    if j < k {
                        assert(marks[j + 1] == marks.drop_last()[j + 1]);
                    }
                }
                assert forall|j: int, m: int|
                    #![trigger marks[j], nodes[m]]
                    0 <= j < k + 1 && marks[j] <= m < marks[j + 1] implies nodes[m] == node_ids@[j] by {
                    assert(marks[j] == marks.drop_last()[j]);
                    if j < k {
                        assert(marks[j + 1] == marks.drop_last()[j + 1]);
                    }
                }
            }
            proof {
                assert forall|d: int, i: int|
                    0 <= d < k + 1 && 0 <= i < self.queue_of(node_ids@[d]).len() implies !#[trigger] self.fits(
                        node_ids@[d],
                        i,
                        CandidateKind::Completion,
                    ) && !self.fits(node_ids@[d], i, CandidateKind::Departure) by {
                    if d < k {
                        let m = node_ids@[d];
                        assert(m < node_ids@[k as int]);
                        assert(sk.queue_of(m) == self.queue_of(m));
                        assert(!sk.fits(m, i, CandidateKind::Completion) && !sk.fits(m, i, CandidateKind::Departure));
                        Self::lemma_no_new_leavers(sk, *self, node_id, m, i);
                        assert(!self.fits(m, i, CandidateKind::Completion));
                        assert(!self.fits(m, i, CandidateKind::Departure));
                    } else {
                        assert(node_ids@[d] == node_id);
                        assert(!self.fits(node_id, i, CandidateKind::Completion));
                        assert(!self.fits(node_id, i, CandidateKind::Departure));
                    }
                }
                assert forall|n: NodeId| !node_ids@.contains(n) implies #[trigger] self.queue_of(n).len() == 0 by {
                    if n == node_id {
                        assert(node_ids@[k as int] == n);
                    }
                    assert(sk.queue_of(n) == self.queue_of(n));
                }
                assert(self.drained_upto(node_ids@, k + 1));
            }
            k = k + 1;
        }
        proof {
            assert forall|n: NodeId, i: int|
                0 <= i < self.queue_of(n).len() implies !#[trigger] self.fits(n, i, CandidateKind::Completion)
                    && !self.fits(n, i, CandidateKind::Departure) by {
                assert(self.drained_upto(node_ids@, k as int));
                if node_ids@.contains(n) {
                    let d = choose|d: int| 0 <= d < node_ids@.len() && node_ids@[d] == n;
                    assert(node_ids@[d] == n);
                    assert(0 <= d < k && 0 <= i < self.queue_of(node_ids@[d]).len());
                    assert(!self.fits(node_ids@[d], i, CandidateKind::Completion));
                    assert(!self.fits(node_ids@[d], i, CandidateKind::Departure));
                } else {
                    assert(self.queue_of(n).len() == 0);
                }
            }
            assert(self.drained());
            assert(self.unready_kept(s0));
            assert(Self::queue_run(s0, *self, states, nodes, chunks, marks));
        }
    }
}

} // verus!
