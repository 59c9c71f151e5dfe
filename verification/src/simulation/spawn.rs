//! The schedule of vehicles to release and their entry into the network.
use vstd::prelude::*;
use vstd::string::*;
use crate::model::{NodeId, RoadId, Vehicle, VehicleId, VehicleSpawn, VehicleStatus, VehicleType};
use super::{Simulation, spawns_sorted};
use super::events::SimulationEvent;
use super::routing::{RouteSearchOptions, plain_search};

verus! {

/// Where a spawn departing at `tick` goes in a schedule ordered by
/// departure: after every spawn that departs no later.
pub open spec fn schedule_position(s: Seq<VehicleSpawn>, tick: u32, p: int) -> bool {
    &&& 0 <= p <= s.len()
    &&& forall|i: int| 0 <= i < p ==> #[trigger] s[i].departure_tick <= tick
    &&& forall|i: int| p <= i < s.len() ==> tick < #[trigger] s[i].departure_tick
}

/// A vehicle that has just entered the network at tick `now`: it waits at
/// its origin, at the start of its route, and may leave from the next tick on.
pub open spec fn just_entered(v: Vehicle, now: u32) -> bool {
    &&& v.status == VehicleStatus::WaitingAtNode(v.origin)
    &&& v.next_road_index == 0
    &&& v.waiting_ticks_at_node == 0
    &&& v.queued_release_tick == now + 1
}

/// What became of a spawn that was due in state `s`, as event `e` reports
/// it, seen from a later state `t`: either a new vehicle entered under the
/// spawn's name, type, origin and destination, with a route that costs no
/// more at the road costs of `s` than any other (among equally cheap ones,
/// the one the search keeps), and waits at its origin;
/// or the spawn failed because every route costs the largest `u32` or more.
pub open spec fn spawn_outcome(s: Simulation, t: Simulation, spawn: VehicleSpawn, e: SimulationEvent) -> bool {
    match e {
        SimulationEvent::Spawned { vehicle_id, name, origin, destination, route } => {
            let v = t.vehicle_map()[vehicle_id];
            &&& name@ == spawn.name@
            &&& origin == spawn.origin
            &&& destination == spawn.destination
            &&& !s.vehicle_map().contains_key(vehicle_id)
            &&& t.vehicle_map().contains_key(vehicle_id)
            &&& v.name@ == spawn.name@
            &&& v.vehicle_type == spawn.vehicle_type
            &&& v.origin == spawn.origin
            &&& v.destination == spawn.destination
            &&& v.route@ == route@
            &&& v.total_wait_time == 0
            &&& v.total_travel_time == 0
            &&& just_entered(v, s.now())
            &&& s.net().is_route(spawn.origin, spawn.destination, route@)
            &&& forall|other: Seq<RoadId>|
                #[trigger] s.net().is_route(spawn.origin, spawn.destination, other)
                    ==> s.search_cost(plain_search(), spawn.origin, route@)
                        <= s.search_cost(plain_search(), spawn.origin, other)
            &&& s.search_keeps(plain_search(), spawn.origin, route@)
        },
        SimulationEvent::SpawnFailed { name, origin, destination, reason } => {
            &&& name@ == spawn.name@
            &&& origin == spawn.origin
            &&& destination == spawn.destination
            &&& reason@ == "no route found"@
            &&& forall|other: Seq<RoadId>|
                #[trigger] s.net().is_route(spawn.origin, spawn.destination, other)
                    ==> s.search_cost(plain_search(), spawn.origin, other) >= u32::MAX
        },
        _ => false,
    }
}

/// The spawns of `s` that depart at tick `d`, in order.
pub open spec fn departing_at(s: Seq<VehicleSpawn>, d: u32) -> Seq<VehicleSpawn>
    decreases s.len(),
{
    if s.len() == 0 {
        Seq::empty()
    } else {
        departing_at(s.drop_last(), d) + if s.last().departure_tick == d {
            seq![s.last()]
        } else {
            Seq::empty()
        }
    }
}

/// `result` is `input` sorted by departure tick, stably: ordered by tick,
/// and with the spawns of each tick in the order `input` has them.
pub open spec fn stable_sort_of(result: Seq<VehicleSpawn>, input: Seq<VehicleSpawn>) -> bool {
    &&& spawns_sorted(result)
    &&& forall|d: u32| #[trigger] departing_at(result, d) == departing_at(input, d)
}

proof fn lemma_departing_at_add(a: Seq<VehicleSpawn>, b: Seq<VehicleSpawn>, d: u32)
    ensures
        departing_at(a + b, d) == departing_at(a, d) + departing_at(b, d),
    decreases b.len(),
{
    if b.len() == 0 {
        assert(a + b =~= a);
        assert(departing_at(a, d) + departing_at(b, d) =~= departing_at(a, d));
    } else {
        lemma_departing_at_add(a, b.drop_last(), d);
        assert((a + b).drop_last() =~= a + b.drop_last());
        assert((a + b).last() == b.last());
        assert(departing_at(a + b, d) =~= departing_at(a, d) + departing_at(b, d));
    }
}

proof fn lemma_departing_at_none(s: Seq<VehicleSpawn>, d: u32)
    requires
        forall|i: int| 0 <= i < s.len() ==> #[trigger] s[i].departure_tick != d,
    ensures
        departing_at(s, d) == Seq::<VehicleSpawn>::empty(),
    decreases s.len(),
{
    if s.len() > 0 {
        lemma_departing_at_none(s.drop_last(), d);
        assert(s.last() == s[s.len() - 1]);
        assert(departing_at(s, d) =~= Seq::<VehicleSpawn>::empty());
    }
}

/// Scheduling a spawn into an ordered schedule, after every spawn that
/// departs no later, sorts the schedule with the new spawn at its end
/// stably by departure tick.
pub proof fn lemma_schedule_is_stable_sort(s: Seq<VehicleSpawn>, spawn: VehicleSpawn, p: int)
    requires
        spawns_sorted(s),
        schedule_position(s, spawn.departure_tick, p),
    ensures
        stable_sort_of(s.insert(p, spawn), s.push(spawn)),
{
    let r = s.insert(p, spawn);
    assert(r =~= s.take(p) + seq![spawn] + s.skip(p));
    assert(s.push(spawn) =~= s.take(p) + s.skip(p) + seq![spawn]);
    assert(spawns_sorted(r)) by {
        assert forall|i: int, j: int| 0 <= i < j < r.len() implies #[trigger] r[i].departure_tick
            <= #[trigger] r[j].departure_tick by {
            if i < p && j < p {
                assert(r[i] == s[i] && r[j] == s[j]);
            } else if i < p && j == p {
                assert(r[i] == s[i]);
            } else if i < p {
                assert(r[i] == s[i] && r[j] == s[j - 1]);
            } else if i == p {
                assert(r[j] == s[j - 1]);
            } else {
                assert(r[i] == s[i - 1] && r[j] == s[j - 1]);
            }
        }
    }
    assert forall|d: u32| #[trigger] departing_at(r, d) == departing_at(s.push(spawn), d) by {
        let a = s.take(p);
        let b = s.skip(p);
        let c = seq![spawn];
        lemma_departing_at_add(a + c, b, d);
        lemma_departing_at_add(a, c, d);
        lemma_departing_at_add(a + b, c, d);
        lemma_departing_at_add(a, b, d);
        assert(departing_at(c, d) =~= departing_at(Seq::<VehicleSpawn>::empty(), d) + if spawn.departure_tick == d {
            seq![spawn]
        } else {
            Seq::empty()
        }) by {
            assert(c.drop_last() =~= Seq::<VehicleSpawn>::empty());
        }
        if spawn.departure_tick == d {
            assert forall|i: int| 0 <= i < b.len() implies #[trigger] b[i].departure_tick != d by {
                assert(b[i] == s[p + i]);
            }
            lemma_departing_at_none(b, d);
        } else {
            assert(departing_at(c, d) =~= Seq::<VehicleSpawn>::empty());
        }
        assert(departing_at(r, d) =~= departing_at(s.push(spawn), d));
    }
}

impl Simulation {
    /// Adds a spawn to the schedule after every spawn that departs no later
    /// than it, keeping the schedule ordered by departure.
    pub fn schedule_spawn(&mut self, spawn: VehicleSpawn)
        requires
            old(self).wf(),
        ensures
            final(self).wf(),
            exists|p: int|
                schedule_position(old(self).scheduled(), spawn.departure_tick, p) && final(self).scheduled()
                    == old(self).scheduled().insert(p, spawn),
            final(self).vehicle_map() == old(self).vehicle_map(),
            final(self).net() == old(self).net(),
            final(self).now() == old(self).now(),
            final(self).next_id() == old(self).next_id(),
            final(self).threshold() == old(self).threshold(),
            final(self).signal_map() == old(self).signal_map(),
            forall|n: NodeId| #[trigger] final(self).queue_of(n) == old(self).queue_of(n),
            forall|r: RoadId| #[trigger] final(self).lane_count(r) == old(self).lane_count(r),
            forall|r: RoadId, l: int| #[trigger] final(self).lane_of(r, l) == old(self).lane_of(r, l),
            forall|k: nat| old(self).room_for_ticks(k) ==> #[trigger] final(self).room_for_ticks(k),
            spawns_sorted(final(self).scheduled()),
            !final(self).idle(),
    {
        let ghost s0 = *self;
        let mut p: usize = 0;
        while p < self.scheduled_spawns.len() && self.scheduled_spawns[p].departure_tick <= spawn.departure_tick
            invariant
                self.scheduled_spawns@ == s0.scheduled_spawns@,
                spawns_sorted(self.scheduled_spawns@),
                p <= self.scheduled_spawns@.len(),
                forall|i: int| 0 <= i < p ==> #[trigger] self.scheduled_spawns@[i].departure_tick <= spawn.departure_tick,
            decreases self.scheduled_spawns@.len() - p,
        {
            p = p + 1;
        }
        let ghost sp = spawn;
        self.scheduled_spawns.insert(p, spawn);
        proof {
            let old_s = s0.scheduled_spawns@;
            assert(schedule_position(old_s, sp.departure_tick, p as int)) by {
                assert forall|i: int| p <= i < old_s.len() implies sp.departure_tick < #[trigger] old_s[i].departure_tick by {
                    assert(old_s[p as int].departure_tick <= old_s[i].departure_tick);
                }
            }
            let t = self.scheduled_spawns@;
            assert(spawns_sorted(t)) by {
                assert forall|a: int, b: int| 0 <= a < b < t.len() implies #[trigger] t[a].departure_tick <= #[trigger] t[b].departure_tick by {
                    if b < p {
                        assert(old_s[a].departure_tick <= old_s[b].departure_tick);
                    } else if b == p {
                        assert(old_s[a].departure_tick <= sp.departure_tick);
                    } else if a < p {
                        assert(old_s[a].departure_tick <= sp.departure_tick);
                    } else if a == p {
                    } else {
                        assert(old_s[a - 1].departure_tick <= old_s[b - 1].departure_tick);
                    }
                }
            }
            assert(self.scheduled() =~= s0.scheduled().insert(p as int, sp));
            Self::lemma_places_agree(s0, *self);
        }
    }

    /// Brings a scheduled vehicle into the network: it gets the next vehicle
    /// identifier and a route from its origin to its destination, and joins
    /// the queue of its origin, free to leave from the next tick on. Without a
    /// route nothing enters and the failure is reported.
    #[verifier::spinoff_prover]
    pub fn spawn_vehicle(&mut self, spawn: VehicleSpawn, events: &mut Vec<SimulationEvent>) -> (spawned: bool)
        requires
            old(self).wf(),
            old(self).next_id() < usize::MAX,
            old(self).now() < u32::MAX,
        ensures
            final(self).wf(),
            final(self).net() == old(self).net(),
            final(self).now() == old(self).now(),
            final(self).scheduled() == old(self).scheduled(),
            final(self).threshold() == old(self).threshold(),
            final(self).signal_map() == old(self).signal_map(),
            final(self).signal_nodes() == old(self).signal_nodes(),
            forall|k: nat| old(self).room_for_ticks(k) ==> #[trigger] final(self).room_for_ticks(k),
            forall|r: RoadId, l: int| #[trigger] final(self).lane_of(r, l) == old(self).lane_of(r, l),
            forall|r: RoadId| #[trigger] final(self).lane_count(r) == old(self).lane_count(r),
            !spawned ==> {
                &&& final(self).vehicle_map() == old(self).vehicle_map()
                &&& final(self).next_id() == old(self).next_id()
                &&& forall|n: NodeId| #[trigger] final(self).queue_of(n) == old(self).queue_of(n)
                &&& final(events)@.len() == old(events)@.len() + 1
                &&& final(events)@.subrange(0, old(events)@.len() as int) == old(events)@
                &&& final(events)@.last() matches SimulationEvent::SpawnFailed { name, origin, destination, reason }
                    && name == spawn.name && origin == spawn.origin && destination == spawn.destination
                    && reason@ == "no route found"@
                &&& forall|other: Seq<RoadId>|
                    #[trigger] old(self).net().is_route(spawn.origin, spawn.destination, other)
                        ==> old(self).search_cost(plain_search(), spawn.origin, other) >= u32::MAX
            },
            spawned ==> {
                let id = old(self).next_id();
                let v = final(self).vehicle_map()[id];
                &&& final(self).next_id() == id + 1
                &&& final(self).vehicle_map() == old(self).vehicle_map().insert(id, v)
                &&& v.id == id
                &&& v.name@ == spawn.name@
                &&& v.vehicle_type == spawn.vehicle_type
                &&& v.origin == spawn.origin
                &&& v.destination == spawn.destination
                &&& v.next_road_index == 0
                &&& v.status == VehicleStatus::WaitingAtNode(spawn.origin)
                &&& v.total_wait_time == 0
                &&& v.total_travel_time == 0
                &&& v.waiting_ticks_at_node == 0
                &&& v.queued_release_tick == old(self).now() + 1
                &&& old(self).net().is_route(spawn.origin, spawn.destination, v.route@)
                &&& forall|other: Seq<RoadId>|
                    #[trigger] old(self).net().is_route(spawn.origin, spawn.destination, other)
                        ==> old(self).search_cost(plain_search(), spawn.origin, v.route@)
                            <= old(self).search_cost(plain_search(), spawn.origin, other)
                &&& old(self).search_keeps(plain_search(), spawn.origin, v.route@)
                &&& final(self).queue_of(spawn.origin) == old(self).queue_of(spawn.origin).push(id)
                &&& forall|n: NodeId| n != spawn.origin ==> #[trigger] final(self).queue_of(n) == old(self).queue_of(n)
                &&& final(events)@ == old(events)@.push(SimulationEvent::Spawned {
                    vehicle_id: id,
                    name: spawn.name,
                    origin: spawn.origin,
                    destination: spawn.destination,
                    route: final(events)@.last()->Spawned_route,
                })
                &&& final(events)@.last()->Spawned_route@ == v.route@
            },
    {
        let ghost s0 = *self;
        let VehicleSpawn { departure_tick: _, vehicle_type, origin, destination, name } = spawn;
        let no_options = RouteSearchOptions {
            avoid_road: None,
            avoid_full_roads: false,
            respect_signals: false,
        };
        proof {
            assert(no_options == plain_search());
            assert forall|other: Seq<RoadId>|
                #[trigger] self.net().is_route(origin, destination, other) implies
                self.net().leads_to(origin, destination, other, self.search_pred(no_options, origin)) by {
                self.network.lemma_leads_to_weaken(origin, destination, other, |n: NodeId, x: RoadId| true,
                    self.search_pred(no_options, origin));
            }
        }
        let route = match self.compute_route_from(origin, destination, no_options) {
            Some(route) => route,
            None => {
                events.push(SimulationEvent::SpawnFailed {
                    name,
                    origin,
                    destination,
                    reason: String::from_str("no route found"),
                });
                return false;
            },
        };
        proof {
            self.network.lemma_leads_to_weaken(origin, destination, route@,
                |n: NodeId, x: RoadId| self.search_admits(no_options, origin, n, x),
                |n: NodeId, x: RoadId| true);
            self.network.lemma_route_roads(origin, destination, route@, |n: NodeId, x: RoadId| true);
        }
        let vehicle_id = self.next_vehicle_id;
        self.next_vehicle_id = self.next_vehicle_id + 1;
        let route_copy = route.clone();
        proof {
            assert(route_copy@ =~= route@);
        }
        let mut vehicle = Vehicle::with_type(vehicle_id, name.as_str(), origin, destination, route_copy, vehicle_type);
        vehicle.queued_release_tick = self.current_tick + 1;
        let ghost mid = *self;
        proof {
            if s0.vehicle_map().contains_key(vehicle_id) {
                assert(s0.vehicles@[vehicle_id].id == vehicle_id);
            }
            assert(!s0.vehicle_map().contains_key(vehicle_id));
            assert forall|w: VehicleId|
                #![trigger mid.vehicles@[w]]
                mid.vehicles@.contains_key(w) implies {
                    &&& w < mid.next_vehicle_id
                    &&& mid.vehicles@[w].id == w
                    &&& forall|i: int|
                        0 <= i < mid.vehicles@[w].route@.len()
                            ==> mid.network.road_map().contains_key(
                            #[trigger] mid.vehicles@[w].route@[i],
                        )
                } by {
                assert(s0.vehicles@.contains_key(w));
            }
            Self::lemma_places_agree(s0, mid);
            assert(mid.wf());
        }
        self.place_vehicle(vehicle);
        events.push(SimulationEvent::Spawned { vehicle_id, name, origin, destination, route });
        proof {
            assert forall|k: nat| s0.room_for_ticks(k) implies #[trigger] self.room_for_ticks(k) by {
                assert forall|v: VehicleId|
                    #![trigger self.vehicle_map()[v]]
                    self.vehicle_map().contains_key(v) implies {
                        &&& self.vehicle_map()[v].total_wait_time + k <= u32::MAX
                        &&& self.vehicle_map()[v].total_travel_time + k <= u32::MAX
                        &&& self.vehicle_map()[v].waiting_ticks_at_node + k <= u32::MAX
                    } by {
                    if v != vehicle_id {
                        assert(s0.vehicle_map().contains_key(v));
                    }
                }
            }
        }
        true
    }

    /// Releases, in order, every scheduled spawn whose departure tick has
    /// come: each one is taken off the front of the schedule and brought into
    /// the network (or reported as failed), and the rest stays scheduled.
    #[verifier::spinoff_prover]
    pub fn release_scheduled_spawns(&mut self, events: &mut Vec<SimulationEvent>) -> (released: usize)
        requires
            old(self).wf(),
            old(self).now() < u32::MAX,
            old(self).next_id() + old(self).scheduled().len() <= usize::MAX,
        ensures
            final(self).wf(),
            released <= old(self).scheduled().len(),
            forall|i: int| 0 <= i < released ==> #[trigger] old(self).scheduled()[i].departure_tick <= old(self).now(),
            released < old(self).scheduled().len() ==> old(self).scheduled()[released as int].departure_tick > old(self).now(),
            final(self).scheduled() == old(self).scheduled().skip(released as int),
            final(self).net() == old(self).net(),
            final(self).now() == old(self).now(),
            final(self).threshold() == old(self).threshold(),
            final(self).signal_map() == old(self).signal_map(),
            final(self).signal_nodes() == old(self).signal_nodes(),
            old(self).next_id() <= final(self).next_id() <= old(self).next_id() + released,
            forall|v: VehicleId|
                #[trigger] old(self).vehicle_map().contains_key(v) ==> final(self).vehicle_map().contains_key(v)
                    && final(self).vehicle_map()[v] == old(self).vehicle_map()[v],
            forall|v: VehicleId|
                #[trigger] final(self).vehicle_map().contains_key(v) && !old(self).vehicle_map().contains_key(v)
                    ==> just_entered(final(self).vehicle_map()[v], old(self).now()),
            forall|k: nat| old(self).room_for_ticks(k) ==> #[trigger] final(self).room_for_ticks(k),
            forall|r: RoadId, l: int| #[trigger] final(self).lane_of(r, l) == old(self).lane_of(r, l),
            forall|r: RoadId| #[trigger] final(self).lane_count(r) == old(self).lane_count(r),
            forall|n: NodeId| old(self).queue_of(n).is_prefix_of(#[trigger] final(self).queue_of(n)),
            final(events)@.len() == old(events)@.len() + released,
            final(events)@.subrange(0, old(events)@.len() as int) == old(events)@,
            forall|i: int| 0 <= i < released ==> spawn_outcome(
                *old(self),
                *final(self),
                old(self).scheduled()[i],
                #[trigger] final(events)@[old(events)@.len() + i],
            ),
    {
        let ghost s0 = *self;
        let ghost e0 = events@;
        let mut released: usize = 0;
        while self.scheduled_spawns.len() > 0 && self.scheduled_spawns[0].departure_tick <= self.current_tick
            invariant
                self.wf(),
                s0.wf(),
                self.now() == s0.now(),
                s0.now() < u32::MAX,
                s0.next_id() + s0.scheduled().len() <= usize::MAX,
                released <= s0.scheduled().len(),
                forall|i: int| 0 <= i < released ==> #[trigger] s0.scheduled()[i].departure_tick <= s0.now(),
                self.scheduled() == s0.scheduled().skip(released as int),
                self.net() == s0.net(),
                self.threshold() == s0.threshold(),
                self.signal_map() == s0.signal_map(),
                self.signal_nodes() == s0.signal_nodes(),
                s0.next_id() <= self.next_id() <= s0.next_id() + released,
                forall|v: VehicleId|
                    #[trigger] s0.vehicle_map().contains_key(v) ==> self.vehicle_map().contains_key(v)
                        && self.vehicle_map()[v] == s0.vehicle_map()[v],
                forall|v: VehicleId|
                    #[trigger] self.vehicle_map().contains_key(v) && !s0.vehicle_map().contains_key(v)
                        ==> just_entered(self.vehicle_map()[v], s0.now()),
                forall|k: nat| s0.room_for_ticks(k) ==> #[trigger] self.room_for_ticks(k),
                forall|r: RoadId, l: int| #[trigger] self.lane_of(r, l) == s0.lane_of(r, l),
                events@.len() == e0.len() + released,
                events@.subrange(0, e0.len() as int) == e0,
                forall|r: RoadId| #[trigger] self.lane_count(r) == s0.lane_count(r),
                forall|n: NodeId| s0.queue_of(n).is_prefix_of(#[trigger] self.queue_of(n)),
                forall|i: int| 0 <= i < released ==> spawn_outcome(
                    s0,
                    *self,
                    s0.scheduled()[i],
                    #[trigger] events@[e0.len() + i],
                ),
            decreases self.scheduled().len(),
        {
            let ghost before = *self;
            let ghost ev_before = events@;
            let spawn = self.scheduled_spawns.remove(0);
            let ghost sp = spawn;
            proof {
                assert(sp == s0.scheduled()[released as int]);
                assert(self.scheduled_spawns@ =~= s0.scheduled().skip(released + 1));
                let t = self.scheduled_spawns@;
                assert(spawns_sorted(t)) by {
                    assert forall|a: int, b: int| 0 <= a < b < t.len() implies
                        #[trigger] t[a].departure_tick <= #[trigger] t[b].departure_tick by {
                        assert(t[a] == before.scheduled_spawns@[a + 1]);
                        assert(t[b] == before.scheduled_spawns@[b + 1]);
                    }
                }
                Self::lemma_places_agree(before, *self);
                assert forall|k: nat| before.room_for_ticks(k) implies #[trigger] self.room_for_ticks(k) by {
                    assert forall|v: VehicleId|
                        #![trigger self.vehicle_map()[v]]
                        self.vehicle_map().contains_key(v) implies {
                            &&& self.vehicle_map()[v].total_wait_time + k <= u32::MAX
                            &&& self.vehicle_map()[v].total_travel_time + k <= u32::MAX
                            &&& self.vehicle_map()[v].waiting_ticks_at_node + k <= u32::MAX
                        } by {
                        assert(before.vehicle_map().contains_key(v));
                    }
                }
            }
            let ghost mid = *self;
            self.spawn_vehicle(spawn, events);
            proof {
                assert(events@[e0.len() + released] == events@.last());
                assert forall|i: int| 0 <= i < e0.len() implies events@[i] == e0[i] by {
                    assert(ev_before.subrange(0, e0.len() as int)[i] == e0[i]);
                }
                assert(events@.subrange(0, e0.len() as int) =~= e0);
                assert forall|r: RoadId, l: int| #[trigger] self.lane_of(r, l) == s0.lane_of(r, l) by {
                    assert(mid.lane_of(r, l) == before.lane_of(r, l));
                    assert(before.lane_of(r, l) == s0.lane_of(r, l));
                }
                assert forall|k: nat| s0.room_for_ticks(k) implies #[trigger] self.room_for_ticks(k) by {
                    assert(before.room_for_ticks(k));
                    assert(mid.room_for_ticks(k));
                }
                assert forall|v: VehicleId|
                    #[trigger] s0.vehicle_map().contains_key(v) implies self.vehicle_map().contains_key(v)
                        && self.vehicle_map()[v] == s0.vehicle_map()[v] by {
                    assert(before.vehicle_map().contains_key(v) && before.vehicle_map()[v] == s0.vehicle_map()[v]);
                    assert(mid.vehicle_map().contains_key(v));
                    assert(mid.vehicles@[v].id == v);
                    assert(v < mid.next_id());
                    assert(mid.vehicle_map()[v] == s0.vehicle_map()[v]);
                }
            }
            proof {
                assert forall|r: RoadId| #[trigger] self.lane_count(r) == s0.lane_count(r) by {
                    assert(mid.lane_count(r) == before.lane_count(r));
                }
                assert forall|n: NodeId| s0.queue_of(n).is_prefix_of(#[trigger] self.queue_of(n)) by {
                    assert(mid.queue_of(n) == before.queue_of(n));
                    assert(s0.queue_of(n).is_prefix_of(before.queue_of(n)));
                    assert(self.queue_of(n).subrange(0, s0.queue_of(n).len() as int) =~= s0.queue_of(n)) by {
                        assert forall|i: int| 0 <= i < s0.queue_of(n).len() implies self.queue_of(n)[i] == s0.queue_of(n)[i] by {
                            assert(before.queue_of(n)[i] == s0.queue_of(n)[i]);
                        }
                    }
                }
                assert forall|r: RoadId, l: int| #[trigger] mid.lane_of(r, l) == s0.lane_of(r, l) by {
                    assert(mid.lane_of(r, l) == before.lane_of(r, l));
                }
                assert forall|r: RoadId| #[trigger] mid.lane_count(r) == s0.lane_count(r) by {
                    assert(mid.lane_count(r) == before.lane_count(r));
                }
                assert forall|other: Seq<RoadId>|
                    #[trigger] s0.search_cost(plain_search(), sp.origin, other)
                        == mid.search_cost(plain_search(), sp.origin, other) by {
                    Self::lemma_same_lanes_same_cost(s0, mid, plain_search(), sp.origin, other);
                }
                match events@[e0.len() + released] {
                    SimulationEvent::Spawned { route, .. } => {
                        if mid.search_keeps(plain_search(), sp.origin, route@) {
                            Self::lemma_same_lanes_same_keep(mid, s0, plain_search(), sp.origin, route@);
                        }
                    },
                    _ => {},
                }
                assert(spawn_outcome(s0, *self, sp, events@[e0.len() + released]));
                assert forall|i: int| 0 <= i < released implies spawn_outcome(
                    s0,
                    *self,
                    s0.scheduled()[i],
                    #[trigger] events@[e0.len() + i],
                ) by {
                    assert(events@[e0.len() + i] == ev_before[e0.len() + i]);
                    assert(spawn_outcome(s0, before, s0.scheduled()[i], ev_before[e0.len() + i]));
                    match ev_before[e0.len() + i] {
                        SimulationEvent::Spawned { vehicle_id, .. } => {
                            assert(mid.vehicle_map().contains_key(vehicle_id));
                            assert(mid.vehicles@[vehicle_id].id == vehicle_id);
                            assert(vehicle_id < mid.next_id());
                        },
                        _ => {},
                    }
                }
            }
            released = released + 1;
        }
        released
    }
}

} // verus!
