//! Running the simulation tick by tick.
use vstd::prelude::*;
use crate::idmap::{has_key, index_of, lemma_entries};
use crate::model::{NodeId, RoadId, VehicleId, VehicleSpawn, VehicleStatus};
use super::Simulation;
use super::events::SimulationEvent;
use super::signals::advanced_signal;
use super::spawn::{just_entered, spawn_outcome};
use super::movement::front_moved;
use super::queues::{event_vehicle, left_queue, reports_left};
use super::timing::counted;

verus! {

/// The first `j` spawns of `s` are due at tick `now` and the others are not.
pub open spec fn due_prefix(s: Seq<VehicleSpawn>, now: u32, j: int) -> bool {
    &&& 0 <= j <= s.len()
    &&& forall|i: int| 0 <= i < j ==> #[trigger] s[i].departure_tick <= now
    &&& j < s.len() ==> s[j].departure_tick > now
}

/// What moving the front of lane `l` of road `r` reports once the times of
/// the tick have been counted: as `Simulation::front_event`, with the front
/// vehicle counted at tick `s.now()`.
pub open spec fn counted_front_event(s: Simulation, r: RoadId, l: int) -> Seq<SimulationEvent> {
    if s.lane_of(r, l).len() > 0 {
        let v = s.lane_of(r, l)[0];
        let vehicle = counted(s.vehicle_map()[v], s.now());
        if vehicle.status->OnRoad_remaining_time <= 1 {
            if vehicle.next_road_index >= vehicle.route@.len() {
                seq![
                    SimulationEvent::Completed {
                        vehicle_id: v,
                        destination: vehicle.destination,
                        wait_time: vehicle.total_wait_time,
                        travel_time: vehicle.total_travel_time,
                    },
                ]
            } else {
                seq![SimulationEvent::ReachedNode { vehicle_id: v, node_id: s.net().road_map()[r].to }]
            }
        } else {
            Seq::empty()
        }
    } else {
        Seq::empty()
    }
}

/// What moving the fronts of the first `n` lanes of road `r` reports once
/// the times of the tick have been counted.
pub open spec fn counted_road_front_events(s: Simulation, r: RoadId, n: int) -> Seq<SimulationEvent>
    decreases n,
{
    if n <= 0 {
        Seq::empty()
    } else {
        counted_road_front_events(s, r, n - 1) + counted_front_event(s, r, n - 1)
    }
}

/// What moving the fronts of every lane of the first `k` roads, in
/// increasing identifier, reports once the times of the tick have been
/// counted.
pub open spec fn counted_fronts_events(s: Simulation, k: int) -> Seq<SimulationEvent>
    decreases k,
{
    if k <= 0 {
        Seq::empty()
    } else {
        let r = s.net().road_ids()[k - 1];
        counted_fronts_events(s, k - 1) + counted_road_front_events(s, r, s.lane_count(r))
    }
}

/// A prefix of a sequence stays one when more is appended.
proof fn lemma_prefix_extended(a: Seq<VehicleId>, b: Seq<VehicleId>, c: Seq<VehicleId>)
    requires
        a.is_prefix_of(b),
    ensures
        a.is_prefix_of(b + c),
{
    assert forall|i: int| 0 <= i < a.len() implies (b + c).subrange(0, a.len() as int)[i] == a[i] by {
        assert(b.subrange(0, a.len() as int)[i] == a[i]);
    }
    assert((b + c).subrange(0, a.len() as int) =~= a);
}

impl Simulation {
    /// A state whose lanes are those of `s0`, and whose vehicles are those
    /// of `s0` counted for the tick, reports at the lane fronts what `s0`
    /// would once counted.
    proof fn lemma_counted_fronts(s0: Simulation, t: Simulation, k: int)
        requires
            s0.wf(),
            t.net() == s0.net(),
            forall|r: RoadId| #[trigger] t.lane_count(r) == s0.lane_count(r),
            forall|r: RoadId, l: int| #[trigger] t.lane_of(r, l) == s0.lane_of(r, l),
            forall|v: VehicleId|
                #![trigger s0.vehicle_map()[v]]
                s0.vehicle_map().contains_key(v) ==> t.vehicle_map()[v] == counted(s0.vehicle_map()[v], s0.now()),
        ensures
            t.fronts_events(k) == counted_fronts_events(s0, k),
        decreases k,
    {
        if k > 0 {
            Self::lemma_counted_fronts(s0, t, k - 1);
            let r = s0.net().road_ids()[k - 1];
            Self::lemma_counted_road_fronts(s0, t, r, s0.lane_count(r));
        }
    }

    proof fn lemma_counted_road_fronts(s0: Simulation, t: Simulation, r: RoadId, n: int)
        requires
            s0.wf(),
            t.net() == s0.net(),
            forall|r: RoadId, l: int| #[trigger] t.lane_of(r, l) == s0.lane_of(r, l),
            forall|v: VehicleId|
                #![trigger s0.vehicle_map()[v]]
                s0.vehicle_map().contains_key(v) ==> t.vehicle_map()[v] == counted(s0.vehicle_map()[v], s0.now()),
        ensures
            t.road_front_events(r, n) == counted_road_front_events(s0, r, n),
        decreases n,
    {
        if n > 0 {
            Self::lemma_counted_road_fronts(s0, t, r, n - 1);
            let l = n - 1;
            assert(t.lane_of(r, l) == s0.lane_of(r, l));
            if s0.lane_of(r, l).len() > 0 {
                let v = s0.lane_of(r, l)[0];
                assert(s0.vehicle_map().contains_key(v));
            }
            assert(t.front_event(r, l) == counted_front_event(s0, r, l));
        }
    }

    proof fn lemma_signal_events_kind(s: Simulation, ns: Seq<NodeId>)
        ensures
            forall|i: int| 0 <= i < s.signal_events(ns).len() ==> #[trigger] s.signal_events(ns)[i] is SignalChanged,
        decreases ns.len(),
    {
        if ns.len() > 0 {
            Self::lemma_signal_events_kind(s, ns.drop_last());
            let a = s.signal_events(ns.drop_last());
            assert forall|i: int| 0 <= i < s.signal_events(ns).len() implies #[trigger] s.signal_events(ns)[i] is SignalChanged by {
                if i < a.len() {
                    assert(s.signal_events(ns)[i] == a[i]);
                }
            }
        }
    }

    /// A lane-front event that reports a vehicle reaching a node names a
    /// vehicle that was on a road.
    pub open spec fn front_report(s: Simulation, e: SimulationEvent) -> bool {
        ||| e is Completed
        ||| (e is ReachedNode && s.vehicle_map().contains_key(event_vehicle(e))
            && s.vehicle_map()[event_vehicle(e)].status is OnRoad)
    }

    proof fn lemma_road_fronts_kind(s: Simulation, r: RoadId, k: int)
        requires
            s.wf(),
        ensures
            forall|i: int|
                0 <= i < counted_road_front_events(s, r, k).len() ==> Self::front_report(
                    s,
                    #[trigger] counted_road_front_events(s, r, k)[i],
                ),
        decreases k,
    {
        if k > 0 {
            Self::lemma_road_fronts_kind(s, r, k - 1);
            let a = counted_road_front_events(s, r, k - 1);
            let b = counted_front_event(s, r, k - 1);
            if s.lane_of(r, k - 1).len() > 0 {
                let v = s.lane_of(r, k - 1)[0];
                assert(s.vehicle_map().contains_key(v));
            }
            assert forall|i: int| 0 <= i < (a + b).len() implies Self::front_report(s, #[trigger] (a + b)[i]) by {
                if i < a.len() {
                    assert((a + b)[i] == a[i]);
                } else {
                    assert((a + b)[i] == b[i - a.len()]);
                }
            }
        }
    }

    proof fn lemma_fronts_kind(s: Simulation, k: int)
        requires
            s.wf(),
        ensures
            forall|i: int|
                0 <= i < counted_fronts_events(s, k).len() ==> Self::front_report(s, #[trigger] counted_fronts_events(s, k)[i]),
        decreases k,
    {
        if k > 0 {
            Self::lemma_fronts_kind(s, k - 1);
            let r = s.net().road_ids()[k - 1];
            Self::lemma_road_fronts_kind(s, r, s.lane_count(r));
            let a = counted_fronts_events(s, k - 1);
            let b = counted_road_front_events(s, r, s.lane_count(r));
            assert forall|i: int| 0 <= i < (a + b).len() implies Self::front_report(s, #[trigger] (a + b)[i]) by {
                if i < a.len() {
                    assert((a + b)[i] == a[i]);
                } else {
                    assert((a + b)[i] == b[i - a.len()]);
                }
            }
        }
    }

    /// A vehicle waits at least one tick at a node before it leaves it: no
    /// vehicle that a tick reports entering the network or reaching a node is
    /// reported by the same tick entering a road or rerouted.
    pub proof fn lemma_no_departure_on_arrival(s: Simulation, t: Simulation, events: Seq<SimulationEvent>, x: int, y: int)
        requires
            s.wf(),
            Self::stepped(s, t, events),
            0 <= x < events.len(),
            0 <= y < events.len(),
            events[x] is Spawned || events[x] is ReachedNode,
            events[y] is EnteredRoad || events[y] is EmergencyEnteredRoad || events[y] is Rerouted,
        ensures
            event_vehicle(events[x]) != event_vehicle(events[y]),
    {
        let j = choose|j: int|
            {
                &&& due_prefix(s.scheduled(), s.now(), j)
                &&& t.scheduled() == s.scheduled().skip(j)
                &&& events.len() >= j + s.signal_events(s.signal_nodes()).len()
                &&& forall|i: int| 0 <= i < j ==> spawn_outcome(s, t, s.scheduled()[i], #[trigger] events[i])
                &&& events.subrange(j, j + s.signal_events(s.signal_nodes()).len()) == s.signal_events(s.signal_nodes())
                &&& ({
                    let a = j + s.signal_events(s.signal_nodes()).len();
                    let fronts = counted_fronts_events(s, s.net().road_ids().len() as int);
                    &&& events.len() >= a + fronts.len()
                    &&& events.subrange(a, a + fronts.len()) == fronts
                    &&& forall|x: int|
                        a + fronts.len() <= x < events.len() ==> {
                            let v = event_vehicle(#[trigger] events[x]);
                            let waited = counted(s.vehicle_map()[v], s.now());
                            &&& s.vehicle_map().contains_key(v)
                            &&& s.vehicle_map()[v].status is WaitingAtNode
                            &&& s.leaving(waited)
                            &&& reports_left(events[x], waited, t.vehicle_map()[v])
                            &&& waited.waiting_ticks_at_node < s.threshold() ==> (events[x] is Completed
                                || events[x] is EnteredRoad)
                        }
                    &&& forall|v: VehicleId|
                        #![trigger t.vehicle_map()[v]]
                        s.vehicle_map().contains_key(v) && s.vehicle_map()[v].status is WaitingAtNode
                            && t.vehicle_map()[v] != counted(s.vehicle_map()[v], s.now())
                            ==> exists|x: int| a + fronts.len() <= x < events.len() && event_vehicle(#[trigger] events[x]) == v
                })
            };
        let sig = s.signal_events(s.signal_nodes());
        let a = j + sig.len();
        let fronts = counted_fronts_events(s, s.net().road_ids().len() as int);
        Self::lemma_signal_events_kind(s, s.signal_nodes());
        Self::lemma_fronts_kind(s, s.net().road_ids().len() as int);
        // Where each of the two events stands.
        assert forall|z: int| 0 <= z < events.len() && !(events[z] is Spawned || events[z] is SpawnFailed
            || events[z] is SignalChanged || events[z] is Completed || events[z] is ReachedNode)
            implies a + fronts.len() <= z by {
            if z < j {
                assert(spawn_outcome(s, t, s.scheduled()[z], events[z]));
            } else if z < a {
                assert(events[z] == events.subrange(j, a)[z - j]);
            } else if z < a + fronts.len() {
                assert(events[z] == events.subrange(a, a + fronts.len())[z - a]);
                assert(Self::front_report(s, fronts[z - a]));
            }
        }
        assert(a + fronts.len() <= y);
        let v = event_vehicle(events[y]);
        assert(s.vehicle_map()[v].status is WaitingAtNode);
        if events[x] is Spawned {
            if a + fronts.len() <= x {
                assert(reports_left(events[x], counted(s.vehicle_map()[event_vehicle(events[x])], s.now()),
                    t.vehicle_map()[event_vehicle(events[x])]));
            } else if x < j {
                assert(spawn_outcome(s, t, s.scheduled()[x], events[x]));
            } else if x < a {
                assert(events[x] == events.subrange(j, a)[x - j]);
            } else {
                assert(events[x] == events.subrange(a, a + fronts.len())[x - a]);
                assert(Self::front_report(s, fronts[x - a]));
            }
        } else {
            if a + fronts.len() <= x {
                assert(reports_left(events[x], counted(s.vehicle_map()[event_vehicle(events[x])], s.now()),
                    t.vehicle_map()[event_vehicle(events[x])]));
            } else if x < j {
                assert(spawn_outcome(s, t, s.scheduled()[x], events[x]));
            } else if x < a {
                assert(events[x] == events.subrange(j, a)[x - j]);
            } else {
                assert(events[x] == events.subrange(a, a + fronts.len())[x - a]);
                assert(Self::front_report(s, fronts[x - a]));
            }
        }
    }

    /// Whether a tick can be run within the machine's limits: the clock and
    /// every vehicle's counters can count one more tick, and an identifier is
    /// left for every scheduled spawn.
    pub fn can_step(&self) -> (ok: bool)
        requires
            self.wf(),
        ensures
            ok == (self.room_for_ticks(1) && self.ids_left()),
    {
        proof {
            lemma_entries(self.vehicles.entries@);
        }
        if self.current_tick == u32::MAX {
            return false;
        }
        if self.scheduled_spawns.len() > usize::MAX - self.next_vehicle_id {
            return false;
        }
        let mut i: usize = 0;
        while i < self.vehicles.entries.len()
            invariant
                self.wf(),
                i <= self.vehicles.entries@.len(),
                forall|j: int|
                    0 <= j < i ==> {
                        let v = (#[trigger] self.vehicles.entries@[j]).1;
                        &&& v.total_wait_time < u32::MAX
                        &&& v.total_travel_time < u32::MAX
                        &&& v.waiting_ticks_at_node < u32::MAX
                    },
            decreases self.vehicles.entries@.len() - i,
        {
            let v = &self.vehicles.entries[i].1;
            if v.total_wait_time == u32::MAX || v.total_travel_time == u32::MAX || v.waiting_ticks_at_node
                == u32::MAX {
                proof {
                    let k = self.vehicles.entries@[i as int].0;
                    assert(self.vehicle_map().contains_key(k));
                    assert(self.vehicle_map()[k] == self.vehicles.entries@[i as int].1);
                }
                return false;
            }
            i = i + 1;
        }
        proof {
            assert forall|v: VehicleId|
                #![trigger self.vehicle_map()[v]]
                self.vehicle_map().contains_key(v) implies {
                    &&& self.vehicle_map()[v].total_wait_time + 1 <= u32::MAX
                    &&& self.vehicle_map()[v].total_travel_time + 1 <= u32::MAX
                    &&& self.vehicle_map()[v].waiting_ticks_at_node + 1 <= u32::MAX
                } by {
                let j = index_of(self.vehicles.entries@, v);
                assert(has_key(self.vehicles.entries@, v));
                assert(self.vehicles.entries@[j].0 == v);
                assert(self.vehicle_map()[v] == self.vehicles.entries@[j].1);
            }
        }
        true
    }

    /// Identifiers are left for every scheduled spawn.
    pub open spec fn ids_left(&self) -> bool {
        self.next_id() + self.scheduled().len() <= usize::MAX
    }

    /// `t` is the state one tick after `s`, and `events` what the tick
    /// reported. Every vehicle of `s` is still there, with its waiting and
    /// travel times counted for the tick; finished vehicles are as they were;
    /// vehicles at the front of their lanes move on and the others drive on;
    /// a waiting vehicle stays as counted or leaves its queue as
    /// `left_queue` allows, if it may leave; new vehicles wait at their
    /// origin; every signal advances. The events report, in order, what
    /// became of each due spawn, the signal changes, what the lane fronts
    /// did, and how vehicles left the node queues, each of which is named;
    /// those last events are the moves by which the queues were served, in
    /// the order of `queue_run`, from the state the tick had reached before.
    pub open spec fn stepped(s: Simulation, t: Simulation, events: Seq<SimulationEvent>) -> bool {
        &&& t.wf()
        &&& t.now() == s.now() + 1
        &&& t.net() == s.net()
        &&& t.threshold() == s.threshold()
        &&& t.ids_left()
        &&& s.next_id() <= t.next_id()
        &&& t.next_id() + t.scheduled().len() <= s.next_id() + s.scheduled().len()
        &&& forall|k: nat| s.room_for_ticks(k + 1) ==> #[trigger] t.room_for_ticks(k)
        &&& forall|v: VehicleId|
            #[trigger] s.vehicle_map().contains_key(v) ==> t.vehicle_map().contains_key(v)
        &&& t.finished_kept(s)
        &&& forall|v: VehicleId|
            #![trigger s.vehicle_map()[v]]
            s.vehicle_map().contains_key(v) ==> {
                let counted_now = counted(s.vehicle_map()[v], s.now());
                &&& t.vehicle_map()[v].total_wait_time == counted_now.total_wait_time
                &&& t.vehicle_map()[v].total_travel_time == counted_now.total_travel_time
            }
        &&& forall|v: VehicleId|
            #![trigger s.vehicle_map()[v]]
            s.vehicle_map().contains_key(v) && s.vehicle_map()[v].status is OnRoad
                ==> t.vehicle_map()[v] == if s.at_lane_front(v) {
                front_moved(
                    counted(s.vehicle_map()[v], s.now()),
                    s.now(),
                    s.net().road_map()[s.vehicle_map()[v].status->OnRoad_road_id].to,
                )
            } else {
                counted(s.vehicle_map()[v], s.now())
            }
        &&& forall|v: VehicleId|
            #![trigger s.vehicle_map()[v]]
            s.vehicle_map().contains_key(v) && s.vehicle_map()[v].status is WaitingAtNode
                && s.vehicle_map()[v].queued_release_tick > s.now()
                ==> t.vehicle_map()[v] == s.vehicle_map()[v]
        &&& forall|v: VehicleId|
            #![trigger s.vehicle_map()[v]]
            s.vehicle_map().contains_key(v) && s.vehicle_map()[v].status is WaitingAtNode ==> {
                let waited = counted(s.vehicle_map()[v], s.now());
                ||| t.vehicle_map()[v] == waited
                ||| (s.leaving(waited) && left_queue(s.net(), waited, t.vehicle_map()[v]))
            }
        &&& forall|v: VehicleId|
            #[trigger] t.vehicle_map().contains_key(v) && !s.vehicle_map().contains_key(v)
                ==> just_entered(t.vehicle_map()[v], s.now())
        &&& t.at_tick(s.now()).drained()
        &&& t.signal_map().dom() == s.signal_map().dom()
        &&& forall|n: NodeId|
            #![trigger t.signal_map()[n]]
            t.signal_map().contains_key(n) ==> t.signal_map()[n]
                == advanced_signal(s.signal_map()[n], s.phases_of(n))
        &&& exists|j: int|
            {
                &&& due_prefix(s.scheduled(), s.now(), j)
                &&& t.scheduled() == s.scheduled().skip(j)
                &&& events.len() >= j + s.signal_events(s.signal_nodes()).len()
                &&& forall|i: int| 0 <= i < j ==> spawn_outcome(
                    s,
                    t,
                    s.scheduled()[i],
                    #[trigger] events[i],
                )
                &&& events.subrange(j, j + s.signal_events(s.signal_nodes()).len())
                    == s.signal_events(s.signal_nodes())
                &&& ({
                    let a = j + s.signal_events(s.signal_nodes()).len();
                    let fronts = counted_fronts_events(s, s.net().road_ids().len() as int);
                    &&& events.len() >= a + fronts.len()
                    &&& events.subrange(a, a + fronts.len()) == fronts
                    &&& forall|x: int|
                        a + fronts.len() <= x < events.len() ==> {
                            let v = event_vehicle(#[trigger] events[x]);
                            let waited = counted(s.vehicle_map()[v], s.now());
                            &&& s.vehicle_map().contains_key(v)
                            &&& s.vehicle_map()[v].status is WaitingAtNode
                            &&& s.leaving(waited)
                            &&& reports_left(events[x], waited, t.vehicle_map()[v])
                            &&& waited.waiting_ticks_at_node < s.threshold() ==> (events[x] is Completed
                                || events[x] is EnteredRoad)
                        }
                    &&& forall|v: VehicleId|
                        #![trigger t.vehicle_map()[v]]
                        s.vehicle_map().contains_key(v) && s.vehicle_map()[v].status is WaitingAtNode
                            && t.vehicle_map()[v] != counted(s.vehicle_map()[v], s.now())
                            ==> exists|x: int| a + fronts.len() <= x < events.len() && event_vehicle(#[trigger] events[x]) == v
                    &&& Self::queues_served(s, t, events.skip(a + fronts.len()))
                })
            }
    }

    /// The queues of a tick only grow at their back: spawns and arrivals
    /// join behind the vehicles already waiting.
    proof fn lemma_queues_extended(s0: Simulation, s1: Simulation, s2: Simulation, s3: Simulation, s4: Simulation)
        requires
            forall|n: NodeId| s0.queue_of(n).is_prefix_of(#[trigger] s1.queue_of(n)),
            forall|n: NodeId| #[trigger] s2.queue_of(n) == s1.queue_of(n),
            s3.unchanged_but_signals(s2),
            forall|n: NodeId|
                #[trigger] s4.queue_of(n) == s3.queue_of(n) + s3.fronts_arrivals(s3.net().road_ids().len() as int, n),
        ensures
            forall|n: NodeId| s0.queue_of(n).is_prefix_of(#[trigger] s4.queue_of(n)),
    {
        assert forall|n: NodeId| s0.queue_of(n).is_prefix_of(#[trigger] s4.queue_of(n)) by {
            assert(s0.queue_of(n).is_prefix_of(s1.queue_of(n)));
            assert(s3.queue_of(n) == s2.queue_of(n));
            lemma_prefix_extended(
                s0.queue_of(n),
                s3.queue_of(n),
                s3.fronts_arrivals(s3.net().road_ids().len() as int, n),
            );
        }
    }

    /// Counting a tick changes no lane, nor what its front has left to
    /// drive.
    proof fn lemma_counted_lanes(s0: Simulation, s: Simulation)
        requires
            s0.wf(),
            forall|r: RoadId, l: int| #[trigger] s.lane_of(r, l) == s0.lane_of(r, l),
            forall|v: VehicleId|
                #![trigger s0.vehicle_map()[v]]
                s0.vehicle_map().contains_key(v) ==> s.vehicle_map()[v] == counted(s0.vehicle_map()[v], s0.now()),
        ensures
            forall|r: RoadId, l: int| #[trigger] s.lane_after_front(r, l) == s0.lane_after_front(r, l),
    {
        assert forall|r: RoadId, l: int| #[trigger] s.lane_after_front(r, l) == s0.lane_after_front(r, l) by {
            assert(s.lane_of(r, l) == s0.lane_of(r, l));
            if s0.lane_of(r, l).len() > 0 {
                let v = s0.lane_of(r, l)[0];
                assert(s0.lane_of(r, l).contains(v));
                assert(s0.vehicle_map().contains_key(v));
                assert(s.vehicle_map()[v] == counted(s0.vehicle_map()[v], s0.now()));
            }
        }
    }

    /// Runs one tick: the spawns that are due enter, the waiting and travel
    /// times are counted, the signals advance, the vehicles at the front of
    /// their lanes reach the end of their roads, the node queues let
    /// vehicles out, and the clock moves on by one. The events come in that
    /// order: what became of each due spawn, the signal changes, what the
    /// lane fronts did, and how vehicles left the node queues.
    #[verifier::rlimit(80)]
    #[verifier::spinoff_prover]
    pub fn step(&mut self) -> (events: Vec<SimulationEvent>)
        requires
            old(self).wf(),
            old(self).room_for_ticks(1),
            old(self).ids_left(),
        ensures
            Self::stepped(*old(self), *final(self), events@),
    {
        let ghost s0 = *self;
        let mut events: Vec<SimulationEvent> = Vec::new();
        let released = self.release_scheduled_spawns(&mut events);
        let ghost s1 = *self;
        let ghost e1 = events@;
        self.increment_time_counters();
        let ghost s2 = *self;
        proof {
            assert forall|k: nat| s0.room_for_ticks(k + 1) implies #[trigger] s2.room_for_ticks(k) by {
                assert(s1.room_for_ticks(k + 1));
                assert forall|v: VehicleId|
                    #![trigger s2.vehicle_map()[v]]
                    s2.vehicle_map().contains_key(v) implies {
                        &&& s2.vehicle_map()[v].total_wait_time + k <= u32::MAX
                        &&& s2.vehicle_map()[v].total_travel_time + k <= u32::MAX
                        &&& s2.vehicle_map()[v].waiting_ticks_at_node + k <= u32::MAX
                    } by {
                    assert(s1.vehicle_map().contains_key(v));
                    assert(s2.vehicle_map()[v] == counted(s1.vehicle_map()[v], s1.now()));
                }
            }
            Self::lemma_signal_events_same(s0, s2, s0.signal_nodes());
            assert(s2.signal_nodes() == s0.signal_nodes());
        }
        self.advance_signals(&mut events);
        let ghost s3 = *self;
        let ghost e3 = events@;
        self.advance_road_fronts(&mut events);
        let ghost s4 = *self;
        let ghost e4 = events@;
        self.release_node_queues(&mut events);
        let ghost s5 = *self;
        self.current_tick = self.current_tick + 1;
        proof {
            Self::lemma_places_agree(s5, *self);
            Self::lemma_not_above_trans(s3, s4, s5);
            assert(s2.finished_kept(s0)) by {
                assert forall|v: VehicleId|
                    #![trigger s0.vehicle_map()[v]]
                    s0.vehicle_map().contains_key(v) && s0.vehicle_map()[v].status == VehicleStatus::Finished
                        implies s2.vehicle_map().contains_key(v) && s2.vehicle_map()[v] == s0.vehicle_map()[v] by {
                    assert(s1.vehicle_map().contains_key(v));
                    assert(s2.vehicle_map()[v] == counted(s1.vehicle_map()[v], s1.now()));
                }
            }
            assert(s3.finished_kept(s2));
            Self::lemma_finished_kept_trans(s0, s2, s3);
            Self::lemma_finished_kept_trans(s0, s3, s4);
            Self::lemma_finished_kept_trans(s0, s4, s5);
            assert(self.finished_kept(s5));
            Self::lemma_finished_kept_trans(s0, s5, *self);
            assert forall|v: VehicleId|
                #![trigger s0.vehicle_map()[v]]
                s0.vehicle_map().contains_key(v) && s0.vehicle_map()[v].status is OnRoad
                    implies self.vehicle_map()[v] == if s0.at_lane_front(v) {
                    front_moved(
                        counted(s0.vehicle_map()[v], s0.now()),
                        s0.now(),
                        s0.net().road_map()[s0.vehicle_map()[v].status->OnRoad_road_id].to,
                    )
                } else {
                    counted(s0.vehicle_map()[v], s0.now())
                } by {
                let r = s0.vehicle_map()[v].status->OnRoad_road_id;
                let l = s0.vehicle_map()[v].status->OnRoad_lane_index as int;
                assert(s1.vehicle_map()[v] == s0.vehicle_map()[v]);
                assert(s2.vehicle_map()[v] == counted(s1.vehicle_map()[v], s1.now()));
                assert(s3.vehicle_map()[v] == s2.vehicle_map()[v]);
                assert(s3.vehicle_map().contains_key(v));
                assert(s3.lane_of(r, l) == s0.lane_of(r, l)) by {
                    assert(s1.lane_of(r, l) == s0.lane_of(r, l));
                    assert(s2.lane_of(r, l) == s1.lane_of(r, l));
                }
                assert(s3.at_lane_front(v) == s0.at_lane_front(v));
                assert(!s4.leaving(s4.vehicle_map()[v]));
            }
            assert forall|v: VehicleId|
                #![trigger s0.vehicle_map()[v]]
                s0.vehicle_map().contains_key(v) && s0.vehicle_map()[v].status is WaitingAtNode
                    && s0.vehicle_map()[v].queued_release_tick > s0.now()
                    implies self.vehicle_map()[v] == s0.vehicle_map()[v] by {
                assert(s1.vehicle_map()[v] == s0.vehicle_map()[v]);
                assert(s2.vehicle_map()[v] == counted(s1.vehicle_map()[v], s1.now()));
                assert(s3.vehicle_map()[v] == s2.vehicle_map()[v]);
                assert(s3.vehicle_map().contains_key(v));
                assert(!s3.at_lane_front(v));
                assert(!s4.leaving(s4.vehicle_map()[v]));
            }
            assert forall|v: VehicleId|
                #![trigger s0.vehicle_map()[v]]
                s0.vehicle_map().contains_key(v) && s0.vehicle_map()[v].status is WaitingAtNode implies {
                    let waited = counted(s0.vehicle_map()[v], s0.now());
                    ||| self.vehicle_map()[v] == waited
                    ||| (s0.leaving(waited) && left_queue(s0.net(), waited, self.vehicle_map()[v]))
                } by {
                assert(s1.vehicle_map()[v] == s0.vehicle_map()[v]);
                assert(s2.vehicle_map()[v] == counted(s1.vehicle_map()[v], s1.now()));
                assert(s3.vehicle_map()[v] == s2.vehicle_map()[v]);
                assert(s3.vehicle_map().contains_key(v));
                assert(!s3.at_lane_front(v));
                assert(s4.vehicle_map()[v] == s3.vehicle_map()[v]);
                assert(s4.vehicle_map().contains_key(v));
            }
            assert forall|v: VehicleId|
                #[trigger] s1.vehicle_map().contains_key(v) && !s0.vehicle_map().contains_key(v)
                    implies self.vehicle_map().contains_key(v) && self.vehicle_map()[v] == s1.vehicle_map()[v] by {
                assert(just_entered(s1.vehicle_map()[v], s0.now()));
                assert(s2.vehicle_map()[v] == counted(s1.vehicle_map()[v], s1.now()));
                assert(s3.vehicle_map()[v] == s2.vehicle_map()[v]);
                assert(s3.vehicle_map().contains_key(v));
                assert(!s3.at_lane_front(v));
                assert(!s4.leaving(s4.vehicle_map()[v]));
            }
            assert forall|v: VehicleId|
                #[trigger] self.vehicle_map().contains_key(v) && !s0.vehicle_map().contains_key(v)
                    implies just_entered(self.vehicle_map()[v], s0.now()) by {
                assert(s1.vehicle_map().contains_key(v));
            }
            assert(s4.totals_kept(s3));
            assert(s5.totals_kept(s4));
            Self::lemma_totals_kept_trans(s3, s4, s5);
            assert forall|v: VehicleId|
                #![trigger s0.vehicle_map()[v]]
                s0.vehicle_map().contains_key(v) implies {
                    let counted_now = counted(s0.vehicle_map()[v], s0.now());
                    &&& self.vehicle_map()[v].total_wait_time == counted_now.total_wait_time
                    &&& self.vehicle_map()[v].total_travel_time == counted_now.total_travel_time
                } by {
                assert(s1.vehicle_map().contains_key(v));
                assert(s1.vehicle_map()[v] == s0.vehicle_map()[v]);
                assert(s2.vehicle_map()[v] == counted(s1.vehicle_map()[v], s1.now()));
                assert(s3.vehicle_map()[v] == s2.vehicle_map()[v]);
                assert(s3.vehicle_map().contains_key(v));
                assert(s5.vehicle_map()[v].total_wait_time == s3.vehicle_map()[v].total_wait_time);
            }
            let sig = s0.signal_events(s0.signal_nodes());
            let j = released as int;
            assert(e3 == e1 + sig);
            assert forall|i: int| 0 <= i < e3.len() implies events@[i] == e3[i] by {
                assert(events@.subrange(0, e4.len() as int)[i] == e4[i]);
                assert(e4.subrange(0, e3.len() as int)[i] == e3[i]);
            }
            assert forall|i: int| 0 <= i < j implies spawn_outcome(s0, *self, s0.scheduled()[i], #[trigger] events@[i]) by {
                assert(events@[i] == e3[i]);
                assert(e3[i] == e1[i]);
                assert(spawn_outcome(s0, s1, s0.scheduled()[i], e1[0 + i]));
                match e1[i] {
                    SimulationEvent::Spawned { vehicle_id, .. } => {
                        assert(s1.vehicle_map().contains_key(vehicle_id));
                    },
                    _ => {},
                }
            }
            assert(events@.subrange(j, j + sig.len()) =~= sig) by {
                assert forall|i: int| 0 <= i < sig.len() implies events@.subrange(j, j + sig.len())[i] == sig[i] by {
                    assert(events@[j + i] == e3[j + i]);
                    assert(e3[j + i] == sig[i]);
                }
            }
            assert(due_prefix(s0.scheduled(), s0.now(), j));
            assert forall|r: RoadId| #[trigger] s3.lane_count(r) == s0.lane_count(r) by {
                assert(s1.lane_count(r) == s0.lane_count(r));
                assert(s2.lane_count(r) == s1.lane_count(r));
            }
            assert forall|r: RoadId, l: int| #[trigger] s3.lane_of(r, l) == s0.lane_of(r, l) by {
                assert(s1.lane_of(r, l) == s0.lane_of(r, l));
                assert(s2.lane_of(r, l) == s1.lane_of(r, l));
            }
            assert forall|v: VehicleId|
                #![trigger s0.vehicle_map()[v]]
                s0.vehicle_map().contains_key(v) implies s3.vehicle_map()[v] == counted(s0.vehicle_map()[v], s0.now()) by {
                assert(s1.vehicle_map().contains_key(v));
                assert(s1.vehicle_map()[v] == s0.vehicle_map()[v]);
                assert(s2.vehicle_map()[v] == counted(s1.vehicle_map()[v], s1.now()));
            }
            let fronts = counted_fronts_events(s0, s0.net().road_ids().len() as int);
            Self::lemma_counted_fronts(s0, s3, s0.net().road_ids().len() as int);
            assert(e4 == e3 + fronts);
            assert(self.at_tick(s0.now()) == s5);
            assert forall|x: int| e4.len() <= x < events@.len() implies {
                let v = event_vehicle(#[trigger] events@[x]);
                let waited = counted(s0.vehicle_map()[v], s0.now());
                &&& s0.vehicle_map().contains_key(v)
                &&& s0.vehicle_map()[v].status is WaitingAtNode
                &&& s0.leaving(waited)
                &&& reports_left(events@[x], waited, self.vehicle_map()[v])
                &&& waited.waiting_ticks_at_node < s0.threshold() ==> (events@[x] is Completed
                    || events@[x] is EnteredRoad)
            } by {
                let v = event_vehicle(events@[x]);
                assert(Self::reports_leaving(s4, s5, events@[x]));
                assert(s4.vehicle_map().contains_key(v));
                assert(s3.vehicle_map().contains_key(v));
                assert(s1.vehicle_map().contains_key(v));
                if !s0.vehicle_map().contains_key(v) {
                    assert(self.vehicle_map().contains_key(v) && self.vehicle_map()[v] == s1.vehicle_map()[v]);
                    assert(just_entered(s1.vehicle_map()[v], s0.now()));
                    assert(s3.vehicle_map()[v] == s1.vehicle_map()[v]);
                    assert(!s3.at_lane_front(v));
                    assert(false);
                }
                assert(s3.vehicle_map()[v] == counted(s0.vehicle_map()[v], s0.now()));
                if s0.vehicle_map()[v].status is OnRoad {
                    assert(false);
                }
                if s0.vehicle_map()[v].status is Finished {
                    assert(false);
                }
                assert(!s3.at_lane_front(v));
                assert(s4.vehicle_map()[v] == s3.vehicle_map()[v]);
                assert(Self::plain_reports(s4, e4.len() as int, events@));
            }
            assert(Self::changes_reported(s4, s5, e4.len() as int, events@));
            assert forall|v: VehicleId|
                #![trigger self.vehicle_map()[v]]
                s0.vehicle_map().contains_key(v) && s0.vehicle_map()[v].status is WaitingAtNode
                    && self.vehicle_map()[v] != counted(s0.vehicle_map()[v], s0.now())
                    implies exists|x: int| e4.len() <= x < events@.len() && event_vehicle(#[trigger] events@[x]) == v by {
                assert(s1.vehicle_map()[v] == s0.vehicle_map()[v]);
                assert(s3.vehicle_map()[v] == counted(s0.vehicle_map()[v], s0.now()));
                assert(s3.vehicle_map().contains_key(v));
                assert(!s3.at_lane_front(v));
                assert(s4.vehicle_map()[v] == s3.vehicle_map()[v]);
                assert(s4.vehicle_map().contains_key(v));
                assert(s5.vehicle_map()[v] == self.vehicle_map()[v]);
            }
            assert(events@.subrange(e3.len() as int, (e3.len() + fronts.len()) as int) =~= fronts) by {
                assert forall|i: int| 0 <= i < fronts.len() implies
                    events@.subrange(e3.len() as int, (e3.len() + fronts.len()) as int)[i] == fronts[i] by {
                    assert(events@.subrange(0, e4.len() as int)[e3.len() + i] == e4[e3.len() + i]);
                }
            }
            assert forall|k: nat| s0.room_for_ticks(k + 1) implies #[trigger] self.room_for_ticks(k) by {
                assert(s2.room_for_ticks(k));
                assert(s3.room_for_ticks(k));
                Self::lemma_room_kept(s3, s5, k);
            }
            assert forall|v: VehicleId| #[trigger] s0.vehicle_map().contains_key(v) implies self.vehicle_map().contains_key(v) by {
                assert(s1.vehicle_map().contains_key(v));
                assert(s2.vehicle_map().contains_key(v));
            }
            assert forall|n: NodeId|
                #![trigger self.signal_map()[n]]
                self.signal_map().contains_key(n) implies self.signal_map()[n]
                    == advanced_signal(s0.signal_map()[n], s0.phases_of(n)) by {
                assert(s3.signal_map()[n] == advanced_signal(s2.signal_map()[n], s2.phases_of(n)));
            }
            assert(Self::queues_served(s0, *self, events@.skip(e4.len() as int))) by {
                assert forall|v: VehicleId|
                    #![trigger s4.vehicle_map()[v]]
                    s4.vehicle_map().contains_key(v) implies s4.vehicle_map()[v] == if s0.vehicle_map().contains_key(v)
                        && s0.vehicle_map()[v].status is WaitingAtNode {
                        counted(s0.vehicle_map()[v], s0.now())
                    } else {
                        self.vehicle_map()[v]
                    } by {
                    assert(s3.vehicle_map().contains_key(v));
                    assert(s1.vehicle_map().contains_key(v));
                    if s0.vehicle_map().contains_key(v) {
                        assert(s1.vehicle_map()[v] == s0.vehicle_map()[v]);
                        assert(s2.vehicle_map()[v] == counted(s1.vehicle_map()[v], s1.now()));
                        assert(s3.vehicle_map()[v] == s2.vehicle_map()[v]);
                        if s0.vehicle_map()[v].status is WaitingAtNode {
                            assert(!s3.at_lane_front(v));
                            assert(s4.vehicle_map()[v] == s3.vehicle_map()[v]);
                        } else if s0.vehicle_map()[v].status is OnRoad {
                            assert(!s4.leaving(s4.vehicle_map()[v]));
                        } else {
                            assert(!s3.at_lane_front(v));
                            assert(s4.vehicle_map()[v] == s3.vehicle_map()[v]);
                            assert(!s4.leaving(s4.vehicle_map()[v]));
                        }
                    } else {
                        assert(just_entered(s1.vehicle_map()[v], s0.now()));
                        assert(s3.vehicle_map()[v] == s1.vehicle_map()[v]);
                        assert(!s3.at_lane_front(v));
                        assert(!s4.leaving(s4.vehicle_map()[v]));
                    }
                }
                let (states, nodes, chunks, marks) = choose|
                    states: Seq<Simulation>,
                    nodes: Seq<NodeId>,
                    chunks: Seq<Seq<SimulationEvent>>,
                    marks: Seq<int>,
                | Self::queue_run(s4, s5, states, nodes, chunks, marks) && events@ == e4 + chunks.flatten();
                assert(self.at_tick(s0.now()) == s5);
                assert(Self::queue_run(s4, self.at_tick(s0.now()), states, nodes, chunks, marks));
                assert(events@.skip(e4.len() as int) =~= chunks.flatten());
                assert(s4.vehicle_map().dom() =~= self.vehicle_map().dom());
                Self::lemma_counted_lanes(s0, s3);
                Self::lemma_queues_extended(s0, s1, s2, s3, s4);
            }
        }
        events
    }

    /// Runs ticks until the simulation is idle, at most `max_ticks` of them,
    /// and returns the events of all of them in order. A run stops early only
    /// on an idle simulation, or where one more tick would run a counter past
    /// the largest `u32` (which cannot happen where there was room for all
    /// `max_ticks` of them): each tick is a `step`, none but the last ends
    /// idle, and the events are those of the ticks one after the other.
    #[verifier::spinoff_prover]
    pub fn run_until_idle(&mut self, max_ticks: u32) -> (events: Vec<SimulationEvent>)
        requires
            old(self).wf(),
            old(self).ids_left(),
        ensures
            final(self).wf(),
            old(self).now() <= final(self).now() <= old(self).now() + max_ticks,
            max_ticks > 0 && old(self).room_for_ticks(1) ==> final(self).now() > old(self).now(),
            max_ticks == 0 || !old(self).room_for_ticks(1) ==> *final(self) == *old(self) && events@.len() == 0,
            final(self).now() < old(self).now() + max_ticks ==> final(self).idle() || !final(self).room_for_ticks(1),
            old(self).room_for_ticks(max_ticks as nat) && final(self).now() < old(self).now() + max_ticks
                ==> final(self).idle(),
            final(self).net() == old(self).net(),
            final(self).threshold() == old(self).threshold(),
            final(self).ids_left(),
            forall|v: VehicleId|
                #[trigger] old(self).vehicle_map().contains_key(v) ==> final(self).vehicle_map().contains_key(v),
            final(self).finished_kept(*old(self)),
            exists|states: Seq<Simulation>, ticks: Seq<Seq<SimulationEvent>>|
                {
                    &&& ticks.len() == final(self).now() - old(self).now()
                    &&& states.len() == ticks.len() + 1
                    &&& states[0] == *old(self)
                    &&& states[ticks.len() as int] == *final(self)
                    &&& forall|i: int|
                        0 <= i < ticks.len() ==> Self::stepped(states[i], states[i + 1], #[trigger] ticks[i])
                    &&& forall|i: int| 1 <= i < ticks.len() ==> !(#[trigger] states[i]).idle()
                    &&& events@ == ticks.flatten()
                },
    {
        let ghost s0 = *self;
        let mut events: Vec<SimulationEvent> = Vec::new();
        let ghost mut states: Seq<Simulation> = seq![*self];
        let ghost mut ticks: Seq<Seq<SimulationEvent>> = Seq::empty();
        let mut t: u32 = 0;
        while t < max_ticks
            invariant_except_break
                t <= max_ticks,
                forall|i: int| 1 <= i <= t ==> !(#[trigger] states[i]).idle(),
            invariant
                self.wf(),
                self.now() == s0.now() + t,
                s0.room_for_ticks(max_ticks as nat) ==> self.room_for_ticks((max_ticks - t) as nat),
                self.ids_left(),
                self.net() == s0.net(),
                self.threshold() == s0.threshold(),
                forall|v: VehicleId|
                    #[trigger] s0.vehicle_map().contains_key(v) ==> self.vehicle_map().contains_key(v),
                self.finished_kept(s0),
                t == 0 ==> *self == s0 && events@.len() == 0,
                !s0.room_for_ticks(1) ==> t == 0,
                ticks.len() == t,
                states.len() == t + 1,
                states[0] == s0,
                states[t as int] == *self,
                forall|i: int| 0 <= i < t ==> Self::stepped(states[i], states[i + 1], #[trigger] ticks[i]),
                events@ == ticks.flatten(),
            ensures
                t <= max_ticks,
                max_ticks > 0 && s0.room_for_ticks(1) ==> t > 0,
                !s0.room_for_ticks(1) ==> t == 0,
                t < max_ticks ==> self.idle() || !self.room_for_ticks(1),
                forall|i: int| 1 <= i < t ==> !(#[trigger] states[i]).idle(),
            decreases max_ticks - t,
        {
            let ghost before = *self;
            if !self.can_step() {
                break;
            }
            proof {
                if s0.room_for_ticks(max_ticks as nat) {
                    assert(((max_ticks - t - 1) as nat) + 1 == (max_ticks - t) as nat);
                }
            }
            let step_events = self.step();
            let ghost tick_events = step_events@;
            let mut step_events = step_events;
            events.append(&mut step_events);
            proof {
                ticks.lemma_flatten_push(tick_events);
                let old_states = states;
                let old_ticks = ticks;
                states = states.push(*self);
                ticks = ticks.push(tick_events);
                assert forall|i: int| 0 <= i < t + 1 implies Self::stepped(states[i], states[i + 1], #[trigger] ticks[i]) by {
                    if i < t {
                        assert(states[i] == old_states[i]);
                        assert(states[i + 1] == old_states[i + 1]);
                        assert(ticks[i] == old_ticks[i]);
                    }
                }
            }
            t = t + 1;
            proof {
                Self::lemma_finished_kept_trans(s0, before, *self);
                if s0.room_for_ticks(max_ticks as nat) {
                    assert(before.room_for_ticks(((max_ticks - t) as nat) + 1));
                }
                assert forall|v: VehicleId| #[trigger] s0.vehicle_map().contains_key(v) implies self.vehicle_map().contains_key(v) by {
                    assert(before.vehicle_map().contains_key(v));
                }
            }
            if self.is_idle() {
                break;
            }
        }
        events
    }
}

} // verus!
