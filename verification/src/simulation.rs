//! The tick-based traffic simulation: vehicles wait in node queues, drive
//! down road lanes, follow signal phases and get rerouted when they wait too
//! long.
use vstd::prelude::*;
use crate::idmap::{IdMap, lemma_entries};
use crate::model::{Network, NodeId, RoadId, Vehicle, VehicleId, VehicleSpawn, VehicleStatus};

pub mod events;
pub mod lifecycle;
pub mod metrics;
pub mod movement;
pub mod queues;
pub mod routing;
pub mod signals;
pub mod spawn;
pub mod timing;
pub mod runtime;

use runtime::{RoadRuntime, SignalRuntime};
pub use events::SimulationEvent;
pub use metrics::SimulationReport;

verus! {

/// How long a vehicle may wait at the head of a node before the simulation
/// looks for a way around the road that holds it up.
pub const DEFAULT_DEADLOCK_WAIT_THRESHOLD: u32 = 5;

pub struct Simulation {
    network: Network,
    vehicles: IdMap<Vehicle>,
    road_runtime: IdMap<RoadRuntime>,
    node_queues: IdMap<Vec<VehicleId>>,
    signals: IdMap<SignalRuntime>,
    scheduled_spawns: Vec<VehicleSpawn>,
    current_tick: u32,
    next_vehicle_id: VehicleId,
    deadlock_wait_threshold: u32,
}

/// The spawns are ordered by departure tick.
pub open spec fn spawns_sorted(s: Seq<VehicleSpawn>) -> bool {
    forall|i: int, j: int|
        0 <= i < j < s.len() ==> #[trigger] s[i].departure_tick <= #[trigger] s[j].departure_tick
}

impl Simulation {
    /// The network that the simulation runs on.
    pub closed spec fn net(&self) -> Network {
        self.network
    }

    /// The vehicles that have entered the simulation, by identifier.
    pub closed spec fn vehicle_map(&self) -> Map<VehicleId, Vehicle> {
        self.vehicles@
    }

    /// The vehicles in increasing order of identifier.
    pub closed spec fn vehicle_seq(&self) -> Seq<Vehicle> {
        self.vehicles.entries@.map_values(|e: (VehicleId, Vehicle)| e.1)
    }

    /// The identifiers of the vehicles in increasing order.
    pub closed spec fn vehicle_ids(&self) -> Seq<VehicleId> {
        self.vehicles.keys()
    }

    /// The nodes that have had a queue, in increasing order.
    pub closed spec fn queue_nodes(&self) -> Seq<NodeId> {
        self.node_queues.keys()
    }

    /// The vehicles queued at a node, first in line first.
    pub closed spec fn queue_of(&self, n: NodeId) -> Seq<VehicleId> {
        if self.node_queues@.contains_key(n) {
            self.node_queues@[n]@
        } else {
            Seq::empty()
        }
    }

    /// The number of lanes that the simulation keeps for a road.
    pub closed spec fn lane_count(&self, r: RoadId) -> int {
        if self.road_runtime@.contains_key(r) {
            self.road_runtime@[r].lanes@.len() as int
        } else {
            0
        }
    }

    /// The vehicles in lane `l` of road `r`, front first.
    pub closed spec fn lane_of(&self, r: RoadId, l: int) -> Seq<VehicleId> {
        if self.road_runtime@.contains_key(r) && 0 <= l < self.road_runtime@[r].lanes@.len() {
            self.road_runtime@[r].lanes@[l]@
        } else {
            Seq::empty()
        }
    }

    /// The phase state of each signalled node.
    pub closed spec fn signal_map(&self) -> Map<NodeId, SignalRuntime> {
        self.signals@
    }

    /// The signalled nodes in increasing order.
    pub closed spec fn signal_nodes(&self) -> Seq<NodeId> {
        self.signals.keys()
    }

    /// The spawns not yet released, in order of departure.
    pub closed spec fn scheduled(&self) -> Seq<VehicleSpawn> {
        self.scheduled_spawns@
    }

    /// The current tick.
    pub closed spec fn now(&self) -> u32 {
        self.current_tick
    }

    /// The same state with the clock at `tick`.
    pub closed spec fn at_tick(&self, tick: u32) -> Simulation {
        Simulation { current_tick: tick, ..*self }
    }

    /// Setting the clock changes nothing but the tick.
    pub proof fn lemma_at_tick(&self, tick: u32)
        ensures
            self.at_tick(tick).now() == tick,
            self.at_tick(tick).net() == self.net(),
            self.at_tick(tick).vehicle_map() == self.vehicle_map(),
            self.at_tick(tick).scheduled() == self.scheduled(),
            self.at_tick(tick).signal_map() == self.signal_map(),
            self.at_tick(tick).threshold() == self.threshold(),
            forall|n: NodeId| #[trigger] self.at_tick(tick).queue_of(n) == self.queue_of(n),
            forall|r: RoadId| #[trigger] self.at_tick(tick).lane_count(r) == self.lane_count(r),
            forall|r: RoadId, l: int| #[trigger] self.at_tick(tick).lane_of(r, l) == self.lane_of(r, l),
    {
    }

    /// The identifier that the next spawned vehicle gets.
    pub closed spec fn next_id(&self) -> VehicleId {
        self.next_vehicle_id
    }

    /// How many ticks a vehicle waits at a node before the simulation
    /// tries to get it around the road that holds it up.
    pub closed spec fn threshold(&self) -> u32 {
        self.deadlock_wait_threshold
    }

    /// Everything but the vehicles, the queues and the lanes is as in `other`.
    pub closed spec fn unchanged_but_places(&self, other: Simulation) -> bool {
        &&& self.network == other.network
        &&& self.signals == other.signals
        &&& self.scheduled_spawns@ == other.scheduled_spawns@
        &&& self.current_tick == other.current_tick
        &&& self.next_vehicle_id == other.next_vehicle_id
        &&& self.deadlock_wait_threshold == other.deadlock_wait_threshold
    }

    /// Everything but the signal states is as in `other`.
    pub closed spec fn unchanged_but_signals(&self, other: Simulation) -> bool {
        &&& self.network == other.network
        &&& self.vehicles == other.vehicles
        &&& self.road_runtime == other.road_runtime
        &&& self.node_queues == other.node_queues
        &&& self.scheduled_spawns@ == other.scheduled_spawns@
        &&& self.current_tick == other.current_tick
        &&& self.next_vehicle_id == other.next_vehicle_id
        &&& self.deadlock_wait_threshold == other.deadlock_wait_threshold
    }

    /// Where a vehicle is kept agrees with its status: a vehicle that waits
    /// at a node is in that node's queue, one that drives a road is in the
    /// lane its status names, a finished one is in neither; and no queue or
    /// lane holds a vehicle twice.
    pub open spec fn locations_agree(&self) -> bool {
        &&& forall|n: NodeId, i: int|
            #![trigger self.queue_of(n)[i]]
            0 <= i < self.queue_of(n).len() ==> {
                let v = self.queue_of(n)[i];
                &&& self.vehicle_map().contains_key(v)
                &&& self.vehicle_map()[v].status == VehicleStatus::WaitingAtNode(n)
            }
        &&& forall|r: RoadId, l: int, i: int|
            #![trigger self.lane_of(r, l)[i]]
            0 <= i < self.lane_of(r, l).len() ==> {
                let v = self.lane_of(r, l)[i];
                &&& self.vehicle_map().contains_key(v)
                &&& self.vehicle_map()[v].status matches VehicleStatus::OnRoad {
                    road_id,
                    lane_index,
                    ..
                } && road_id == r && lane_index == l
            }
        &&& forall|v: VehicleId|
            #![trigger self.vehicle_map()[v]]
            self.vehicle_map().contains_key(v) ==> match self.vehicle_map()[v].status {
                VehicleStatus::WaitingAtNode(n) => self.queue_of(n).contains(v),
                VehicleStatus::OnRoad { road_id, lane_index, .. } => {
                    &&& lane_index < self.lane_count(road_id)
                    &&& self.lane_of(road_id, lane_index as int).contains(v)
                },
                VehicleStatus::Finished => true,
            }
        &&& forall|n: NodeId| #[trigger] self.queue_of(n).no_duplicates()
        &&& forall|r: RoadId, l: int| #[trigger] self.lane_of(r, l).no_duplicates()
    }

    /// Two statuses that keep a vehicle in the same queue or lane.
    pub open spec fn same_place(a: VehicleStatus, b: VehicleStatus) -> bool {
        match (a, b) {
            (VehicleStatus::WaitingAtNode(n), VehicleStatus::WaitingAtNode(m)) => n == m,
            (
                VehicleStatus::OnRoad { road_id: r, lane_index: l, .. },
                VehicleStatus::OnRoad { road_id: r2, lane_index: l2, .. },
            ) => r == r2 && l == l2,
            (VehicleStatus::Finished, VehicleStatus::Finished) => true,
            _ => false,
        }
    }

    /// Changing vehicles without moving them keeps the invariant.
    proof fn lemma_vehicle_edit_keeps_wf(s: Simulation, t: Simulation)
        requires
            s.wf(),
            t.vehicles.wf(),
            t.unchanged_but_places(s),
            t.node_queues == s.node_queues,
            t.road_runtime == s.road_runtime,
            t.vehicle_map().dom() == s.vehicle_map().dom(),
            forall|v: VehicleId|
                #![trigger t.vehicle_map()[v]]
                t.vehicle_map().contains_key(v) ==> {
                    &&& t.vehicle_map()[v].id == s.vehicle_map()[v].id
                    &&& Self::same_place(t.vehicle_map()[v].status, s.vehicle_map()[v].status)
                    &&& (t.vehicle_map()[v].route@ == s.vehicle_map()[v].route@ || forall|i: int|
                        0 <= i < t.vehicle_map()[v].route@.len()
                            ==> t.net().road_map().contains_key(#[trigger] t.vehicle_map()[v].route@[i]))
                },
        ensures
            t.wf(),
    {
        assert forall|v: VehicleId|
            #![trigger t.vehicles@[v]]
            t.vehicles@.contains_key(v) implies {
                &&& v < t.next_vehicle_id
                &&& t.vehicles@[v].id == v
                &&& forall|i: int|
                    0 <= i < t.vehicles@[v].route@.len() ==> t.network.road_map().contains_key(
                        #[trigger] t.vehicles@[v].route@[i],
                    )
            } by {
            assert(s.vehicles@.contains_key(v));
            assert forall|i: int| 0 <= i < t.vehicles@[v].route@.len() implies t.network.road_map().contains_key(
                #[trigger] t.vehicles@[v].route@[i]) by {
                if t.vehicle_map()[v].route@ == s.vehicle_map()[v].route@ {
                    assert(t.vehicles@[v].route@[i] == s.vehicles@[v].route@[i]);
                }
            }
        }
        assert forall|n: NodeId, i: int|
            #![trigger t.queue_of(n)[i]]
            0 <= i < t.queue_of(n).len() implies {
                let v = t.queue_of(n)[i];
                &&& t.vehicle_map().contains_key(v)
                &&& t.vehicle_map()[v].status == VehicleStatus::WaitingAtNode(n)
            } by {
            let v = t.queue_of(n)[i];
            assert(s.queue_of(n)[i] == v);
            assert(t.vehicle_map().contains_key(v));
            assert(Self::same_place(t.vehicle_map()[v].status, s.vehicle_map()[v].status));
        }
        assert forall|r: RoadId, l: int, i: int|
            #![trigger t.lane_of(r, l)[i]]
            0 <= i < t.lane_of(r, l).len() implies {
                let v = t.lane_of(r, l)[i];
                &&& t.vehicle_map().contains_key(v)
                &&& t.vehicle_map()[v].status matches VehicleStatus::OnRoad {
                    road_id,
                    lane_index,
                    ..
                } && road_id == r && lane_index == l
            } by {
            let v = t.lane_of(r, l)[i];
            assert(s.lane_of(r, l)[i] == v);
            assert(t.vehicle_map().contains_key(v));
            assert(Self::same_place(t.vehicle_map()[v].status, s.vehicle_map()[v].status));
        }
        assert forall|v: VehicleId|
            #![trigger t.vehicle_map()[v]]
            t.vehicle_map().contains_key(v) implies match t.vehicle_map()[v].status {
                VehicleStatus::WaitingAtNode(n) => t.queue_of(n).contains(v),
                VehicleStatus::OnRoad { road_id, lane_index, .. } => {
                    &&& lane_index < t.lane_count(road_id)
                    &&& t.lane_of(road_id, lane_index as int).contains(v)
                },
                VehicleStatus::Finished => true,
            } by {
            assert(s.vehicle_map().contains_key(v));
            assert(Self::same_place(t.vehicle_map()[v].status, s.vehicle_map()[v].status));
            assert(s.vehicle_map()[v] == s.vehicle_map()[v]);
        }
        assert forall|n: NodeId| #[trigger] t.queue_of(n).no_duplicates() by {
            assert(s.queue_of(n).no_duplicates());
        }
        assert forall|r: RoadId, l: int| #[trigger] t.lane_of(r, l).no_duplicates() by {
            assert(s.lane_of(r, l).no_duplicates());
        }
    }

    /// Whether vehicles agree with their places depends on the vehicles, the
    /// queues and the lanes alone.
    proof fn lemma_places_agree(s: Simulation, t: Simulation)
        requires
            s.locations_agree(),
            t.vehicles == s.vehicles,
            t.node_queues == s.node_queues,
            t.road_runtime == s.road_runtime,
        ensures
            t.locations_agree(),
    {
        assert(t.vehicle_map() == s.vehicle_map());
        assert forall|n: NodeId| #[trigger] t.queue_of(n) == s.queue_of(n) by {}
        assert forall|r: RoadId, l: int| #[trigger] t.lane_of(r, l) == s.lane_of(r, l) by {}
        assert forall|r: RoadId| #[trigger] t.lane_count(r) == s.lane_count(r) by {}
        assert forall|v: VehicleId| #[trigger] t.vehicle_map().contains_key(v) implies t.vehicle_map()[v] == s.vehicle_map()[v] by {}
    }

    /// The invariant of the simulation.
    pub closed spec fn wf(&self) -> bool {
        &&& self.network.runnable()
        &&& self.vehicles.wf()
        &&& self.road_runtime.wf()
        &&& self.node_queues.wf()
        &&& self.signals.wf()
        &&& self.deadlock_wait_threshold > 0
        &&& self.road_runtime.keys() == self.network.road_ids()
        &&& forall|r: RoadId|
            #![trigger self.road_runtime@[r]]
            self.road_runtime@.contains_key(r) ==> self.road_runtime@[r].lanes@.len()
                == self.network.road_map()[r].lanes
        &&& forall|n: NodeId|
            #[trigger] self.signals@.contains_key(n) <==> (self.network.node_map().contains_key(
                n,
            ) && self.network.node_map()[n].signal_plan is Some)
        &&& forall|n: NodeId|
            #![trigger self.signals@[n]]
            self.signals@.contains_key(n) ==> {
                let phases = self.network.node_map()[n].signal_plan.unwrap().phases@;
                let state = self.signals@[n];
                &&& state.phase_index < phases.len()
                &&& (state.time_in_phase == 0 || state.time_in_phase
                    < phases[state.phase_index as int].duration)
            }
        &&& spawns_sorted(self.scheduled_spawns@)
        &&& forall|v: VehicleId|
            #![trigger self.vehicles@[v]]
            self.vehicles@.contains_key(v) ==> {
                &&& v < self.next_vehicle_id
                &&& self.vehicles@[v].id == v
                &&& forall|i: int|
                    0 <= i < self.vehicles@[v].route@.len()
                        ==> self.network.road_map().contains_key(
                        #[trigger] self.vehicles@[v].route@[i],
                    )
            }
        &&& self.locations_agree()
    }

    /// A fresh simulation of `network`, at tick 0 with no vehicles: every road
    /// gets its lanes, empty, and every signalled node starts its plan at the
    /// first phase.
    #[verifier::spinoff_prover]
    pub fn new(network: Network) -> (sim: Self)
        requires
            network.runnable(),
        ensures
            sim.wf(),
            sim.net() == network,
            sim.vehicle_map() == Map::<VehicleId, Vehicle>::empty(),
            sim.scheduled().len() == 0,
            sim.now() == 0,
            sim.next_id() == 1,
            sim.threshold() == DEFAULT_DEADLOCK_WAIT_THRESHOLD,
            forall|n: NodeId| #[trigger] sim.queue_of(n).len() == 0,
            forall|r: RoadId| #[trigger]
                sim.lane_count(r) == if network.road_map().contains_key(r) {
                    network.road_map()[r].lanes as int
                } else {
                    0
                },
            forall|r: RoadId, l: int| #[trigger] sim.lane_of(r, l).len() == 0,
            forall|n: NodeId|
                #[trigger] sim.signal_map().contains_key(n) <==> network.node_map().contains_key(n)
                    && network.node_map()[n].signal_plan is Some,
            forall|n: NodeId|
                #![trigger sim.signal_map()[n]]
                sim.signal_map().contains_key(n) ==> sim.signal_map()[n] == (SignalRuntime {
                    phase_index: 0,
                    time_in_phase: 0,
                }),
    {
        proof {
            network.lemma_views();
        }
        let roads = network.roads();
        let mut road_runtime: IdMap<RoadRuntime> = IdMap::new();
        let mut i: usize = 0;
        while i < roads.len()
            invariant
                network.runnable(),
                roads@.len() == network.road_seq().len(),
                forall|j: int| 0 <= j < roads@.len() ==> *#[trigger] roads@[j] == network.road_seq()[j],
                i <= roads@.len(),
                road_runtime.wf(),
                road_runtime.entries@.len() == i,
                forall|j: int|
                    0 <= j < i ==> #[trigger] road_runtime.entries@[j].0 == network.road_ids()[j],
                forall|j: int|
                    0 <= j < i ==> (#[trigger] road_runtime.entries@[j]).1.lanes@.len()
                        == network.road_seq()[j].lanes,
                forall|j: int, l: int|
                    0 <= j < i && 0 <= l < road_runtime.entries@[j].1.lanes@.len()
                        ==> (#[trigger] road_runtime.entries@[j].1.lanes@[l])@.len() == 0,
            decreases roads@.len() - i,
        {
            proof {
                network.lemma_views();
            }
            let road = roads[i];
            let rt = RoadRuntime::new(road.lanes);
            let ghost before = road_runtime.entries@;
            road_runtime.entries.push((road.id, rt));
            proof {
                assert(road.id == network.road_ids()[i as int]);
                assert forall|a: int, b: int|
                    0 <= a < b < road_runtime.entries@.len() implies #[trigger] road_runtime.entries@[a].0
                    < #[trigger] road_runtime.entries@[b].0 by {
                    assert(network.road_ids()[a] < network.road_ids()[b]);
                }
            }
            i = i + 1;
        }
        let nodes = network.nodes();
        let mut signals: IdMap<SignalRuntime> = IdMap::new();
        let mut i: usize = 0;
        while i < nodes.len()
            invariant
                network.runnable(),
                nodes@.len() == network.node_seq().len(),
                forall|j: int| 0 <= j < nodes@.len() ==> *#[trigger] nodes@[j] == network.node_seq()[j],
                i <= nodes@.len(),
                signals.wf(),
                forall|n: NodeId|
                    #[trigger] signals@.contains_key(n) <==> exists|j: int|
                        0 <= j < i && #[trigger] network.node_ids()[j] == n
                            && network.node_seq()[j].signal_plan is Some,
                forall|n: NodeId|
                    #[trigger] signals@.contains_key(n) ==> signals@[n] == (SignalRuntime {
                        phase_index: 0,
                        time_in_phase: 0,
                    }),
            decreases nodes@.len() - i,
        {
            proof {
                network.lemma_views();
            }
            let node = nodes[i];
            if node.signal_plan.is_some() {
                signals.insert(node.id, SignalRuntime { phase_index: 0, time_in_phase: 0 });
                proof {
                    assert(node.id == network.node_ids()[i as int]);
                }
            }
            i = i + 1;
        }
        let sim = Simulation {
            network,
            vehicles: IdMap::new(),
            road_runtime,
            node_queues: IdMap::new(),
            signals,
            scheduled_spawns: Vec::new(),
            current_tick: 0,
            next_vehicle_id: 1,
            deadlock_wait_threshold: DEFAULT_DEADLOCK_WAIT_THRESHOLD,
        };
        proof {
            lemma_entries(sim.road_runtime.entries@);
            assert(sim.road_runtime.keys() =~= sim.network.road_ids());
            assert forall|r: RoadId| #[trigger] sim.road_runtime@.contains_key(r) implies
                sim.road_runtime@[r].lanes@.len() == sim.network.road_map()[r].lanes by {
                let j = crate::idmap::index_of(sim.road_runtime.entries@, r);
                assert(sim.network.road_ids()[j] == r);
            }
            assert forall|n: NodeId| #[trigger] sim.signals@.contains_key(n) <==> (
                sim.network.node_map().contains_key(n)
                && sim.network.node_map()[n].signal_plan is Some) by {
                if sim.network.node_map().contains_key(n) {
                    assert(sim.network.node_ids().contains(n));
                    let j = choose|j: int| 0 <= j < sim.network.node_ids().len()
                        && sim.network.node_ids()[j] == n;
                    assert(sim.network.node_seq()[j] == sim.network.node_map()[n]);
                }
            }
            assert forall|r: RoadId, l: int| #[trigger] sim.lane_of(r, l).len() == 0 by {
                if sim.road_runtime@.contains_key(r) && 0 <= l < sim.road_runtime@[r].lanes@.len() {
                    let j = crate::idmap::index_of(sim.road_runtime.entries@, r);
                    assert(sim.road_runtime.entries@[j].1.lanes@[l]@.len() == 0);
                }
            }
            assert forall|r: RoadId| #[trigger] sim.lane_count(r) == if network.road_map().contains_key(r) {
                network.road_map()[r].lanes as int } else { 0 } by {
                if network.road_map().contains_key(r) {
                    assert(network.road_ids().contains(r));
                    let j = choose|j: int| 0 <= j < network.road_ids().len() && network.road_ids()[j] == r;
                    assert(sim.road_runtime.keys()[j] == r);
                    assert(sim.road_runtime.entries@[j].0 == r);
                } else {
                    if sim.road_runtime@.contains_key(r) {
                        let j = crate::idmap::index_of(sim.road_runtime.entries@, r);
                        assert(sim.road_runtime.keys()[j] == r);
                        assert(network.road_ids().contains(r));
                    }
                }
            }
        }
        sim
    }

    /// The network that the simulation runs on.
    pub fn network(&self) -> (network: &Network)
        ensures
            *network == self.net(),
            self.wf() ==> network.runnable(),
    {
        &self.network
    }

    /// The current tick.
    pub fn tick(&self) -> (tick: u32)
        ensures
            tick == self.now(),
    {
        self.current_tick
    }

    /// The vehicle with identifier `id`, if it has entered the simulation.
    pub fn vehicle(&self, id: VehicleId) -> (vehicle: Option<&Vehicle>)
        requires
            self.wf(),
        ensures
            match vehicle {
                Some(v) => self.vehicle_map().contains_key(id) && *v == self.vehicle_map()[id],
                None => !self.vehicle_map().contains_key(id),
            },
    {
        self.vehicles.get(id)
    }

    /// Sets how many ticks a vehicle may wait at a node before the simulation
    /// looks for a way around the road that holds it up.
    pub fn set_deadlock_wait_threshold(&mut self, ticks: u32)
        requires
            old(self).wf(),
            ticks > 0,
        ensures
            final(self).wf(),
            final(self).threshold() == ticks,
            final(self).net() == old(self).net(),
            final(self).vehicle_map() == old(self).vehicle_map(),
            final(self).scheduled() == old(self).scheduled(),
            final(self).now() == old(self).now(),
            final(self).next_id() == old(self).next_id(),
            final(self).signal_map() == old(self).signal_map(),
            forall|n: NodeId| #[trigger] final(self).queue_of(n) == old(self).queue_of(n),
            forall|r: RoadId, l: int| #[trigger] final(self).lane_of(r, l) == old(self).lane_of(r, l),
    {
        let ghost s0 = *self;
        self.deadlock_wait_threshold = ticks;
        proof {
            Self::lemma_places_agree(s0, *self);
        }
    }
}

} // verus!
