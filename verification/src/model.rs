//! The road network: nodes, road segments, signal plans, vehicles and the
//! vehicles that a schedule releases.
use vstd::prelude::*;
use vstd::string::*;
use crate::idmap::{IdMap, entries_to_map, key_seq, keys_sorted, lemma_entries, lemma_update_value};

verus! {

pub type NodeId = usize;

pub type RoadId = usize;

pub type VehicleId = usize;

#[derive(Clone, Copy, Debug, PartialEq, Eq, Hash, Structural)]
pub enum NodeKind {
    Entry,
    Exit,
    Intersection,
    TrafficLight,
    Stop,
    Roundabout,
    Merge,
    Split,
}

/// One phase of a signal plan: the roads that may be entered while it lasts.
/// An empty list lets every outbound road through.
#[derive(Clone, Debug)]
pub struct SignalPhase {
    pub name: String,
    pub allowed_roads: Vec<RoadId>,
    pub duration: u32,
}

impl SignalPhase {
    /// A phase lasting `duration` ticks; a phase lasts at least one tick.
    pub fn new(name: &str, duration: u32, allowed_roads: Vec<RoadId>) -> (phase: Self)
        requires
            duration > 0,
        ensures
            phase.name@ == name@,
            phase.duration == duration,
            phase.allowed_roads@ == allowed_roads@,
    {
        SignalPhase { name: String::from_str(name), allowed_roads, duration }
    }
}

/// The phases that a signalled node cycles through, in order.
#[derive(Clone, Debug)]
pub struct SignalPlan {
    pub phases: Vec<SignalPhase>,
}

impl SignalPlan {
    /// A plan needs at least one phase.
    pub fn new(phases: Vec<SignalPhase>) -> (plan: Self)
        requires
            phases@.len() > 0,
        ensures
            plan.phases@ == phases@,
    {
        SignalPlan { phases }
    }
}

#[derive(Clone, Copy, Debug, PartialEq, Eq, Hash, Structural)]
pub enum VehicleType {
    Emergency,
    Bus,
    Car,
    Truck,
    Motorcycle,
}

/// The rank of a vehicle type when vehicles compete to leave a node:
/// a lower rank leaves first.
pub open spec fn spec_priority_rank(t: VehicleType) -> u8 {
    match t {
        VehicleType::Emergency => 0,
        VehicleType::Bus => 1,
        VehicleType::Car => 2,
        VehicleType::Truck => 3,
        VehicleType::Motorcycle => 4,
    }
}

impl VehicleType {
    pub fn priority_rank(self) -> (rank: u8)
        ensures
            rank == spec_priority_rank(self),
    {
        match self {
            VehicleType::Emergency => 0,
            VehicleType::Bus => 1,
            VehicleType::Car => 2,
            VehicleType::Truck => 3,
            VehicleType::Motorcycle => 4,
        }
    }
}

#[derive(Clone, Debug)]
pub struct Node {
    pub id: NodeId,
    pub name: String,
    pub kind: NodeKind,
    pub signal_plan: Option<SignalPlan>,
    pub inbound_roads: Vec<RoadId>,
    pub outbound_roads: Vec<RoadId>,
}

impl Node {
    pub fn new(id: NodeId, name: &str, kind: NodeKind) -> (node: Self)
        ensures
            node.id == id,
            node.name@ == name@,
            node.kind == kind,
            node.signal_plan is None,
            node.inbound_roads@.len() == 0,
            node.outbound_roads@.len() == 0,
    {
        Node {
            id,
            name: String::from_str(name),
            kind,
            signal_plan: None,
            inbound_roads: Vec::new(),
            outbound_roads: Vec::new(),
        }
    }

    pub fn with_signal_plan(self, signal_plan: SignalPlan) -> (node: Self)
        ensures
            node.id == self.id,
            node.name == self.name,
            node.kind == self.kind,
            node.signal_plan == Some(signal_plan),
            node.inbound_roads == self.inbound_roads,
            node.outbound_roads == self.outbound_roads,
    {
        let mut node = self;
        node.signal_plan = Some(signal_plan);
        node
    }
}

/// A one-way road between two nodes. `travel_seconds` is the time that a
/// vehicle needs to drive it at the speed limit, rounded up to whole seconds.
#[derive(Clone, Debug)]
pub struct RoadSegment {
    pub id: RoadId,
    pub name: String,
    pub from: NodeId,
    pub to: NodeId,
    pub travel_seconds: u32,
    pub lanes: usize,
    pub capacity_per_lane: usize,
}

/// A road always takes at least one second to drive.
pub open spec fn spec_travel_time(road: RoadSegment) -> u32 {
    if road.travel_seconds == 0 {
        1
    } else {
        road.travel_seconds
    }
}

impl RoadSegment {
    /// A road with at least one lane, each lane holding at least one vehicle.
    pub fn new(
        id: RoadId,
        name: &str,
        from: NodeId,
        to: NodeId,
        travel_seconds: u32,
        lanes: usize,
        capacity_per_lane: usize,
    ) -> (road: Self)
        requires
            lanes > 0,
            capacity_per_lane > 0,
        ensures
            road.id == id,
            road.name@ == name@,
            road.from == from,
            road.to == to,
            road.travel_seconds == if travel_seconds == 0 {
                1
            } else {
                travel_seconds
            },
            road.lanes == lanes,
            road.capacity_per_lane == capacity_per_lane,
    {
        RoadSegment {
            id,
            name: String::from_str(name),
            from,
            to,
            travel_seconds: if travel_seconds == 0 {
                1
            } else {
                travel_seconds
            },
            lanes,
            capacity_per_lane,
        }
    }

    pub fn travel_time_seconds(&self) -> (seconds: u32)
        ensures
            seconds == spec_travel_time(*self),
            seconds >= 1,
    {
        if self.travel_seconds == 0 {
            1
        } else {
            self.travel_seconds
        }
    }

    pub fn total_capacity(&self) -> (capacity: usize)
        requires
            self.lanes * self.capacity_per_lane <= usize::MAX,
        ensures
            capacity == self.lanes * self.capacity_per_lane,
    {
        self.lanes * self.capacity_per_lane
    }
}

#[derive(Clone, Copy, Debug, PartialEq, Eq, Structural)]
pub enum VehicleStatus {
    WaitingAtNode(NodeId),
    OnRoad { road_id: RoadId, lane_index: usize, remaining_time: u32 },
    Finished,
}

#[derive(Clone, Debug)]
pub struct Vehicle {
    pub id: VehicleId,
    pub name: String,
    pub vehicle_type: VehicleType,
    pub origin: NodeId,
    pub destination: NodeId,
    pub route: Vec<RoadId>,
    pub next_road_index: usize,
    pub status: VehicleStatus,
    pub total_wait_time: u32,
    pub total_travel_time: u32,
    pub waiting_ticks_at_node: u32,
    pub queued_release_tick: u32,
}

impl Vehicle {
    /// A car waiting at its origin, at the start of its route.
    pub fn new(
        id: VehicleId,
        name: &str,
        origin: NodeId,
        destination: NodeId,
        route: Vec<RoadId>,
    ) -> (vehicle: Self)
        ensures
            vehicle.fresh(id, name@, origin, destination, route@, VehicleType::Car),
    {
        Self::with_type(id, name, origin, destination, route, VehicleType::Car)
    }

    /// A vehicle waiting at its origin, at the start of its route, with no time counted.
    pub open spec fn fresh(
        self,
        id: VehicleId,
        name: Seq<char>,
        origin: NodeId,
        destination: NodeId,
        route: Seq<RoadId>,
        vehicle_type: VehicleType,
    ) -> bool {
        &&& self.id == id
        &&& self.name@ == name
        &&& self.vehicle_type == vehicle_type
        &&& self.origin == origin
        &&& self.destination == destination
        &&& self.route@ == route
        &&& self.next_road_index == 0
        &&& self.status == VehicleStatus::WaitingAtNode(origin)
        &&& self.total_wait_time == 0
        &&& self.total_travel_time == 0
        &&& self.waiting_ticks_at_node == 0
        &&& self.queued_release_tick == 0
    }

    pub fn with_type(
        id: VehicleId,
        name: &str,
        origin: NodeId,
        destination: NodeId,
        route: Vec<RoadId>,
        vehicle_type: VehicleType,
    ) -> (vehicle: Self)
        ensures
            vehicle.fresh(id, name@, origin, destination, route@, vehicle_type),
    {
        Vehicle {
            id,
            name: String::from_str(name),
            vehicle_type,
            origin,
            destination,
            route,
            next_road_index: 0,
            status: VehicleStatus::WaitingAtNode(origin),
            total_wait_time: 0,
            total_travel_time: 0,
            waiting_ticks_at_node: 0,
            queued_release_tick: 0,
        }
    }

    pub fn is_finished(&self) -> (b: bool)
        ensures
            b == (self.status == VehicleStatus::Finished),
    {
        match self.status {
            VehicleStatus::Finished => true,
            _ => false,
        }
    }

    pub fn current_node(&self) -> (node: Option<NodeId>)
        ensures
            node == match self.status {
                VehicleStatus::WaitingAtNode(n) => Some(n),
                _ => None::<NodeId>,
            },
    {
        match self.status {
            VehicleStatus::WaitingAtNode(node_id) => Some(node_id),
            _ => None,
        }
    }
}

/// A vehicle that a schedule releases into the network at `departure_tick`.
#[derive(Clone, Debug)]
pub struct VehicleSpawn {
    pub departure_tick: u32,
    pub vehicle_type: VehicleType,
    pub origin: NodeId,
    pub destination: NodeId,
    pub name: String,
}

impl VehicleSpawn {
    pub fn new(departure_tick: u32, name: &str, origin: NodeId, destination: NodeId) -> (spawn:
        Self)
        ensures
            spawn.departure_tick == departure_tick,
            spawn.vehicle_type == VehicleType::Car,
            spawn.origin == origin,
            spawn.destination == destination,
            spawn.name@ == name@,
    {
        Self::with_type(departure_tick, name, origin, destination, VehicleType::Car)
    }

    pub fn with_type(
        departure_tick: u32,
        name: &str,
        origin: NodeId,
        destination: NodeId,
        vehicle_type: VehicleType,
    ) -> (spawn: Self)
        ensures
            spawn.departure_tick == departure_tick,
            spawn.vehicle_type == vehicle_type,
            spawn.origin == origin,
            spawn.destination == destination,
            spawn.name@ == name@,
    {
        VehicleSpawn {
            departure_tick,
            vehicle_type,
            origin,
            destination,
            name: String::from_str(name),
        }
    }
}

/// The road network: nodes and roads, each kept under its identifier.
pub struct Network {
    nodes: IdMap<Node>,
    roads: IdMap<RoadSegment>,
}

impl Network {
    /// The nodes by identifier.
    pub closed spec fn node_map(&self) -> Map<NodeId, Node> {
        self.nodes@
    }

    /// The roads by identifier.
    pub closed spec fn road_map(&self) -> Map<RoadId, RoadSegment> {
        self.roads@
    }

    /// The node identifiers in increasing order.
    pub closed spec fn node_ids(&self) -> Seq<NodeId> {
        self.nodes.keys()
    }

    /// The road identifiers in increasing order.
    pub closed spec fn road_ids(&self) -> Seq<RoadId> {
        self.roads.keys()
    }

    /// The nodes in increasing order of identifier.
    pub closed spec fn node_seq(&self) -> Seq<Node> {
        self.nodes.entries@.map_values(|e: (usize, Node)| e.1)
    }

    /// The roads in increasing order of identifier.
    pub closed spec fn road_seq(&self) -> Seq<RoadSegment> {
        self.roads.entries@.map_values(|e: (usize, RoadSegment)| e.1)
    }

    /// Each road is kept under its own identifier, and the identifiers are
    /// kept in order.
    pub closed spec fn wf(&self) -> bool {
        &&& self.nodes.wf()
        &&& self.roads.wf()
        &&& forall|i: int|
            0 <= i < self.roads.entries@.len() ==> #[trigger] self.roads.entries@[i].1.id
                == self.roads.entries@[i].0
        &&& forall|i: int|
            0 <= i < self.nodes.entries@.len() ==> #[trigger] self.nodes.entries@[i].1.id
                == self.nodes.entries@[i].0
    }

    /// What a simulation needs of its network: every road has a lane and a
    /// capacity that fits a machine word, and every signal plan has a phase.
    pub open spec fn runnable(&self) -> bool {
        &&& self.wf()
        &&& forall|r: RoadId|
            #![trigger self.road_map()[r]]
            self.road_map().contains_key(r) ==> {
                &&& self.road_map()[r].lanes >= 1
                &&& self.road_map()[r].lanes * self.road_map()[r].capacity_per_lane
                    <= usize::MAX
            }
        &&& forall|n: NodeId|
            #![trigger self.node_map()[n]]
            self.node_map().contains_key(n) && self.node_map()[n].signal_plan is Some
                ==> self.node_map()[n].signal_plan.unwrap().phases@.len() > 0
    }

    /// Leaving node `from` by road `road` is a move of the network: the road
    /// is on the node's outbound list and exists.
    pub open spec fn hop(&self, from: NodeId, road: RoadId) -> bool {
        &&& self.node_map().contains_key(from)
        &&& self.node_map()[from].outbound_roads@.contains(road)
        &&& self.road_map().contains_key(road)
    }

    /// Every road of `route` is a move of the network from where the route
    /// has got to, starting at `start` and ending at `goal`, and `admits`
    /// accepts each move.
    pub open spec fn leads_to(
        &self,
        start: NodeId,
        goal: NodeId,
        route: Seq<RoadId>,
        admits: spec_fn(NodeId, RoadId) -> bool,
    ) -> bool
        decreases route.len(),
    {
        if route.len() == 0 {
            start == goal
        } else {
            &&& self.hop(start, route[0])
            &&& admits(start, route[0])
            &&& self.leads_to(self.road_map()[route[0]].to, goal, route.drop_first(), admits)
        }
    }

    /// `route` drives from `start` to `goal` through the network.
    pub open spec fn is_route(&self, start: NodeId, goal: NodeId, route: Seq<RoadId>) -> bool {
        self.leads_to(start, goal, route, |n: NodeId, r: RoadId| true)
    }

    /// How the views of a well-formed network relate: identifiers are listed
    /// in increasing order, each listed element is the one kept under its
    /// identifier, and each road carries the identifier it is kept under.
    pub proof fn lemma_views(&self)
        requires
            self.wf(),
        ensures
            self.node_ids().len() == self.node_seq().len(),
            self.road_ids().len() == self.road_seq().len(),
            forall|i: int, j: int|
                0 <= i < j < self.node_ids().len() ==> #[trigger] self.node_ids()[i]
                    < #[trigger] self.node_ids()[j],
            forall|i: int, j: int|
                0 <= i < j < self.road_ids().len() ==> #[trigger] self.road_ids()[i]
                    < #[trigger] self.road_ids()[j],
            forall|i: int|
                0 <= i < self.node_ids().len() ==> self.node_map().contains_key(
                    #[trigger] self.node_ids()[i],
                ) && self.node_map()[self.node_ids()[i]] == self.node_seq()[i],
            forall|i: int|
                0 <= i < self.road_ids().len() ==> self.road_map().contains_key(
                    #[trigger] self.road_ids()[i],
                ) && self.road_map()[self.road_ids()[i]] == self.road_seq()[i],
            forall|k: NodeId| #[trigger]
                self.node_map().contains_key(k) <==> self.node_ids().contains(k),
            forall|k: RoadId| #[trigger]
                self.road_map().contains_key(k) <==> self.road_ids().contains(k),
            forall|k: RoadId| #[trigger]
                self.road_map().contains_key(k) ==> self.road_map()[k].id == k,
            forall|k: NodeId| #[trigger]
                self.node_map().contains_key(k) ==> self.node_map()[k].id == k,
    {
        lemma_entries(self.nodes.entries@);
        lemma_entries(self.roads.entries@);
        let ns = self.nodes.entries@;
        let rs = self.roads.entries@;
        assert forall|i: int, j: int|
            0 <= i < j < self.node_ids().len() implies #[trigger] self.node_ids()[i]
            < #[trigger] self.node_ids()[j] by {
            assert(ns[i].0 < ns[j].0);
        }
        assert forall|i: int, j: int|
            0 <= i < j < self.road_ids().len() implies #[trigger] self.road_ids()[i]
            < #[trigger] self.road_ids()[j] by {
            assert(rs[i].0 < rs[j].0);
        }
        assert forall|i: int| 0 <= i < self.node_ids().len() implies self.node_map().contains_key(
            #[trigger] self.node_ids()[i],
        ) && self.node_map()[self.node_ids()[i]] == self.node_seq()[i] by {
            assert(self.node_ids()[i] == ns[i].0);
        }
        assert forall|i: int| 0 <= i < self.road_ids().len() implies self.road_map().contains_key(
            #[trigger] self.road_ids()[i],
        ) && self.road_map()[self.road_ids()[i]] == self.road_seq()[i] by {
            assert(self.road_ids()[i] == rs[i].0);
        }
        assert forall|k: NodeId| #[trigger]
            self.node_map().contains_key(k) <==> self.node_ids().contains(k) by {
            if self.node_map().contains_key(k) {
                let j = crate::idmap::index_of(ns, k);
                assert(self.node_ids()[j] == k);
            }
            if self.node_ids().contains(k) {
                let j = choose|j: int| 0 <= j < self.node_ids().len() && self.node_ids()[j] == k;
                assert(ns[j].0 == k);
            }
        }
        assert forall|k: RoadId| #[trigger]
            self.road_map().contains_key(k) <==> self.road_ids().contains(k) by {
            if self.road_map().contains_key(k) {
                let j = crate::idmap::index_of(rs, k);
                assert(self.road_ids()[j] == k);
            }
            if self.road_ids().contains(k) {
                let j = choose|j: int| 0 <= j < self.road_ids().len() && self.road_ids()[j] == k;
                assert(rs[j].0 == k);
            }
        }
        assert forall|k: RoadId| #[trigger] self.road_map().contains_key(k) implies self.road_map()[k].id == k by {
            let j = crate::idmap::index_of(rs, k);
            assert(rs[j].1.id == rs[j].0);
        }
        assert forall|k: NodeId| #[trigger] self.node_map().contains_key(k) implies self.node_map()[k].id == k by {
            let j = crate::idmap::index_of(ns, k);
            assert(ns[j].1.id == ns[j].0);
        }
    }

    /// A route that one test admits is admitted by any weaker test.
    pub proof fn lemma_leads_to_weaken(
        &self,
        start: NodeId,
        goal: NodeId,
        route: Seq<RoadId>,
        a: spec_fn(NodeId, RoadId) -> bool,
        b: spec_fn(NodeId, RoadId) -> bool,
    )
        requires
            self.leads_to(start, goal, route, a),
            forall|n: NodeId, x: RoadId| #[trigger] a(n, x) ==> b(n, x),
        ensures
            self.leads_to(start, goal, route, b),
        decreases route.len(),
    {
        if route.len() > 0 {
            self.lemma_leads_to_weaken(
                self.road_map()[route[0]].to,
                goal,
                route.drop_first(),
                a,
                b,
            );
        }
    }

    /// Every road of a route that leads somewhere is a road of the network.
    pub proof fn lemma_route_roads(
        &self,
        start: NodeId,
        goal: NodeId,
        route: Seq<RoadId>,
        admits: spec_fn(NodeId, RoadId) -> bool,
    )
        requires
            self.leads_to(start, goal, route, admits),
        ensures
            forall|i: int| 0 <= i < route.len() ==> self.road_map().contains_key(#[trigger] route[i]),
        decreases route.len(),
    {
        if route.len() > 0 {
            self.lemma_route_roads(self.road_map()[route[0]].to, goal, route.drop_first(), admits);
            assert forall|i: int| 0 <= i < route.len() implies self.road_map().contains_key(#[trigger] route[i]) by {
                if i > 0 {
                    assert(route[i] == route.drop_first()[i - 1]);
                }
            }
        }
    }

    pub fn new() -> (network: Self)
        ensures
            network.wf(),
            network.node_map() == Map::<NodeId, Node>::empty(),
            network.road_map() == Map::<RoadId, RoadSegment>::empty(),
            network.node_ids().len() == 0,
            network.road_ids().len() == 0,
    {
        Network { nodes: IdMap::new(), roads: IdMap::new() }
    }

    /// Adds a node under its identifier, in place of any node that had it.
    pub fn add_node(&mut self, node: Node)
        requires
            old(self).wf(),
        ensures
            final(self).wf(),
            final(self).node_map() == old(self).node_map().insert(node.id, node),
            final(self).road_map() == old(self).road_map(),
            final(self).road_ids() == old(self).road_ids(),
            final(self).road_seq() == old(self).road_seq(),
    {
        let id = node.id;
        let ghost nd = node;
        self.nodes.insert(id, node);
        proof {
            lemma_entries(self.nodes.entries@);
            lemma_entries(old(self).nodes.entries@);
            assert forall|i: int|
                0 <= i < self.nodes.entries@.len() implies #[trigger] self.nodes.entries@[i].1.id
                == self.nodes.entries@[i].0 by {
                let k = self.nodes.entries@[i].0;
                if k != id {
                    let j = crate::idmap::index_of(old(self).nodes.entries@, k);
                    assert(old(self).nodes.entries@[j].1.id == k);
                }
            }
        }
    }

    /// Adds a road between two nodes that the network has, in place of any
    /// road that had its identifier, and lists it among the source node's
    /// outbound roads and the destination node's inbound roads.
    pub fn add_road(&mut self, road: RoadSegment)
        requires
            old(self).wf(),
            old(self).node_map().contains_key(road.from),
            old(self).node_map().contains_key(road.to),
        ensures
            final(self).wf(),
            final(self).road_map() == old(self).road_map().insert(road.id, road),
            final(self).node_map().dom() == old(self).node_map().dom(),
            final(self).node_ids() == old(self).node_ids(),
            forall|n: NodeId|
                #![trigger final(self).node_map()[n]]
                final(self).node_map().contains_key(n) ==> {
                    let before = old(self).node_map()[n];
                    let after = final(self).node_map()[n];
                    &&& after.id == before.id
                    &&& after.name == before.name
                    &&& after.kind == before.kind
                    &&& after.signal_plan == before.signal_plan
                    &&& after.outbound_roads@ == if n == road.from {
                        before.outbound_roads@.push(road.id)
                    } else {
                        before.outbound_roads@
                    }
                    &&& after.inbound_roads@ == if n == road.to {
                        before.inbound_roads@.push(road.id)
                    } else {
                        before.inbound_roads@
                    }
                },
    {
        let road_id = road.id;
        let from = road.from;
        let to = road.to;
        proof {
            lemma_entries(self.nodes.entries@);
        }
        let fi = self.nodes.find(from).unwrap();
        let ghost s0 = self.nodes.entries@;
        self.nodes.entries[fi].1.outbound_roads.push(road_id);
        proof {
            lemma_update_value(s0, fi as int, self.nodes.entries@[fi as int].1);
            assert(self.nodes.entries@ =~= s0.update(
                fi as int,
                (s0[fi as int].0, self.nodes.entries@[fi as int].1),
            ));
            lemma_entries(self.nodes.entries@);
        }
        let ti = self.nodes.find(to).unwrap();
        let ghost s1 = self.nodes.entries@;
        self.nodes.entries[ti].1.inbound_roads.push(road_id);
        proof {
            lemma_update_value(s1, ti as int, self.nodes.entries@[ti as int].1);
            assert(self.nodes.entries@ =~= s1.update(
                ti as int,
                (s1[ti as int].0, self.nodes.entries@[ti as int].1),
            ));
            lemma_entries(self.nodes.entries@);
        }
        let ghost mid = self.nodes.entries@;
        self.roads.insert(road_id, road);
        proof {
            lemma_entries(self.roads.entries@);
            assert forall|i: int|
                0 <= i < self.roads.entries@.len() implies #[trigger] self.roads.entries@[i].1.id
                == self.roads.entries@[i].0 by {
                let k = self.roads.entries@[i].0;
                if k != road_id {
                    lemma_entries(old(self).roads.entries@);
                    let j = crate::idmap::index_of(old(self).roads.entries@, k);
                    assert(old(self).roads.entries@[j].1.id == k);
                }
            }
            assert(key_seq(self.nodes.entries@) =~= key_seq(old(self).nodes.entries@));
            lemma_entries(old(self).nodes.entries@);
            assert forall|k: NodeId| #[trigger]
                self.node_map().contains_key(k) == old(self).node_map().contains_key(k) by {
                if old(self).node_map().contains_key(k) {
                    let j = crate::idmap::index_of(old(self).nodes.entries@, k);
                    assert(self.nodes.entries@[j].0 == k);
                }
                if self.node_map().contains_key(k) {
                    let j = crate::idmap::index_of(self.nodes.entries@, k);
                    assert(old(self).nodes.entries@[j].0 == k);
                }
            }
            assert(self.node_map().dom() =~= old(self).node_map().dom());
        }
    }

    pub fn node(&self, node_id: NodeId) -> (node: Option<&Node>)
        requires
            self.wf(),
        ensures
            match node {
                Some(n) => self.node_map().contains_key(node_id) && *n == self.node_map()[node_id],
                None => !self.node_map().contains_key(node_id),
            },
    {
        self.nodes.get(node_id)
    }

    pub fn road(&self, road_id: RoadId) -> (road: Option<&RoadSegment>)
        requires
            self.wf(),
        ensures
            match road {
                Some(r) => self.road_map().contains_key(road_id) && *r == self.road_map()[road_id],
                None => !self.road_map().contains_key(road_id),
            },
    {
        self.roads.get(road_id)
    }

    /// The number of distinct node identifiers.
    pub fn node_count(&self) -> (count: usize)
        requires
            self.wf(),
        ensures
            count == self.node_map().dom().len(),
            count == self.node_ids().len(),
    {
        proof {
            lemma_map_len(self.nodes.entries@);
        }
        self.nodes.len()
    }

    /// The number of distinct road identifiers.
    pub fn road_count(&self) -> (count: usize)
        requires
            self.wf(),
        ensures
            count == self.road_map().dom().len(),
            count == self.road_ids().len(),
    {
        proof {
            lemma_map_len(self.roads.entries@);
        }
        self.roads.len()
    }

    /// The nodes in increasing order of identifier.
    pub fn nodes(&self) -> (nodes: Vec<&Node>)
        ensures
            nodes@.len() == self.node_seq().len(),
            forall|i: int| 0 <= i < nodes@.len() ==> *#[trigger] nodes@[i] == self.node_seq()[i],
    {
        let mut out: Vec<&Node> = Vec::new();
        let mut i: usize = 0;
        while i < self.nodes.entries.len()
            invariant
                i <= self.nodes.entries@.len(),
                out@.len() == i,
                forall|j: int| 0 <= j < i ==> *#[trigger] out@[j] == self.nodes.entries@[j].1,
            decreases self.nodes.entries@.len() - i,
        {
            out.push(&self.nodes.entries[i].1);
            i = i + 1;
        }
        out
    }

    /// The roads in increasing order of identifier.
    pub fn roads(&self) -> (roads: Vec<&RoadSegment>)
        ensures
            roads@.len() == self.road_seq().len(),
            forall|i: int| 0 <= i < roads@.len() ==> *#[trigger] roads@[i] == self.road_seq()[i],
    {
        let mut out: Vec<&RoadSegment> = Vec::new();
        let mut i: usize = 0;
        while i < self.roads.entries.len()
            invariant
                i <= self.roads.entries@.len(),
                out@.len() == i,
                forall|j: int| 0 <= j < i ==> *#[trigger] out@[j] == self.roads.entries@[j].1,
            decreases self.roads.entries@.len() - i,
        {
            out.push(&self.roads.entries[i].1);
            i = i + 1;
        }
        out
    }
}

impl Network {
    /// The label of a road in a route description: its name, or a
    /// placeholder for a road the network does not have.
    pub open spec fn road_label(&self, road: RoadId) -> Seq<char> {
        if self.road_map().contains_key(road) {
            self.road_map()[road].name@
        } else {
            "tramo desconocido"@
        }
    }

    /// The labels of the roads of `route`, joined by arrows.
    pub open spec fn joined_labels(&self, route: Seq<RoadId>) -> Seq<char>
        decreases route.len(),
    {
        if route.len() == 0 {
            Seq::empty()
        } else if route.len() == 1 {
            self.road_label(route[0])
        } else {
            self.joined_labels(route.drop_last()) + " -> "@ + self.road_label(route.last())
        }
    }

    /// A description of a route for people: the road names joined by arrows,
    /// or a fixed text for the empty route.
    pub fn describe_route(&self, route: &[RoadId]) -> (text: String)
        requires
            self.wf(),
        ensures
            text@ == if route@.len() == 0 {
                "sin tramos"@
            } else {
                self.joined_labels(route@)
            },
    {
        if route.len() == 0 {
            return String::from_str("sin tramos");
        }
        let mut out = String::new();
        let mut i: usize = 0;
        while i < route.len()
            invariant
                self.wf(),
                i <= route@.len(),
                out@ == self.joined_labels(route@.take(i as int)),
            decreases route@.len() - i,
        {
            let ghost before = out@;
            if i > 0 {
                out.append(" -> ");
            }
            match self.road(route[i]) {
                Some(r) => out.append(r.name.as_str()),
                None => out.append("tramo desconocido"),
            }
            proof {
                let t = route@.take(i + 1);
                assert(t.drop_last() =~= route@.take(i as int));
                assert(t.last() == route@[i as int]);
                if i == 0 {
                    assert(before =~= Seq::<char>::empty());
                    assert(out@ =~= self.road_label(route@[0]));
                } else {
                    assert(out@ =~= before + " -> "@ + self.road_label(route@[i as int]));
                }
            }
            i = i + 1;
        }
        proof {
            assert(route@.take(route@.len() as int) =~= route@);
        }
        out
    }
}

/// A sorted sequence of entries has as many keys in its map as entries.
pub proof fn lemma_map_len<V>(s: Seq<(usize, V)>)
    requires
        keys_sorted(s),
    ensures
        entries_to_map(s).dom().len() == s.len(),
        key_seq(s).len() == s.len(),
{
    let ks = key_seq(s);
    lemma_entries(s);
    assert(ks.no_duplicates()) by {
        assert forall|i: int, j: int|
            0 <= i < ks.len() && 0 <= j < ks.len() && i != j implies ks[i] != ks[j] by {
            assert(ks[i] == s[i].0 && ks[j] == s[j].0);
            if i < j {
                assert(s[i].0 < s[j].0);
            } else {
                assert(s[j].0 < s[i].0);
            }
        }
    }
    ks.unique_seq_to_set();
    assert forall|k: usize| #[trigger] entries_to_map(s).dom().contains(k) == ks.to_set().contains(
        k,
    ) by {
        if entries_to_map(s).dom().contains(k) {
            let j = crate::idmap::index_of(s, k);
            assert(ks[j] == k);
        }
        if ks.to_set().contains(k) {
            let j = choose|j: int| 0 <= j < ks.len() && ks[j] == k;
            assert(s[j].0 == k);
        }
    }
    assert(entries_to_map(s).dom() =~= ks.to_set());
}

} // verus!
