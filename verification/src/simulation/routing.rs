//! Route search during a simulation: a move costs the road's travel time
//! plus a congestion penalty, and a search may avoid a road, avoid full
//! roads, and respect the signal at its start.
use vstd::prelude::*;
use crate::idmap::lemma_entries;
use crate::model::{NodeId, NodeKind, RoadId, RoadSegment, spec_travel_time};
use crate::routing::{EdgeRule, lemma_ties_same_rules, route_cost, search_route, surely_pred, ties_broken};
use super::Simulation;

verus! {

/// What a route search during the simulation avoids.
#[derive(Clone, Copy, Debug, PartialEq, Eq, Structural)]
pub struct RouteSearchOptions {
    pub avoid_road: Option<RoadId>,
    pub avoid_full_roads: bool,
    pub respect_signals: bool,
}

/// A search that avoids nothing.
pub open spec fn plain_search() -> RouteSearchOptions {
    RouteSearchOptions { avoid_road: None, avoid_full_roads: false, respect_signals: false }
}

/// The search for a way around road `avoided`: it avoids that road and full
/// roads, and respects the signal where it starts.
pub open spec fn escape_search(avoided: RoadId) -> RouteSearchOptions {
    RouteSearchOptions { avoid_road: Some(avoided), avoid_full_roads: true, respect_signals: true }
}

/// The search for a way around road `avoided` that ignores the signal.
pub open spec fn relaxed_escape_search(avoided: RoadId) -> RouteSearchOptions {
    RouteSearchOptions { avoid_road: Some(avoided), avoid_full_roads: true, respect_signals: false }
}

impl Simulation {
    /// No route from `from` to `to` that a search with `options` may take
    /// costs less than `route` now.
    pub open spec fn cheapest_under(&self, options: RouteSearchOptions, from: NodeId, to: NodeId, route: Seq<RoadId>) -> bool {
        forall|other: Seq<RoadId>|
            #[trigger] self.net().leads_to(from, to, other, self.search_pred(options, from))
                ==> self.search_cost(options, from, route) <= self.search_cost(options, from, other)
    }

    /// Every route from `from` to `to` that a search with `options` may take
    /// costs the largest `u32` or more now.
    pub open spec fn no_route_under(&self, options: RouteSearchOptions, from: NodeId, to: NodeId) -> bool {
        forall|other: Seq<RoadId>|
            #[trigger] self.net().leads_to(from, to, other, self.search_pred(options, from))
                ==> self.search_cost(options, from, other) >= u32::MAX
    }

    /// `route` is the way around road `avoided` that the escape takes: a
    /// cheapest route that the search respecting the signal may take, or,
    /// where that search has none, a cheapest route that the search ignoring
    /// the signal may take; among equally cheap ones, the one that the
    /// search keeps (`ties_broken`).
    pub open spec fn escape_route(&self, avoided: RoadId, from: NodeId, to: NodeId, route: Seq<RoadId>) -> bool {
        ||| {
            &&& self.net().leads_to(
                from,
                to,
                route,
                |n: NodeId, x: RoadId| self.search_admits(escape_search(avoided), from, n, x),
            )
            &&& self.cheapest_under(escape_search(avoided), from, to, route)
            &&& self.search_keeps(escape_search(avoided), from, route)
        }
        ||| {
            &&& self.no_route_under(escape_search(avoided), from, to)
            &&& self.net().leads_to(
                from,
                to,
                route,
                |n: NodeId, x: RoadId| self.search_admits(relaxed_escape_search(avoided), from, n, x),
            )
            &&& self.cheapest_under(relaxed_escape_search(avoided), from, to, route)
            &&& self.search_keeps(relaxed_escape_search(avoided), from, route)
        }
    }

    /// Among the equally cheap routes from `from`, `route` is the one that
    /// a search with `options` keeps.
    pub open spec fn search_keeps(&self, options: RouteSearchOptions, from: NodeId, route: Seq<RoadId>) -> bool {
        exists|nodes: Seq<NodeId>|
            #[trigger] ties_broken(self.net(), &(SearchRule { sim: self, options, start: from }), from, route, nodes)
    }

    /// The number of vehicles in the first `k` lanes of road `r`.
    pub open spec fn lanes_total(&self, r: RoadId, k: int) -> nat
        decreases k,
    {
        if k <= 0 {
            0
        } else {
            self.lanes_total(r, k - 1) + self.lane_of(r, k - 1).len()
        }
    }

    /// The number of vehicles on road `r`.
    pub open spec fn occupancy(&self, r: RoadId) -> nat {
        self.lanes_total(r, self.lane_count(r))
    }

    /// A road is full when it holds as many vehicles as all its lanes take;
    /// a road the network lacks counts as full.
    pub open spec fn spec_road_is_full(&self, r: RoadId) -> bool {
        if self.net().road_map().contains_key(r) {
            let road = self.net().road_map()[r];
            self.occupancy(r) >= road.lanes * road.capacity_per_lane
        } else {
            true
        }
    }

    /// The cost of driving road `r` now: its travel time plus a penalty in
    /// proportion to how full it is, counted in whole seconds and capped at
    /// the largest `u32`.
    pub open spec fn spec_dynamic_cost(&self, r: RoadId) -> u32 {
        if self.net().road_map().contains_key(r) {
            let road = self.net().road_map()[r];
            let occ = if self.occupancy(r) > u64::MAX { u64::MAX as int } else { self.occupancy(r) as int };
            let capacity = if road.lanes * road.capacity_per_lane == 0 {
                1
            } else {
                road.lanes * road.capacity_per_lane
            };
            let base = spec_travel_time(road) as int;
            let product = if occ * base > u64::MAX { u64::MAX as int } else { occ * base };
            let penalty = product / (capacity as int);
            let total = if base + penalty > u64::MAX { u64::MAX as int } else { base + penalty };
            if total > u32::MAX { u32::MAX } else { total as u32 }
        } else {
            1
        }
    }

    /// A vehicle may leave node `n` by road `r` now: the road is on the
    /// node's outbound list and, at a traffic light, the current phase lets
    /// it through (a phase with no listed road lets every road through).
    pub open spec fn spec_can_depart(&self, n: NodeId, r: RoadId) -> bool {
        if !self.net().node_map().contains_key(n) {
            false
        } else {
            let node = self.net().node_map()[n];
            if !node.outbound_roads@.contains(r) {
                false
            } else if node.kind == NodeKind::TrafficLight && node.signal_plan is Some
                && self.signal_map().contains_key(n) {
                let phase = node.signal_plan.unwrap().phases@[self.signal_map()[n].phase_index as int];
                phase.allowed_roads@.len() == 0 || phase.allowed_roads@.contains(r)
            } else {
                true
            }
        }
    }

    /// The moves that a search from `start` with `options` may take.
    pub open spec fn search_admits(
        &self,
        options: RouteSearchOptions,
        start: NodeId,
        from: NodeId,
        r: RoadId,
    ) -> bool {
        &&& options.avoid_road != Some(r)
        &&& !(options.avoid_full_roads && self.spec_road_is_full(r))
        &&& !(options.respect_signals && from == start && !self.spec_can_depart(from, r))
    }

    /// The moves that a search from `start` with `options` may take.
    pub open spec fn search_pred(&self, options: RouteSearchOptions, start: NodeId) -> spec_fn(NodeId, RoadId) -> bool {
        |n: NodeId, x: RoadId| self.search_admits(options, start, n, x)
    }

    /// The cost of `route` from `start` at the current road costs.
    pub open spec fn search_cost(&self, options: RouteSearchOptions, start: NodeId, route: Seq<RoadId>) -> nat
        decreases route.len(),
    {
        if route.len() == 0 {
            0
        } else {
            self.spec_dynamic_cost(route[0]) as nat + self.search_cost(
                options,
                self.net().road_map()[route[0]].to,
                route.drop_first(),
            )
        }
    }

    /// Two states with the same network and the same lanes, each holding the
    /// same vehicles, price every route alike.
    pub proof fn lemma_same_lanes_same_cost(
        a: Simulation,
        b: Simulation,
        options: RouteSearchOptions,
        from: NodeId,
        route: Seq<RoadId>,
    )
        requires
            a.net() == b.net(),
            forall|r: RoadId| #[trigger] a.lane_count(r) == b.lane_count(r),
            forall|r: RoadId, l: int| #[trigger] a.lane_of(r, l) == b.lane_of(r, l),
        ensures
            a.search_cost(options, from, route) == b.search_cost(options, from, route),
        decreases route.len(),
    {
        if route.len() > 0 {
            let r = route[0];
            Self::lemma_same_lanes_total(a, b, r, a.lane_count(r));
            Self::lemma_same_lanes_same_cost(a, b, options, a.net().road_map()[r].to, route.drop_first());
        }
    }

    /// At a traffic light with a signal plan, the current phase decides: a
    /// phase that lists roads never lets through a road it does not list,
    /// and a road leaving the node goes through where the phase lists it or
    /// lists no road at all.
    pub proof fn lemma_light_phase_decides(s: Simulation, n: NodeId, r: RoadId)
        requires
            s.wf(),
            s.net().node_map().contains_key(n),
            s.net().node_map()[n].kind == NodeKind::TrafficLight,
            s.net().node_map()[n].signal_plan is Some,
            s.signal_map().contains_key(n),
        ensures
            ({
                let node = s.net().node_map()[n];
                let phase = node.signal_plan.unwrap().phases@[s.signal_map()[n].phase_index as int];
                &&& phase.allowed_roads@.len() > 0 && !phase.allowed_roads@.contains(r) ==> !s.spec_can_depart(n, r)
                &&& node.outbound_roads@.contains(r) && (phase.allowed_roads@.len() == 0
                    || phase.allowed_roads@.contains(r)) ==> s.spec_can_depart(n, r)
            }),
    {
    }

    /// A vehicle never leaves a node by a road that does not leave it, and
    /// away from a running signal (a node that is no traffic light, or a
    /// traffic light without a plan or without a signal state) every road
    /// that leaves it is open.
    pub proof fn lemma_departs_by_outbound_roads(s: Simulation, n: NodeId, r: RoadId)
        ensures
            s.spec_can_depart(n, r) ==> s.net().node_map().contains_key(n)
                && s.net().node_map()[n].outbound_roads@.contains(r),
            s.net().node_map().contains_key(n) && s.net().node_map()[n].outbound_roads@.contains(r) && (
            s.net().node_map()[n].kind != NodeKind::TrafficLight || s.net().node_map()[n].signal_plan is None
                || !s.signal_map().contains_key(n)) ==> s.spec_can_depart(n, r),
    {
    }

    /// A road costs its travel time `b` plus `b` for every full load of
    /// vehicles it holds: with `k` vehicles and room for `c` in all its lanes
    /// together (taken as one where it has none), `b + floor(k * b / c)`,
    /// capped at the largest `u32`, wherever `k * b` fits in a `u64`. So an
    /// empty road costs its travel time, and a road holding vehicles costs
    /// more than that as soon as `k * b` reaches `c`.
    pub proof fn lemma_congestion_cost(s: Simulation, r: RoadId)
        requires
            s.net().road_map().contains_key(r),
            s.occupancy(r) * spec_travel_time(s.net().road_map()[r]) <= u64::MAX,
        ensures
            ({
                let road = s.net().road_map()[r];
                let b = spec_travel_time(road) as int;
                let k = s.occupancy(r) as int;
                let c = if road.lanes * road.capacity_per_lane == 0 {
                    1int
                } else {
                    road.lanes * road.capacity_per_lane
                };
                let expected = b + (k * b) / c;
                &&& s.spec_dynamic_cost(r) as int == if expected > u32::MAX { u32::MAX as int } else { expected }
                &&& s.spec_dynamic_cost(r) >= spec_travel_time(road)
                &&& k == 0 ==> s.spec_dynamic_cost(r) == spec_travel_time(road)
                &&& k * b >= c && b < u32::MAX ==> s.spec_dynamic_cost(r) > spec_travel_time(road)
            }),
    {
        let road = s.net().road_map()[r];
        let b = spec_travel_time(road) as int;
        let k = s.occupancy(r) as int;
        let c = if road.lanes * road.capacity_per_lane == 0 {
            1int
        } else {
            road.lanes * road.capacity_per_lane
        };
        assert(b >= 1);
        assert(k <= u64::MAX) by (nonlinear_arith)
            requires
                k * b <= u64::MAX,
                b >= 1,
                k >= 0,
        ;
        assert(c >= 1);
        assert((k * b) / c >= 0) by (nonlinear_arith)
            requires
                k * b >= 0,
                c >= 1,
        ;
        assert(k * b >= 0) by (nonlinear_arith)
            requires
                k >= 0,
                b >= 1,
        ;
        assert(k * b >= c ==> (k * b) / c >= 1) by (nonlinear_arith)
            requires
                c >= 1,
        ;
        assert(k == 0 ==> k * b == 0) by (nonlinear_arith);
    }

    /// A road never costs less than its travel time, and a road the network
    /// lacks costs one.
    pub proof fn lemma_cost_at_least_travel_time(s: Simulation, r: RoadId)
        ensures
            s.net().road_map().contains_key(r) ==> s.spec_dynamic_cost(r) >= spec_travel_time(
                s.net().road_map()[r],
            ),
            !s.net().road_map().contains_key(r) ==> s.spec_dynamic_cost(r) == 1,
    {
        if s.net().road_map().contains_key(r) {
            let road = s.net().road_map()[r];
            let occ = if s.occupancy(r) > u64::MAX { u64::MAX as int } else { s.occupancy(r) as int };
            let c = if road.lanes * road.capacity_per_lane == 0 {
                1int
            } else {
                road.lanes * road.capacity_per_lane
            };
            let b = spec_travel_time(road) as int;
            let product = if occ * b > u64::MAX { u64::MAX as int } else { occ * b };
            assert(occ * b >= 0) by (nonlinear_arith)
                requires
                    occ >= 0,
                    b >= 1,
            ;
            assert(product / c >= 0) by (nonlinear_arith)
                requires
                    product >= 0,
                    c >= 1,
            ;
        }
    }

    /// More vehicles on a road never make it cheaper: of two states with the
    /// same network, the one holding more vehicles on road `r` prices it no
    /// lower.
    pub proof fn lemma_congestion_monotone(s: Simulation, t: Simulation, r: RoadId)
        requires
            s.net() == t.net(),
            s.occupancy(r) <= t.occupancy(r),
        ensures
            s.spec_dynamic_cost(r) <= t.spec_dynamic_cost(r),
    {
        if s.net().road_map().contains_key(r) {
            let road = s.net().road_map()[r];
            let o1 = if s.occupancy(r) > u64::MAX { u64::MAX as int } else { s.occupancy(r) as int };
            let o2 = if t.occupancy(r) > u64::MAX { u64::MAX as int } else { t.occupancy(r) as int };
            let c = if road.lanes * road.capacity_per_lane == 0 {
                1int
            } else {
                road.lanes * road.capacity_per_lane
            };
            let b = spec_travel_time(road) as int;
            let p1 = if o1 * b > u64::MAX { u64::MAX as int } else { o1 * b };
            let p2 = if o2 * b > u64::MAX { u64::MAX as int } else { o2 * b };
            assert(o1 <= o2);
            assert(o1 * b <= o2 * b) by (nonlinear_arith)
                requires
                    0 <= o1 <= o2,
                    b >= 1,
            ;
            assert(p1 <= p2);
            assert(p1 / c <= p2 / c) by (nonlinear_arith)
                requires
                    0 <= p1 <= p2,
                    c >= 1,
            ;
        }
    }

    /// The first `k` lanes of road `r`, none of which has room, hold at least
    /// `k` times a lane's capacity.
    proof fn lemma_full_lanes_total(&self, r: RoadId, k: int)
        requires
            0 <= k <= self.lane_count(r),
            forall|l: int| 0 <= l < k ==> !#[trigger] self.lane_has_room(r, l),
        ensures
            self.lanes_total(r, k) >= k * self.net().road_map()[r].capacity_per_lane,
        decreases k,
    {
        if k > 0 {
            self.lemma_full_lanes_total(r, k - 1);
            let cap = self.net().road_map()[r].capacity_per_lane as int;
            assert(!self.lane_has_room(r, k - 1));
            assert((k - 1) * cap + cap == k * cap) by (nonlinear_arith);
            assert(self.lanes_total(r, k) == self.lanes_total(r, k - 1) + self.lane_of(r, k - 1).len());
        } else {
            let cap = self.net().road_map()[r].capacity_per_lane as int;
            assert(k * cap == 0) by (nonlinear_arith)
                requires
                    k == 0,
            ;
        }
    }

    /// A road none of whose lanes has room is full: a road that is not full
    /// has a lane that a vehicle can enter.
    pub proof fn lemma_no_room_is_full(s: Simulation, r: RoadId)
        requires
            s.wf(),
            s.net().road_map().contains_key(r),
            forall|l: int| 0 <= l < s.lane_count(r) ==> !#[trigger] s.lane_has_room(r, l),
        ensures
            s.spec_road_is_full(r),
    {
        lemma_entries(s.road_runtime.entries@);
        s.network.lemma_views();
        assert(s.road_runtime.keys().contains(r));
        let j = choose|j: int| 0 <= j < s.road_runtime.keys().len() && s.road_runtime.keys()[j] == r;
        assert(s.road_runtime.entries@[j].0 == r);
        assert(s.road_runtime@.contains_key(r));
        assert(s.lane_count(r) == s.net().road_map()[r].lanes);
        s.lemma_full_lanes_total(r, s.lane_count(r));
    }

    /// Two states with the same network, signals and lanes keep the same
    /// route among equally cheap ones.
    pub proof fn lemma_same_lanes_same_keep(
        a: Simulation,
        b: Simulation,
        options: RouteSearchOptions,
        from: NodeId,
        route: Seq<RoadId>,
    )
        requires
            a.net() == b.net(),
            a.signal_map() == b.signal_map(),
            forall|r: RoadId| #[trigger] a.lane_count(r) == b.lane_count(r),
            forall|r: RoadId, l: int| #[trigger] a.lane_of(r, l) == b.lane_of(r, l),
            a.search_keeps(options, from, route),
        ensures
            b.search_keeps(options, from, route),
    {
        let ra = SearchRule { sim: &a, options, start: from };
        let rb = SearchRule { sim: &b, options, start: from };
        let nodes = choose|nodes: Seq<NodeId>| #[trigger] ties_broken(a.net(), &ra, from, route, nodes);
        assert forall|r: RoadId| #[trigger] a.occupancy(r) == b.occupancy(r) by {
            Self::lemma_same_lanes_total(a, b, r, a.lane_count(r));
        }
        assert forall|f: NodeId, x: RoadId, rd: RoadSegment| #[trigger] ra.cost(f, x, rd) == rb.cost(f, x, rd) by {
            assert(a.occupancy(x) == b.occupancy(x));
        }
        assert forall|f: NodeId, x: RoadId, rd: RoadSegment|
            #[trigger] ra.surely_admits(f, x, rd) == rb.surely_admits(f, x, rd) by {
            assert(a.occupancy(x) == b.occupancy(x));
        }
        lemma_ties_same_rules(a.net(), &ra, &rb, from, route, nodes);
        assert(ties_broken(b.net(), &rb, from, route, nodes));
    }

    proof fn lemma_same_lanes_total(a: Simulation, b: Simulation, r: RoadId, k: int)
        requires
            forall|r: RoadId, l: int| #[trigger] a.lane_of(r, l) == b.lane_of(r, l),
        ensures
            a.lanes_total(r, k) == b.lanes_total(r, k),
        decreases k,
    {
        if k > 0 {
            Self::lemma_same_lanes_total(a, b, r, k - 1);
            assert(a.lane_of(r, k - 1) == b.lane_of(r, k - 1));
        }
    }

    /// The search rule prices a route at its current cost.
    proof fn lemma_search_cost(&self, options: RouteSearchOptions, start: NodeId, from: NodeId, route: Seq<RoadId>)
        ensures
            route_cost(self.net(), &(SearchRule { sim: self, options, start }), from, route)
                == self.search_cost(options, from, route),
        decreases route.len(),
    {
        if route.len() > 0 {
            self.lemma_search_cost(options, start, self.net().road_map()[route[0]].to, route.drop_first());
        }
    }

    /// The number of vehicles on road `road_id`, saturating at the largest `u64`.
    fn road_occupancy(&self, road_id: RoadId) -> (occupancy: u64)
        requires
            self.wf(),
            self.net().road_map().contains_key(road_id),
        ensures
            occupancy == if self.occupancy(road_id) > u64::MAX {
                u64::MAX as int
            } else {
                self.occupancy(road_id) as int
            },
    {
        proof {
            lemma_entries(self.road_runtime.entries@);
            self.network.lemma_views();
            assert(self.road_runtime.keys().contains(road_id));
            let j = choose|j: int| 0 <= j < self.road_runtime.keys().len() && self.road_runtime.keys()[j] == road_id;
            assert(self.road_runtime.entries@[j].0 == road_id);
        }
        let ri = self.road_runtime.find(road_id).unwrap();
        let lanes = &self.road_runtime.entries[ri].1.lanes;
        let mut total: u64 = 0;
        let mut l: usize = 0;
        while l < lanes.len()
            invariant
                self.wf(),
                *lanes == self.road_runtime@[road_id].lanes,
                self.road_runtime@.contains_key(road_id),
                l <= lanes@.len(),
                lanes@.len() == self.lane_count(road_id),
                total == if self.lanes_total(road_id, l as int) > u64::MAX {
                    u64::MAX as int
                } else {
                    self.lanes_total(road_id, l as int) as int
                },
            decreases lanes@.len() - l,
        {
            proof {
                assert(self.lane_of(road_id, l as int) == lanes@[l as int]@);
            }
            total = total.saturating_add(lanes[l].len() as u64);
            l = l + 1;
        }
        total
    }

    /// Whether road `road_id` holds as many vehicles as its lanes take.
    pub fn road_is_full(&self, road_id: RoadId) -> (full: bool)
        requires
            self.wf(),
        ensures
            full == self.spec_road_is_full(road_id),
    {
        let road = match self.network.road(road_id) {
            Some(road) => road,
            None => {
                return true;
            },
        };
        let occupancy = self.road_occupancy(road_id);
        let capacity = road.total_capacity();
        occupancy >= capacity as u64
    }

    /// The cost of driving road `road_id` now, for route searches.
    pub fn dynamic_road_cost(&self, road_id: RoadId) -> (cost: u32)
        requires
            self.wf(),
        ensures
            cost == self.spec_dynamic_cost(road_id),
            cost >= 1,
            self.net().road_map().contains_key(road_id) ==> cost >= spec_travel_time(self.net().road_map()[road_id]),
            self.net().road_map().contains_key(road_id) && self.occupancy(road_id) * spec_travel_time(
                self.net().road_map()[road_id],
            ) <= u64::MAX ==> ({
                let road = self.net().road_map()[road_id];
                let b = spec_travel_time(road) as int;
                let k = self.occupancy(road_id) as int;
                let c = if road.lanes * road.capacity_per_lane == 0 {
                    1int
                } else {
                    road.lanes * road.capacity_per_lane
                };
                cost as int == if b + (k * b) / c > u32::MAX { u32::MAX as int } else { b + (k * b) / c }
            }),
    {
        proof {
            Self::lemma_cost_at_least_travel_time(*self, road_id);
            if self.net().road_map().contains_key(road_id) && self.occupancy(road_id) * spec_travel_time(
                self.net().road_map()[road_id],
            ) <= u64::MAX {
                Self::lemma_congestion_cost(*self, road_id);
            }
        }
        let road = match self.network.road(road_id) {
            Some(road) => road,
            None => {
                return 1;
            },
        };
        let occupancy = self.road_occupancy(road_id);
        let total_capacity = road.total_capacity();
        let capacity: u64 = if total_capacity == 0 { 1 } else { total_capacity as u64 };
        let base: u64 = road.travel_time_seconds() as u64;
        let product = match occupancy.checked_mul(base) {
            Some(p) => p,
            None => u64::MAX,
        };
        let congestion_penalty = product / capacity;
        let total = base.saturating_add(congestion_penalty);
        if total > u32::MAX as u64 {
            u32::MAX
        } else {
            total as u32
        }
    }

    /// Whether a vehicle may leave node `node_id` by road `road_id` now.
    pub fn can_depart(&self, node_id: NodeId, road_id: RoadId) -> (allowed: bool)
        requires
            self.wf(),
        ensures
            allowed == self.spec_can_depart(node_id, road_id),
            allowed ==> self.net().node_map().contains_key(node_id) && self.net().node_map()[node_id].outbound_roads@.contains(
                road_id,
            ),
            ({
                let node = self.net().node_map()[node_id];
                self.net().node_map().contains_key(node_id) && node.kind == NodeKind::TrafficLight
                    && node.signal_plan is Some && self.signal_map().contains_key(node_id) ==> {
                    let phase = node.signal_plan.unwrap().phases@[self.signal_map()[node_id].phase_index as int];
                    allowed == (node.outbound_roads@.contains(road_id) && (phase.allowed_roads@.len() == 0
                        || phase.allowed_roads@.contains(road_id)))
                }
            }),
    {
        proof {
            Self::lemma_departs_by_outbound_roads(*self, node_id, road_id);
            let node = self.net().node_map()[node_id];
            if self.net().node_map().contains_key(node_id) && node.kind == NodeKind::TrafficLight
                && node.signal_plan is Some && self.signal_map().contains_key(node_id) {
                Self::lemma_light_phase_decides(*self, node_id, road_id);
            }
        }
        let node = match self.network.node(node_id) {
            Some(node) => node,
            None => {
                return false;
            },
        };
        if !contains_id(&node.outbound_roads, road_id) {
            return false;
        }
        match node.kind {
            NodeKind::TrafficLight => {
                let plan = match &node.signal_plan {
                    Some(plan) => plan,
                    None => {
                        return true;
                    },
                };
                let state = match self.signals.get(node_id) {
                    Some(state) => state,
                    None => {
                        return true;
                    },
                };
                let phase = &plan.phases[state.phase_index];
                phase.allowed_roads.len() == 0 || contains_id(&phase.allowed_roads, road_id)
            },
            _ => true,
        }
    }

    /// A route from `start` to `goal` under `options`, found by the
    /// cheapest-route search with the current road costs.
    pub fn compute_route_from(
        &self,
        start: NodeId,
        goal: NodeId,
        options: RouteSearchOptions,
    ) -> (route: Option<Vec<RoadId>>)
        requires
            self.wf(),
        ensures
            start == goal ==> (route matches Some(r) && r@.len() == 0),
            route matches Some(r) ==> self.net().leads_to(
                start,
                goal,
                r@,
                |n: NodeId, x: RoadId| self.search_admits(options, start, n, x),
            ),
            route matches Some(r) ==> forall|other: Seq<RoadId>|
                #[trigger] self.net().leads_to(start, goal, other, self.search_pred(options, start))
                    ==> self.search_cost(options, start, r@) <= self.search_cost(options, start, other),
            route is None ==> forall|other: Seq<RoadId>|
                #[trigger] self.net().leads_to(start, goal, other, self.search_pred(options, start))
                    ==> self.search_cost(options, start, other) >= u32::MAX,
            route matches Some(r) ==> self.search_keeps(options, start, r@),
    {
        let rule = SearchRule { sim: self, options, start };
        let route = search_route(&self.network, &rule, start, goal);
        proof {
            assert forall|other: Seq<RoadId>|
                #[trigger] self.net().leads_to(start, goal, other, self.search_pred(options, start)) implies
                self.network.leads_to(start, goal, other, surely_pred(self.network, &rule)) by {
                self.network.lemma_leads_to_weaken(start, goal, other, self.search_pred(options, start), surely_pred(self.network, &rule));
            }
            assert forall|other: Seq<RoadId>|
                #[trigger] self.net().leads_to(start, goal, other, self.search_pred(options, start)) implies
                route_cost(self.network, &rule, start, other) == self.search_cost(options, start, other) by {
                self.lemma_search_cost(options, start, start, other);
            }
            if route is Some {
                self.lemma_search_cost(options, start, start, route.unwrap()@);
            }
            if route is Some {
                self.network.lemma_leads_to_weaken(
                    start,
                    goal,
                    route.unwrap()@,
                    |n: NodeId, x: RoadId| rule.admits(n, x, self.network.road_map()[x]),
                    |n: NodeId, x: RoadId| self.search_admits(options, start, n, x),
                );
                let nodes = choose|nodes: Seq<NodeId>|
                    #[trigger] ties_broken(self.network, &rule, start, route.unwrap()@, nodes);
                assert(ties_broken(self.net(), &rule, start, route.unwrap()@, nodes));
            }
        }
        route
    }
}

/// Whether `ids` lists `id`.
pub fn contains_id(ids: &Vec<usize>, id: usize) -> (found: bool)
    ensures
        found == ids@.contains(id),
{
    let mut i: usize = 0;
    while i < ids.len()
        invariant
            i <= ids@.len(),
            forall|j: int| 0 <= j < i ==> ids@[j] != id,
        decreases ids@.len() - i,
    {
        if ids[i] == id {
            return true;
        }
        i = i + 1;
    }
    false
}

/// The search rule of a simulation: what `options` avoid, at the current
/// road costs.
pub struct SearchRule<'a> {
    pub sim: &'a Simulation,
    pub options: RouteSearchOptions,
    pub start: NodeId,
}

impl<'a> EdgeRule for SearchRule<'a> {
    open spec fn ready(&self) -> bool {
        self.sim.wf()
    }

    open spec fn admits(&self, from: NodeId, road_id: RoadId, road: RoadSegment) -> bool {
        self.sim.search_admits(self.options, self.start, from, road_id)
    }

    open spec fn surely_admits(&self, from: NodeId, road_id: RoadId, road: RoadSegment) -> bool {
        self.sim.search_admits(self.options, self.start, from, road_id)
    }

    open spec fn cost(&self, from: NodeId, road_id: RoadId, road: RoadSegment) -> nat {
        self.sim.spec_dynamic_cost(road_id) as nat
    }

    proof fn lemma_cost_positive(&self, from: NodeId, road_id: RoadId, road: RoadSegment) {
        if self.sim.net().road_map().contains_key(road_id) {
            let rd = self.sim.net().road_map()[road_id];
            let occ = if self.sim.occupancy(road_id) > u64::MAX {
                u64::MAX as int
            } else {
                self.sim.occupancy(road_id) as int
            };
            let capacity = if rd.lanes * rd.capacity_per_lane == 0 {
                1
            } else {
                rd.lanes * rd.capacity_per_lane
            };
            let base = spec_travel_time(rd) as int;
            let product = if occ * base > u64::MAX { u64::MAX as int } else { occ * base };
            assert(occ >= 0 && base >= 1);
            assert(occ * base >= 0) by (nonlinear_arith)
                requires
                    occ >= 0,
                    base >= 1,
            ;
            assert(capacity >= 1);
            assert(product / (capacity as int) >= 0) by (nonlinear_arith)
                requires
                    product >= 0,
                    capacity >= 1,
            ;
        }
    }

    fn edge_cost(&self, from: NodeId, road_id: RoadId, road: &RoadSegment) -> (cost: Option<u32>) {
        if self.options.avoid_road == Some(road_id) {
            return None;
        }
        if self.options.avoid_full_roads && self.sim.road_is_full(road_id) {
            return None;
        }
        if self.options.respect_signals && from == self.start && !self.sim.can_depart(from, road_id) {
            return None;
        }
        Some(self.sim.dynamic_road_cost(road_id))
    }
}

} // verus!
