//! Cheapest-route search over the road network. The search settles nodes in
//! increasing order of cost from the start, ties going to the node with the
//! greater identifier, and stops when it settles the goal. The cost of a move
//! and whether it may be taken at all are given by an `EdgeRule`.
use vstd::prelude::*;
use crate::idmap::IdMap;
use crate::model::{Network, NodeId, RoadId, RoadSegment, spec_travel_time};

verus! {

/// Decides whether a search may leave a node by a road, and at what cost.
pub trait EdgeRule {
    /// What the rule needs before it is asked.
    spec fn ready(&self) -> bool;

    /// The moves that the rule may let through; `road` is the road kept
    /// under `road_id`.
    spec fn admits(&self, from: NodeId, road_id: RoadId, road: RoadSegment) -> bool;

    /// The moves that the rule always lets through.
    spec fn surely_admits(&self, from: NodeId, road_id: RoadId, road: RoadSegment) -> bool;

    /// What a move costs where the rule lets it through.
    spec fn cost(&self, from: NodeId, road_id: RoadId, road: RoadSegment) -> nat;

    /// Every move costs at least one.
    proof fn lemma_cost_positive(&self, from: NodeId, road_id: RoadId, road: RoadSegment)
        ensures
            self.cost(from, road_id, road) >= 1,
    ;

    /// The cost of leaving `from` by `road` (the road kept under `road_id`),
    /// or `None` where the rule forbids the move. A cost is at least one.
    fn edge_cost(&self, from: NodeId, road_id: RoadId, road: &RoadSegment) -> (cost: Option<u32>)
        requires
            self.ready(),
        ensures
            cost matches Some(c) ==> c >= 1 && self.admits(from, road_id, *road) && c == self.cost(
                from,
                road_id,
                *road,
            ),
            self.surely_admits(from, road_id, *road) ==> cost is Some,
    ;
}

/// The moves that `rule` may let through on `net`.
pub open spec fn admits_pred<R: EdgeRule>(net: Network, rule: &R) -> spec_fn(NodeId, RoadId) -> bool {
    |n: NodeId, x: RoadId| rule.admits(n, x, net.road_map()[x])
}

/// The moves that `rule` surely lets through on `net`.
pub open spec fn surely_pred<R: EdgeRule>(net: Network, rule: &R) -> spec_fn(NodeId, RoadId) -> bool {
    |n: NodeId, x: RoadId| rule.surely_admits(n, x, net.road_map()[x])
}

/// The cost of driving `route` from `start`, move by move, as `rule`
/// prices the moves.
pub open spec fn route_cost<R: EdgeRule>(net: Network, rule: &R, start: NodeId, route: Seq<RoadId>) -> nat
    decreases route.len(),
{
    if route.len() == 0 {
        0
    } else {
        rule.cost(start, route[0], net.road_map()[route[0]]) + route_cost(
            net,
            rule,
            net.road_map()[route[0]].to,
            route.drop_first(),
        )
    }
}

/// Every move that `rule` surely lets through out of a settled node leads to
/// a node whose best known cost is no more than that of the move, unless
/// the move's cost reaches the largest `u32`.
pub open spec fn settled_closed<R: EdgeRule>(
    net: Network,
    rule: &R,
    best: Map<NodeId, u32>,
    done: Set<NodeId>,
) -> bool {
    forall|u: NodeId, r: RoadId|
        #![trigger done.contains(u), net.hop(u, r)]
        done.contains(u) && net.hop(u, r) && rule.surely_admits(u, r, net.road_map()[r]) ==> {
            let e = rule.cost(u, r, net.road_map()[r]);
            let w = net.road_map()[r].to;
            ||| best[u] + e >= u32::MAX
            ||| (best.contains_key(w) && best[w] <= best[u] + e)
        }
}

/// A route that `rule` surely lets through, from a settled node to an
/// unsettled one, passes an unsettled node whose best known cost is no more
/// than the cost of getting there, or costs the largest `u32` or more.
pub proof fn lemma_reaches_unsettled<R: EdgeRule>(
    net: Network,
    rule: &R,
    best: Map<NodeId, u32>,
    done: Set<NodeId>,
    x: NodeId,
    y: NodeId,
    route: Seq<RoadId>,
    acc: nat,
)
    requires
        net.leads_to(x, y, route, surely_pred(net, rule)),
        done.contains(x),
        best.contains_key(x),
        best[x] <= acc,
        !done.contains(y),
        settled_closed(net, rule, best, done),
    ensures
        acc + route_cost(net, rule, x, route) >= u32::MAX || exists|w: NodeId|
            #[trigger] best.contains_key(w) && !done.contains(w) && best[w] <= acc + route_cost(
                net,
                rule,
                x,
                route,
            ),
    decreases route.len(),
{
    let r = route[0];
    let e = rule.cost(x, r, net.road_map()[r]);
    let z = net.road_map()[r].to;
    assert(done.contains(x) && net.hop(x, r));
    if best[x] + e < u32::MAX {
        if done.contains(z) {
            lemma_reaches_unsettled(net, rule, best, done, z, y, route.drop_first(), acc + e);
        } else {
            assert(best.contains_key(z));
        }
    }
}

/// The cost of a node to the search: one more than its best known cost, or
/// more than any cost where it has none yet.
pub open spec fn node_value(best: Map<NodeId, u32>, n: NodeId) -> nat {
    if best.contains_key(n) {
        (best[n] + 1) as nat
    } else {
        0x1_0000_0001nat
    }
}

/// The sum of the node values over the nodes that the search can reach.
pub open spec fn potential(best: Map<NodeId, u32>, ks: Seq<NodeId>) -> nat
    decreases ks.len(),
{
    if ks.len() == 0 {
        0
    } else {
        node_value(best, ks.last()) + potential(best, ks.drop_last())
    }
}

/// Lowering the cost of a listed node lowers the potential.
proof fn lemma_potential_improves(best: Map<NodeId, u32>, ks: Seq<NodeId>, n: NodeId, c: u32)
    requires
        !best.contains_key(n) || c < best[n],
    ensures
        potential(best.insert(n, c), ks) <= potential(best, ks),
        ks.contains(n) ==> potential(best.insert(n, c), ks) < potential(best, ks),
    decreases ks.len(),
{
    if ks.len() > 0 {
        lemma_potential_improves(best, ks.drop_last(), n, c);
        if ks.contains(n) && !ks.drop_last().contains(n) {
            assert(ks.last() == n) by {
                let j = choose|j: int| 0 <= j < ks.len() && ks[j] == n;
                if j < ks.len() - 1 {
                    assert(ks.drop_last()[j] == n);
                }
            }
        }
        if ks.drop_last().contains(n) {
            let j = choose|j: int| 0 <= j < ks.drop_last().len() && ks.drop_last()[j] == n;
            assert(ks[j] == n);
        }
    }
}

/// Node `a` at cost `ca` leaves the search's frontier before node `b` at
/// cost `cb`: the lower cost first, ties going to the greater identifier.
pub open spec fn settles_before(ca: int, a: NodeId, cb: int, b: NodeId) -> bool {
    ca < cb || (ca == cb && a > b)
}

/// The frontier entry that the search takes next: the least cost, ties going
/// to the greater node identifier.
pub open spec fn comes_before(a: (u32, NodeId), b: (u32, NodeId)) -> bool {
    settles_before(a.0 as int, a.1, b.0 as int, b.1)
}

/// What `route` costs from its `k`-th node on, where `nodes` are the nodes
/// it passes.
pub open spec fn cost_from<R: EdgeRule>(net: Network, rule: &R, route: Seq<RoadId>, nodes: Seq<NodeId>, k: int) -> nat {
    route_cost(net, rule, nodes[k], route.skip(k))
}

/// `nodes` are the nodes that `route` passes from `start`, and where a node
/// of it could be reached as cheaply by another move (one that `rule`
/// surely lets through, after a route from `start`), the node the route
/// comes from leaves the search's frontier before the node of that move,
/// and a road out of the same node that reaches the next node as cheaply is
/// listed after the route's: among equally cheap ways the search keeps the
/// first it found.
pub open spec fn ties_broken<R: EdgeRule>(
    net: Network,
    rule: &R,
    start: NodeId,
    route: Seq<RoadId>,
    nodes: Seq<NodeId>,
) -> bool {
    let total = route_cost(net, rule, start, route);
    &&& nodes.len() == route.len() + 1
    &&& nodes[0] == start
    &&& forall|k: int| 0 <= k < route.len() ==> net.road_map()[#[trigger] route[k]].to == nodes[k + 1]
    &&& forall|k: int, x: RoadId|
        #![trigger route[k], net.hop(nodes[k], x)]
        0 <= k < route.len() && x != route[k] && net.hop(nodes[k], x) && rule.surely_admits(
            nodes[k],
            x,
            net.road_map()[x],
        ) && net.road_map()[x].to == nodes[k + 1] && rule.cost(nodes[k], x, net.road_map()[x]) == rule.cost(
            nodes[k],
            route[k],
            net.road_map()[route[k]],
        ) ==> listed_before(net, nodes[k], route[k], x)
    &&& forall|k: int, u: NodeId, x: RoadId, p: Seq<RoadId>|
        #![trigger nodes[k + 1], net.leads_to(start, u, p, surely_pred(net, rule)), net.hop(u, x)]
        0 <= k < route.len() && net.leads_to(start, u, p, surely_pred(net, rule)) && net.hop(u, x)
            && rule.surely_admits(u, x, net.road_map()[x]) && net.road_map()[x].to == nodes[k + 1]
            && route_cost(net, rule, start, p) + rule.cost(u, x, net.road_map()[x]) == total - cost_from(
            net,
            rule,
            route,
            nodes,
            k + 1,
        ) ==> u == nodes[k] || settles_before(
            total - cost_from(net, rule, route, nodes, k),
            nodes[k],
            route_cost(net, rule, start, p) as int,
            u,
        )
}

/// A route that `rule` surely lets through, from a settled node to an
/// unsettled one, reaches an unsettled node whose best known cost is no
/// more than the cost of getting there: the last node itself, or one whose
/// cost is below it. Else the route costs the largest `u32` or more.
pub proof fn lemma_first_unsettled<R: EdgeRule>(
    net: Network,
    rule: &R,
    best: Map<NodeId, u32>,
    done: Set<NodeId>,
    x: NodeId,
    y: NodeId,
    route: Seq<RoadId>,
    acc: nat,
)
    requires
        net.leads_to(x, y, route, surely_pred(net, rule)),
        done.contains(x),
        best.contains_key(x),
        best[x] <= acc,
        !done.contains(y),
        settled_closed(net, rule, best, done),
    ensures
        acc + route_cost(net, rule, x, route) >= u32::MAX || exists|w: NodeId|
            #[trigger] best.contains_key(w) && !done.contains(w) && best[w] <= acc + route_cost(
                net,
                rule,
                x,
                route,
            ) && (w == y || best[w] < acc + route_cost(net, rule, x, route)),
    decreases route.len(),
{
    let r = route[0];
    let e = rule.cost(x, r, net.road_map()[r]);
    let z = net.road_map()[r].to;
    let rest = route.drop_first();
    rule.lemma_cost_positive(x, r, net.road_map()[r]);
    assert(done.contains(x) && net.hop(x, r));
    if best[x] + e < u32::MAX {
        if done.contains(z) {
            lemma_first_unsettled(net, rule, best, done, z, y, rest, acc + e);
        } else {
            assert(best.contains_key(z));
            if z != y {
                assert(rest.len() > 0);
                rule.lemma_cost_positive(z, rest[0], net.road_map()[rest[0]]);
            }
        }
    }
}

/// Every settled node leaves the frontier before every node still waiting
/// on it.
pub open spec fn settled_first(best: Map<NodeId, u32>, done: Set<NodeId>) -> bool {
    forall|s: NodeId, v: NodeId|
        #![trigger done.contains(s), best[v]]
        done.contains(s) && best.contains_key(v) && !done.contains(v) ==> settles_before(
            best[s] as int,
            s,
            best[v] as int,
            v,
        )
}

/// No route that `rule` surely lets through reaches a settled node for
/// less than its best known cost.
pub open spec fn settled_optimal<R: EdgeRule>(
    net: Network,
    rule: &R,
    start: NodeId,
    best: Map<NodeId, u32>,
    done: Set<NodeId>,
) -> bool {
    forall|u: NodeId, p: Seq<RoadId>|
        #![trigger done.contains(u), net.leads_to(start, u, p, surely_pred(net, rule))]
        done.contains(u) && net.leads_to(start, u, p, surely_pred(net, rule)) ==> best[u] <= route_cost(
            net,
            rule,
            start,
            p,
        )
}

/// Road `r` is listed before every listing of road `x` among the roads
/// out of node `n`.
pub open spec fn listed_before(net: Network, n: NodeId, r: RoadId, x: RoadId) -> bool {
    let roads = net.node_map()[n].outbound_roads@;
    exists|i: int|
        0 <= i < roads.len() && roads[i] == r && forall|j: int| 0 <= j < roads.len() && #[trigger] roads[j] == x ==> i < j
}

/// Where node `v` was last improved from node `q` by road `r`, every other
/// road out of `q` that reaches `v` as cheaply, by a move that `rule` surely
/// lets through, is listed after `r`.
pub open spec fn first_road_kept<R: EdgeRule>(
    net: Network,
    rule: &R,
    best: Map<NodeId, u32>,
    came: Map<NodeId, (NodeId, RoadId)>,
) -> bool {
    forall|v: NodeId, x: RoadId|
        #![trigger came[v], net.hop(came[v].0, x)]
        came.contains_key(v) && x != came[v].1 && net.hop(came[v].0, x) && rule.surely_admits(
            came[v].0,
            x,
            net.road_map()[x],
        ) && net.road_map()[x].to == v && best[came[v].0] + rule.cost(came[v].0, x, net.road_map()[x])
            == best[v] ==> listed_before(net, came[v].0, came[v].1, x)
}

/// Where node `v` was last improved from node `q`, every other settled node
/// that reaches `v` as cheaply by a move that `rule` surely lets through
/// left the frontier after `q`.
pub open spec fn first_kept<R: EdgeRule>(
    net: Network,
    rule: &R,
    best: Map<NodeId, u32>,
    came: Map<NodeId, (NodeId, RoadId)>,
    done: Set<NodeId>,
) -> bool {
    forall|v: NodeId, w: NodeId, x: RoadId|
        #![trigger came[v], done.contains(w), net.hop(w, x)]
        came.contains_key(v) && done.contains(w) && w != came[v].0 && net.hop(w, x) && rule.surely_admits(
            w,
            x,
            net.road_map()[x],
        ) && net.road_map()[x].to == v && best[w] + rule.cost(w, x, net.road_map()[x]) == best[v]
            ==> settles_before(best[came[v].0] as int, came[v].0, best[w] as int, w)
}

/// What a route read back from the search's links costs from each of its
/// nodes on: the goal's best cost less the node's.
proof fn lemma_cost_from_links<R: EdgeRule>(
    net: Network,
    rule: &R,
    goal: NodeId,
    route: Seq<RoadId>,
    nodes: Seq<NodeId>,
    best: Map<NodeId, u32>,
    came: Map<NodeId, (NodeId, RoadId)>,
    k: int,
)
    requires
        0 <= k <= route.len(),
        nodes.len() == route.len() + 1,
        nodes[route.len() as int] == goal,
        best.contains_key(goal),
        forall|i: int|
            0 <= i < route.len() ==> came.contains_key(#[trigger] nodes[i + 1]) && came[nodes[i + 1]] == (
                nodes[i],
                route[i],
            ),
        forall|v: NodeId|
            #![trigger came[v]]
            came.contains_key(v) ==> {
                let (u, r) = came[v];
                &&& net.road_map()[r].to == v
                &&& best.contains_key(u)
                &&& best.contains_key(v)
                &&& best[u] + rule.cost(u, r, net.road_map()[r]) == best[v]
            },
    ensures
        best.contains_key(nodes[k]),
        cost_from(net, rule, route, nodes, k) + best[nodes[k]] == best[goal],
    decreases route.len() - k,
{
    if k < route.len() {
        lemma_cost_from_links(net, rule, goal, route, nodes, best, came, k + 1);
        let rest = route.skip(k);
        assert(rest.drop_first() =~= route.skip(k + 1));
        assert(rest[0] == route[k]);
        assert(came.contains_key(nodes[k + 1]));
        assert(came[nodes[k + 1]] == (nodes[k], route[k]));
    } else {
        assert(route.skip(k).len() == 0);
    }
}

/// The route read back from the search's links keeps, at each node, the
/// first of the equally cheap ways the search found.
proof fn lemma_links_break_ties<R: EdgeRule>(
    net: Network,
    rule: &R,
    start: NodeId,
    goal: NodeId,
    route: Seq<RoadId>,
    nodes: Seq<NodeId>,
    best: Map<NodeId, u32>,
    came: Map<NodeId, (NodeId, RoadId)>,
    done: Set<NodeId>,
)
    requires
        nodes.len() == route.len() + 1,
        nodes[0] == start,
        nodes[route.len() as int] == goal,
        best.contains_key(start),
        best[start] == 0,
        best.contains_key(goal),
        forall|v: NodeId| #[trigger] best.contains_key(v) ==> best[v] < u32::MAX,
        forall|i: int|
            0 <= i < route.len() ==> came.contains_key(#[trigger] nodes[i + 1]) && came[nodes[i + 1]] == (
                nodes[i],
                route[i],
            ),
        forall|v: NodeId|
            #![trigger came[v]]
            came.contains_key(v) ==> {
                let (u, r) = came[v];
                &&& net.road_map()[r].to == v
                &&& best.contains_key(u)
                &&& best.contains_key(v)
                &&& best[u] + rule.cost(u, r, net.road_map()[r]) == best[v]
                &&& done.contains(u)
            },
        forall|u: NodeId| #[trigger] done.contains(u) ==> best.contains_key(u),
        settled_closed(net, rule, best, done),
        settled_first(best, done),
        settled_optimal(net, rule, start, best, done),
        first_kept(net, rule, best, came, done),
        first_road_kept(net, rule, best, came),
    ensures
        ties_broken(net, rule, start, route, nodes),
{
    let total = route_cost(net, rule, start, route);
    lemma_cost_from_links(net, rule, goal, route, nodes, best, came, 0);
    assert(route.skip(0) =~= route);
    assert(total == best[goal]);
    assert forall|k: int| 0 <= k < route.len() implies net.road_map()[#[trigger] route[k]].to == nodes[k + 1] by {
        assert(came.contains_key(nodes[k + 1]));
    }
    assert forall|k: int, x: RoadId|
        #![trigger route[k], net.hop(nodes[k], x)]
        0 <= k < route.len() && x != route[k] && net.hop(nodes[k], x) && rule.surely_admits(
            nodes[k],
            x,
            net.road_map()[x],
        ) && net.road_map()[x].to == nodes[k + 1] && rule.cost(nodes[k], x, net.road_map()[x]) == rule.cost(
            nodes[k],
            route[k],
            net.road_map()[route[k]],
        ) implies listed_before(net, nodes[k], route[k], x) by {
        let v = nodes[k + 1];
        assert(came.contains_key(v));
        assert(came[v] == (nodes[k], route[k]));
        assert(net.hop(came[v].0, x));
    }
    assert forall|k: int, u: NodeId, x: RoadId, p: Seq<RoadId>|
        #![trigger nodes[k + 1], net.leads_to(start, u, p, surely_pred(net, rule)), net.hop(u, x)]
        0 <= k < route.len() && net.leads_to(start, u, p, surely_pred(net, rule)) && net.hop(u, x)
            && rule.surely_admits(u, x, net.road_map()[x]) && net.road_map()[x].to == nodes[k + 1]
            && route_cost(net, rule, start, p) + rule.cost(u, x, net.road_map()[x]) == total - cost_from(
            net,
            rule,
            route,
            nodes,
            k + 1,
        ) implies u == nodes[k] || settles_before(
            total - cost_from(net, rule, route, nodes, k),
            nodes[k],
            route_cost(net, rule, start, p) as int,
            u,
        ) by {
        let v = nodes[k + 1];
        let nk = nodes[k];
        let cp = route_cost(net, rule, start, p);
        let e = rule.cost(u, x, net.road_map()[x]);
        lemma_cost_from_links(net, rule, goal, route, nodes, best, came, k);
        lemma_cost_from_links(net, rule, goal, route, nodes, best, came, k + 1);
        assert(came.contains_key(v));
        assert(came[v] == (nk, route[k]));
        assert(done.contains(nk));
        assert(came.contains_key(nodes[1]));
        assert(done.contains(start));
        assert(cp + e == best[v]);
        assert(best[v] < u32::MAX);
        if u != nk {
            if done.contains(u) {
                assert(best[u] <= cp);
                assert(done.contains(u) && net.hop(u, x));
                assert(best[v] <= best[u] + e);
                assert(best[u] == cp);
            } else {
                lemma_first_unsettled(net, rule, best, done, start, u, p, 0);
                let w = choose|w: NodeId|
                    #[trigger] best.contains_key(w) && !done.contains(w) && best[w] <= cp && (w == u || best[w] < cp);
                assert(settles_before(best[nk] as int, nk, best[w] as int, w));
            }
        }
    }
}

/// Two rules that price every move alike price every route alike.
pub proof fn lemma_route_cost_same<R: EdgeRule>(net: Network, a: &R, b: &R, start: NodeId, route: Seq<RoadId>)
    requires
        forall|f: NodeId, x: RoadId, rd: RoadSegment| #[trigger] a.cost(f, x, rd) == b.cost(f, x, rd),
    ensures
        route_cost(net, a, start, route) == route_cost(net, b, start, route),
    decreases route.len(),
{
    if route.len() > 0 {
        lemma_route_cost_same(net, a, b, net.road_map()[route[0]].to, route.drop_first());
        assert(a.cost(start, route[0], net.road_map()[route[0]]) == b.cost(start, route[0], net.road_map()[route[0]]));
    }
}

/// Two rules that let the same moves through and price them alike keep the
/// same route among equally cheap ones.
pub proof fn lemma_ties_same_rules<R: EdgeRule>(
    net: Network,
    a: &R,
    b: &R,
    start: NodeId,
    route: Seq<RoadId>,
    nodes: Seq<NodeId>,
)
    requires
        ties_broken(net, a, start, route, nodes),
        forall|f: NodeId, x: RoadId, rd: RoadSegment| #[trigger] a.cost(f, x, rd) == b.cost(f, x, rd),
        forall|f: NodeId, x: RoadId, rd: RoadSegment| #[trigger] a.surely_admits(f, x, rd) == b.surely_admits(f, x, rd),
    ensures
        ties_broken(net, b, start, route, nodes),
{
    assert(surely_pred(net, a) =~= surely_pred(net, b));
    lemma_route_cost_same(net, a, b, start, route);
    assert forall|k: int| 0 <= k <= route.len() implies #[trigger] cost_from(net, b, route, nodes, k) == cost_from(
        net,
        a,
        route,
        nodes,
        k,
    ) by {
        lemma_route_cost_same(net, a, b, nodes[k], route.skip(k));
    }
    assert forall|k: int, x: RoadId|
        #![trigger route[k], net.hop(nodes[k], x)]
        0 <= k < route.len() && x != route[k] && net.hop(nodes[k], x) && b.surely_admits(
            nodes[k],
            x,
            net.road_map()[x],
        ) && net.road_map()[x].to == nodes[k + 1] && b.cost(nodes[k], x, net.road_map()[x]) == b.cost(
            nodes[k],
            route[k],
            net.road_map()[route[k]],
        ) implies listed_before(net, nodes[k], route[k], x) by {
        assert(a.surely_admits(nodes[k], x, net.road_map()[x]) == b.surely_admits(nodes[k], x, net.road_map()[x]));
        assert(a.cost(nodes[k], x, net.road_map()[x]) == b.cost(nodes[k], x, net.road_map()[x]));
        assert(a.cost(nodes[k], route[k], net.road_map()[route[k]]) == b.cost(nodes[k], route[k], net.road_map()[route[k]]));
    }
    assert forall|k: int, u: NodeId, x: RoadId, p: Seq<RoadId>|
        #![trigger nodes[k + 1], net.leads_to(start, u, p, surely_pred(net, b)), net.hop(u, x)]
        0 <= k < route.len() && net.leads_to(start, u, p, surely_pred(net, b)) && net.hop(u, x)
            && b.surely_admits(u, x, net.road_map()[x]) && net.road_map()[x].to == nodes[k + 1]
            && route_cost(net, b, start, p) + b.cost(u, x, net.road_map()[x]) == route_cost(net, b, start, route)
            - cost_from(net, b, route, nodes, k + 1) implies u == nodes[k] || settles_before(
            route_cost(net, b, start, route) - cost_from(net, b, route, nodes, k),
            nodes[k],
            route_cost(net, b, start, p) as int,
            u,
        ) by {
        lemma_route_cost_same(net, a, b, start, p);
        assert(a.cost(u, x, net.road_map()[x]) == b.cost(u, x, net.road_map()[x]));
        assert(a.surely_admits(u, x, net.road_map()[x]) == b.surely_admits(u, x, net.road_map()[x]));
        assert(cost_from(net, b, route, nodes, k) == cost_from(net, a, route, nodes, k));
        assert(cost_from(net, b, route, nodes, k + 1) == cost_from(net, a, route, nodes, k + 1));
    }
}

/// Searches for the cheapest route from `start` to `goal` that `rule` admits.
/// The route found leaves each node by a road on its outbound list, and no
/// route that the rule surely lets through costs less; among equally cheap
/// ways into a node it keeps the one from the node that left the frontier
/// first (`ties_broken`). Where no route is found, every such route costs
/// the largest `u32` or more.
#[verifier::spinoff_prover]
pub fn search_route<R: EdgeRule>(net: &Network, rule: &R, start: NodeId, goal: NodeId) -> (route:
    Option<Vec<RoadId>>)
    requires
        net.wf(),
        rule.ready(),
    ensures
        start == goal ==> (route matches Some(r) && r@.len() == 0),
        route matches Some(r) ==> net.leads_to(
            start,
            goal,
            r@,
            admits_pred(*net, rule),
        ),
        route matches Some(r) ==> forall|other: Seq<RoadId>|
            #[trigger] net.leads_to(start, goal, other, surely_pred(*net, rule))
                ==> route_cost(*net, rule, start, r@) <= route_cost(*net, rule, start, other),
        route is None ==> forall|other: Seq<RoadId>|
            #[trigger] net.leads_to(start, goal, other, surely_pred(*net, rule))
                ==> route_cost(*net, rule, start, other) >= u32::MAX,
        route matches Some(r) ==> exists|nodes: Seq<NodeId>| #[trigger] ties_broken(*net, rule, start, r@, nodes),
{
    if start == goal {
        let route: Vec<RoadId> = Vec::new();
        proof {
            assert(ties_broken(*net, rule, start, route@, seq![start]));
        }
        return Some(route);
    }
    let ghost admits = admits_pred(*net, rule);
    let ghost surely = surely_pred(*net, rule);
    let ghost ks: Seq<NodeId> = seq![start] + net.road_seq().map_values(|r: RoadSegment| r.to);
    proof {
        net.lemma_views();
    }
    let mut frontier: Vec<(u32, NodeId)> = Vec::new();
    let mut best: IdMap<u32> = IdMap::new();
    let mut came_from: IdMap<(NodeId, RoadId)> = IdMap::new();
    frontier.push((0, start));
    best.insert(start, 0);
    let ghost mut done: Set<NodeId> = Set::empty();
    proof {
        assert(frontier@[0] == (0u32, start));
        assert(frontier@.contains((best@[start], start)));
    }

    loop
        invariant_except_break
            forall|v: NodeId|
                #[trigger] best@.contains_key(v) && !done.contains(v) ==> frontier@.contains((best@[v], v)),
            forall|u: NodeId, i: int|
                #![trigger done.contains(u), frontier@[i]]
                done.contains(u) && 0 <= i < frontier@.len() ==> best@[u] <= frontier@[i].0,
        invariant
            net.wf(),
            rule.ready(),
            start != goal,
            admits == (admits_pred(*net, rule)),
            surely == (surely_pred(*net, rule)),
            ks == seq![start] + net.road_seq().map_values(|r: RoadSegment| r.to),
            best.wf(),
            came_from.wf(),
            best@.contains_key(start),
            best@[start] == 0,
            forall|v: NodeId| #[trigger] best@.contains_key(v) ==> best@[v] < u32::MAX,
            forall|v: NodeId|
                #[trigger] best@.contains_key(v) && v != start ==> came_from@.contains_key(v),
            forall|i: int|
                0 <= i < frontier@.len() ==> best@.contains_key(#[trigger] frontier@[i].1)
                    && best@[frontier@[i].1] <= frontier@[i].0,
            forall|v: NodeId|
                #![trigger came_from@[v]]
                came_from@.contains_key(v) ==> {
                    let (u, r) = came_from@[v];
                    &&& net.hop(u, r)
                    &&& admits(u, r)
                    &&& net.road_map()[r].to == v
                    &&& best@.contains_key(u)
                    &&& best@.contains_key(v)
                    &&& best@[u] < best@[v]
                    &&& best@[u] + rule.cost(u, r, net.road_map()[r]) == best@[v]
                    &&& done.contains(u)
                },
            forall|u: NodeId| #[trigger] done.contains(u) ==> best@.contains_key(u),
            !done.contains(goal),
            settled_closed(*net, rule, best@, done),
            settled_first(best@, done),
            settled_optimal(*net, rule, start, best@, done),
            first_kept(*net, rule, best@, came_from@, done),
            first_road_kept(*net, rule, best@, came_from@),
        ensures
            best.wf(),
            came_from.wf(),
            best@.contains_key(start),
            best@[start] == 0,
            forall|v: NodeId|
                #[trigger] best@.contains_key(v) && v != start ==> came_from@.contains_key(v),
            forall|v: NodeId|
                #![trigger came_from@[v]]
                came_from@.contains_key(v) ==> {
                    let (u, r) = came_from@[v];
                    &&& net.hop(u, r)
                    &&& admits(u, r)
                    &&& net.road_map()[r].to == v
                    &&& best@.contains_key(u)
                    &&& best@.contains_key(v)
                    &&& best@[u] < best@[v]
                    &&& best@[u] + rule.cost(u, r, net.road_map()[r]) == best@[v]
                    &&& done.contains(u)
                },
            forall|v: NodeId| #[trigger] best@.contains_key(v) ==> best@[v] < u32::MAX,
            forall|u: NodeId| #[trigger] done.contains(u) ==> best@.contains_key(u),
            settled_closed(*net, rule, best@, done),
            settled_first(best@, done),
            settled_optimal(*net, rule, start, best@, done),
            first_kept(*net, rule, best@, came_from@, done),
            first_road_kept(*net, rule, best@, came_from@),
            best@.contains_key(goal) ==> forall|other: Seq<RoadId>|
                #[trigger] net.leads_to(start, goal, other, surely)
                    ==> best@[goal] <= route_cost(*net, rule, start, other),
            !best@.contains_key(goal) ==> forall|other: Seq<RoadId>|
                #[trigger] net.leads_to(start, goal, other, surely)
                    ==> route_cost(*net, rule, start, other) >= u32::MAX,
        decreases 2 * potential(best@, ks) + frontier@.len(),
    {
        if frontier.len() == 0 {
            proof {
                assert(!best@.contains_key(goal)) by {
                    if best@.contains_key(goal) {
                        assert(frontier@.contains((best@[goal], goal)));
                    }
                }
                assert forall|other: Seq<RoadId>|
                    #[trigger] net.leads_to(start, goal, other, surely)
                        implies route_cost(*net, rule, start, other) >= u32::MAX by {
                    if done.contains(start) {
                        lemma_reaches_unsettled(*net, rule, best@, done, start, goal, other, 0);
                        if route_cost(*net, rule, start, other) < u32::MAX {
                            let w = choose|w: NodeId|
                                #[trigger] best@.contains_key(w) && !done.contains(w) && best@[w]
                                    <= route_cost(*net, rule, start, other);
                            assert(frontier@.contains((best@[w], w)));
                        }
                    } else {
                        assert(frontier@.contains((best@[start], start)));
                    }
                }
            }
            break;
        }
        let ghost m0 = 2 * potential(best@, ks) + frontier@.len();
        let mut bi: usize = 0;
        let mut i: usize = 1;
        while i < frontier.len()
            invariant
                1 <= i <= frontier@.len(),
                bi < i,
                forall|k: int| 0 <= k < i ==> frontier@[bi as int].0 <= (#[trigger] frontier@[k]).0,
                forall|k: int| 0 <= k < i ==> !comes_before(#[trigger] frontier@[k], frontier@[bi as int]),
            decreases frontier@.len() - i,
        {
            let a = frontier[i];
            let b = frontier[bi];
            if a.0 < b.0 || (a.0 == b.0 && a.1 > b.1) {
                bi = i;
            }
            i = i + 1;
        }
        let ghost f0 = frontier@;
        let (cost, node_id) = frontier.remove(bi);
        proof {
            assert(f0[bi as int] == (cost, node_id));
            assert forall|k: int| 0 <= k < frontier@.len() implies #[trigger] frontier@[k] == if k < bi {
                f0[k]
            } else {
                f0[k + 1]
            } by {}
        }
        if node_id == goal {
            proof {
                assert(best@[goal] <= cost);
                assert(f0.contains((best@[goal], goal)));
                assert(cost <= best@[goal]) by {
                    let k = choose|k: int| 0 <= k < f0.len() && f0[k] == (best@[goal], goal);
                    assert(f0[bi as int].0 <= f0[k].0);
                }
                assert forall|other: Seq<RoadId>|
                    #[trigger] net.leads_to(start, goal, other, surely)
                        implies best@[goal] <= route_cost(*net, rule, start, other) by {
                    if done.contains(start) {
                        lemma_reaches_unsettled(*net, rule, best@, done, start, goal, other, 0);
                        if route_cost(*net, rule, start, other) < u32::MAX {
                            let w = choose|w: NodeId|
                                #[trigger] best@.contains_key(w) && !done.contains(w) && best@[w]
                                    <= route_cost(*net, rule, start, other);
                            assert(f0.contains((best@[w], w)));
                            let k = choose|k: int| 0 <= k < f0.len() && f0[k] == (best@[w], w);
                            assert(f0[bi as int].0 <= f0[k].0);
                        }
                    } else {
                        assert(f0.contains((best@[start], start)));
                        let k = choose|k: int| 0 <= k < f0.len() && f0[k] == (best@[start], start);
                        assert(f0[bi as int].0 <= f0[k].0);
                    }
                }
            }
            break;
        }
        let known = match best.get(node_id) {
            Some(c) => *c,
            None => u32::MAX,
        };
        if cost > known {
            proof {
                assert forall|v: NodeId|
                    #[trigger] best@.contains_key(v) && !done.contains(v) implies frontier@.contains((best@[v], v)) by {
                    let k = choose|k: int| 0 <= k < f0.len() && f0[k] == (best@[v], v);
                    if k < bi {
                        assert(frontier@[k] == f0[k]);
                    } else {
                        assert(k != bi);
                        assert(frontier@[k - 1] == f0[k]);
                    }
                }
                assert forall|u: NodeId, i: int|
                    #![trigger done.contains(u), frontier@[i]]
                    done.contains(u) && 0 <= i < frontier@.len() implies best@[u] <= frontier@[i].0 by {
                    if i < bi {
                        assert(frontier@[i] == f0[i]);
                    } else {
                        assert(frontier@[i] == f0[i + 1]);
                    }
                }
            }
            continue;
        }
        proof {
            assert forall|u: NodeId| done.contains(u) implies #[trigger] best@[u] <= cost by {
                assert(f0[bi as int] == (cost, node_id));
            }
            assert forall|v: NodeId|
                #[trigger] best@.contains_key(v) && !done.contains(v) && v != node_id implies frontier@.contains((best@[v], v)) by {
                let k = choose|k: int| 0 <= k < f0.len() && f0[k] == (best@[v], v);
                if k < bi {
                    assert(frontier@[k] == f0[k]);
                } else {
                    assert(k != bi);
                    assert(frontier@[k - 1] == f0[k]);
                }
            }
            assert forall|i: int| 0 <= i < frontier@.len() implies cost <= (#[trigger] frontier@[i]).0 by {
                if i < bi {
                    assert(frontier@[i] == f0[i]);
                } else {
                    assert(frontier@[i] == f0[i + 1]);
                }
            }
        }
        let ghost old_done = done;
        proof {
            assert(best@[node_id] == cost) by {
                assert(f0[bi as int] == (cost, node_id));
            }
            assert forall|p: Seq<RoadId>| #[trigger] net.leads_to(start, node_id, p, surely) implies best@[node_id]
                <= route_cost(*net, rule, start, p) by {
                if done.contains(node_id) {
                } else if done.contains(start) {
                    lemma_reaches_unsettled(*net, rule, best@, done, start, node_id, p, 0);
                    if route_cost(*net, rule, start, p) < u32::MAX {
                        let w = choose|w: NodeId|
                            #[trigger] best@.contains_key(w) && !done.contains(w) && best@[w]
                                <= route_cost(*net, rule, start, p);
                        assert(f0.contains((best@[w], w)));
                        let k = choose|k: int| 0 <= k < f0.len() && f0[k] == (best@[w], w);
                        assert(f0[bi as int].0 <= f0[k].0);
                    }
                } else {
                    assert(f0.contains((best@[start], start)));
                    let k = choose|k: int| 0 <= k < f0.len() && f0[k] == (best@[start], start);
                    assert(f0[bi as int].0 <= f0[k].0);
                }
            }
            done = done.insert(node_id);
            assert forall|u: NodeId, p: Seq<RoadId>|
                #![trigger done.contains(u), net.leads_to(start, u, p, surely_pred(*net, rule))]
                done.contains(u) && net.leads_to(start, u, p, surely_pred(*net, rule)) implies best@[u]
                <= route_cost(*net, rule, start, p) by {
                if u != node_id {
                    assert(old_done.contains(u));
                }
            }
        }
        let node = match net.node(node_id) {
            Some(n) => n,
            None => {
                proof {
                    assert forall|u: NodeId, r: RoadId|
                        #![trigger done.contains(u), net.hop(u, r)]
                        done.contains(u) && net.hop(u, r) && rule.surely_admits(u, r, net.road_map()[r]) implies {
                            let e = rule.cost(u, r, net.road_map()[r]);
                            let w = net.road_map()[r].to;
                            ||| best@[u] + e >= u32::MAX
                            ||| (best@.contains_key(w) && best@[w] <= best@[u] + e)
                        } by {
                        assert(old_done.contains(u) && net.hop(u, r));
                    }
                    assert forall|u: NodeId, i: int|
                        #![trigger done.contains(u), frontier@[i]]
                        done.contains(u) && 0 <= i < frontier@.len() implies best@[u] <= frontier@[i].0 by {
                        if u != node_id {
                            assert(best@[u] <= cost);
                        }
                    }
                }
                continue;
            },
        };
        let mut j: usize = 0;
        while j < node.outbound_roads.len()
            invariant
                net.wf(),
                rule.ready(),
                admits == (admits_pred(*net, rule)),
                surely == (surely_pred(*net, rule)),
                ks == seq![start] + net.road_seq().map_values(|r: RoadSegment| r.to),
                net.node_map().contains_key(node_id),
                *node == net.node_map()[node_id],
                j <= node.outbound_roads@.len(),
                best.wf(),
                came_from.wf(),
                best@.contains_key(start),
                best@[start] == 0,
                start != goal,
                best@.contains_key(node_id),
                best@[node_id] == cost,
                done == old_done.insert(node_id),
                forall|v: NodeId| #[trigger] best@.contains_key(v) ==> best@[v] < u32::MAX,
                forall|v: NodeId|
                    #[trigger] best@.contains_key(v) && v != start ==> came_from@.contains_key(v),
                forall|i: int|
                    0 <= i < frontier@.len() ==> best@.contains_key(#[trigger] frontier@[i].1)
                        && best@[frontier@[i].1] <= frontier@[i].0,
                forall|v: NodeId|
                    #![trigger came_from@[v]]
                    came_from@.contains_key(v) ==> {
                        let (u, r) = came_from@[v];
                        &&& net.hop(u, r)
                        &&& admits(u, r)
                        &&& net.road_map()[r].to == v
                        &&& best@.contains_key(u)
                        &&& best@.contains_key(v)
                        &&& best@[u] < best@[v]
                        &&& best@[u] + rule.cost(u, r, net.road_map()[r]) == best@[v]
                        &&& done.contains(u)
                    },
                forall|u: NodeId| #[trigger] done.contains(u) ==> best@.contains_key(u),
                forall|u: NodeId| #[trigger] done.contains(u) ==> best@[u] <= cost,
                !done.contains(goal),
                forall|v: NodeId|
                    #[trigger] best@.contains_key(v) && !done.contains(v) ==> frontier@.contains((best@[v], v)),
                forall|i: int| 0 <= i < frontier@.len() ==> cost <= (#[trigger] frontier@[i]).0,
                settled_closed(*net, rule, best@, old_done),
                settled_first(best@, done),
                settled_optimal(*net, rule, start, best@, done),
                first_kept(*net, rule, best@, came_from@, done),
                first_road_kept(*net, rule, best@, came_from@),
                forall|k: int|
                    0 <= k < j ==> {
                        let r = #[trigger] node.outbound_roads@[k];
                        net.hop(node_id, r) && rule.surely_admits(node_id, r, net.road_map()[r]) ==> {
                            let e = rule.cost(node_id, r, net.road_map()[r]);
                            let w = net.road_map()[r].to;
                            ||| cost + e >= u32::MAX
                            ||| (best@.contains_key(w) && best@[w] <= cost + e)
                        }
                    },
                2 * potential(best@, ks) + frontier@.len() < m0,
            decreases node.outbound_roads@.len() - j,
        {
            let road_id = node.outbound_roads[j];
            j = j + 1;
            let road = match net.road(road_id) {
                Some(r) => r,
                None => {
                    continue;
                },
            };
            let c = match rule.edge_cost(node_id, road_id, road) {
                Some(c) => c,
                None => {
                    continue;
                },
            };
            let next_cost = cost.saturating_add(c);
            let to = road.to;
            let current = match best.get(to) {
                Some(b) => *b,
                None => u32::MAX,
            };
            if next_cost < current {
                proof {
                    net.lemma_views();
                    assert(net.road_ids().contains(road_id));
                    let k = choose|k: int|
                        0 <= k < net.road_ids().len() && net.road_ids()[k] == road_id;
                    assert(net.road_seq()[k].to == to);
                    assert(ks[k + 1] == to);
                    lemma_potential_improves(best@, ks, to, next_cost);
                    assert(net.hop(node_id, road_id)) by {
                        assert(node.outbound_roads@[j - 1] == road_id);
                    }
                    assert(!done.contains(to)) by {
                        if done.contains(to) {
                            assert(best@[to] <= cost);
                        }
                    }
                }
                let ghost old_best = best@;
                let ghost old_came = came_from@;
                let ghost old_frontier = frontier@;
                best.insert(to, next_cost);
                came_from.insert(to, (node_id, road.id));
                frontier.push((next_cost, to));
                proof {
                    assert forall|i: int|
                        0 <= i < frontier@.len() implies best@.contains_key(
                            #[trigger] frontier@[i].1,
                        ) && best@[frontier@[i].1] <= frontier@[i].0 by {
                        if i < frontier@.len() - 1 {
                            assert(old_best.contains_key(frontier@[i].1));
                        }
                    }
                    assert forall|v: NodeId|
                        #[trigger] best@.contains_key(v) && !done.contains(v) implies frontier@.contains((best@[v], v)) by {
                        if v == to {
                            assert(frontier@[frontier@.len() - 1] == (next_cost, to));
                        } else {
                            assert(old_frontier.contains((old_best[v], v)));
                            let k = choose|k: int| 0 <= k < old_frontier.len() && old_frontier[k] == (old_best[v], v);
                            assert(frontier@[k] == old_frontier[k]);
                        }
                    }
                    assert forall|i: int| 0 <= i < frontier@.len() implies cost <= (#[trigger] frontier@[i]).0 by {
                        if i < frontier@.len() - 1 {
                            assert(frontier@[i] == old_frontier[i]);
                        }
                    }
                    assert forall|v: NodeId|
                        #![trigger came_from@[v]]
                        came_from@.contains_key(v) implies {
                            let (u, r) = came_from@[v];
                            &&& net.hop(u, r)
                            &&& admits(u, r)
                            &&& net.road_map()[r].to == v
                            &&& best@.contains_key(u)
                            &&& best@.contains_key(v)
                            &&& best@[u] < best@[v]
                            &&& best@[u] + rule.cost(u, r, net.road_map()[r]) == best@[v]
                            &&& done.contains(u)
                        } by {
                        if v != to {
                            assert(old_came.contains_key(v));
                            assert(old_came[v] == came_from@[v]);
                        }
                    }
                    assert forall|u: NodeId, r: RoadId|
                        #![trigger old_done.contains(u), net.hop(u, r)]
                        old_done.contains(u) && net.hop(u, r) && rule.surely_admits(u, r, net.road_map()[r]) implies {
                            let e = rule.cost(u, r, net.road_map()[r]);
                            let w = net.road_map()[r].to;
                            ||| best@[u] + e >= u32::MAX
                            ||| (best@.contains_key(w) && best@[w] <= best@[u] + e)
                        } by {
                        assert(old_done.contains(u) && net.hop(u, r));
                        assert(u != to);
                    }
                    assert forall|k: int|
                        0 <= k < j implies {
                            let r = #[trigger] node.outbound_roads@[k];
                            net.hop(node_id, r) && rule.surely_admits(node_id, r, net.road_map()[r]) ==> {
                                let e = rule.cost(node_id, r, net.road_map()[r]);
                                let w = net.road_map()[r].to;
                                ||| cost + e >= u32::MAX
                                ||| (best@.contains_key(w) && best@[w] <= cost + e)
                            }
                        } by {
                        let r = node.outbound_roads@[k];
                        if k < j - 1 && net.hop(node_id, r) && rule.surely_admits(node_id, r, net.road_map()[r]) {
                            let w = net.road_map()[r].to;
                            if w == to && !(cost + rule.cost(node_id, r, net.road_map()[r]) >= u32::MAX) {
                                assert(old_best.contains_key(w));
                            }
                        }
                    }
                }
            }
        }
        proof {
            assert forall|u: NodeId, r: RoadId|
                #![trigger done.contains(u), net.hop(u, r)]
                done.contains(u) && net.hop(u, r) && rule.surely_admits(u, r, net.road_map()[r]) implies {
                    let e = rule.cost(u, r, net.road_map()[r]);
                    let w = net.road_map()[r].to;
                    ||| best@[u] + e >= u32::MAX
                    ||| (best@.contains_key(w) && best@[w] <= best@[u] + e)
                } by {
                if u == node_id {
                    let k = choose|k: int| 0 <= k < node.outbound_roads@.len() && node.outbound_roads@[k] == r;
                    assert(node.outbound_roads@[k] == r);
                } else {
                    assert(old_done.contains(u) && net.hop(u, r));
                }
            }
            assert forall|u: NodeId, i: int|
                #![trigger done.contains(u), frontier@[i]]
                done.contains(u) && 0 <= i < frontier@.len() implies best@[u] <= frontier@[i].0 by {
                assert(best@[u] <= cost);
            }
        }
    }
    if !best.contains_key(goal) {
        return None;
    }
    let mut route: Vec<RoadId> = Vec::new();
    let mut current = goal;
    let ghost mut nodes: Seq<NodeId> = seq![goal];
    while current != start
        invariant
            nodes.len() == route@.len() + 1,
            nodes[0] == current,
            nodes[route@.len() as int] == goal,
            forall|i: int|
                0 <= i < route@.len() ==> came_from@.contains_key(#[trigger] nodes[i + 1]) && came_from@[nodes[i + 1]]
                    == (nodes[i], route@[i]),
            start != goal,
            net.wf(),
            admits == (admits_pred(*net, rule)),
            best.wf(),
            came_from.wf(),
            best@.contains_key(goal),
            best@.contains_key(current),
            best@.contains_key(start),
            best@[start] == 0,
            forall|v: NodeId|
                #[trigger] best@.contains_key(v) && v != start ==> came_from@.contains_key(v),
            net.leads_to(current, goal, route@, admits),
            route_cost(*net, rule, current, route@) + best@[current] <= best@[goal],
            forall|v: NodeId|
                #![trigger came_from@[v]]
                came_from@.contains_key(v) ==> {
                    let (u, r) = came_from@[v];
                    &&& net.hop(u, r)
                    &&& admits(u, r)
                    &&& net.road_map()[r].to == v
                    &&& best@.contains_key(u)
                    &&& best@.contains_key(v)
                    &&& best@[u] < best@[v]
                    &&& best@[u] + rule.cost(u, r, net.road_map()[r]) <= best@[v]
                },
        decreases best@[current],
    {
        let step = match came_from.get(current) {
            Some(s) => *s,
            None => {
                proof {
                    assert(came_from@.contains_key(current));
                }
                return None;
            },
        };
        let (previous, road_id) = step;
        let ghost old_route = route@;
        route.insert(0, road_id);
        proof {
            assert(route@.drop_first() =~= old_route);
            assert(route@[0] == road_id);
            let old_nodes = nodes;
            nodes = seq![previous] + nodes;
            assert forall|i: int|
                0 <= i < route@.len() implies came_from@.contains_key(#[trigger] nodes[i + 1]) && came_from@[nodes[i + 1]]
                    == (nodes[i], route@[i]) by {
                if i > 0 {
                    assert(nodes[i + 1] == old_nodes[i]);
                    assert(nodes[i] == old_nodes[i - 1]);
                    assert(route@[i] == old_route[i - 1]);
                }
            }
        }
        current = previous;
    }
    proof {
        lemma_links_break_ties(*net, rule, start, goal, route@, nodes, best@, came_from@, done);
    }
    let found = Some(route);
    proof {
        assert(found->0@ == route@);
        assert(ties_broken(*net, rule, start, found->0@, nodes));
    }
    found
}

/// Every move is let through, at the road's travel time.
pub struct TravelTimeRule;

impl EdgeRule for TravelTimeRule {
    open spec fn ready(&self) -> bool {
        true
    }

    open spec fn admits(&self, from: NodeId, road_id: RoadId, road: RoadSegment) -> bool {
        true
    }

    open spec fn surely_admits(&self, from: NodeId, road_id: RoadId, road: RoadSegment) -> bool {
        true
    }

    open spec fn cost(&self, from: NodeId, road_id: RoadId, road: RoadSegment) -> nat {
        spec_travel_time(road) as nat
    }

    proof fn lemma_cost_positive(&self, from: NodeId, road_id: RoadId, road: RoadSegment) {
    }

    fn edge_cost(&self, from: NodeId, road_id: RoadId, road: &RoadSegment) -> (cost: Option<u32>) {
        Some(road.travel_time_seconds())
    }
}

/// The moves whose road a caller's test accepts, at the road's travel time.
pub struct FilterRule<'a, F> {
    pub allow: &'a F,
}

impl<'a, F: Fn(RoadId, &RoadSegment) -> bool> EdgeRule for FilterRule<'a, F> {
    open spec fn ready(&self) -> bool {
        forall|r: RoadId, seg: &RoadSegment| call_requires(*self.allow, (r, seg))
    }

    open spec fn admits(&self, from: NodeId, road_id: RoadId, road: RoadSegment) -> bool {
        call_ensures(*self.allow, (road_id, &road), true)
    }

    open spec fn surely_admits(&self, from: NodeId, road_id: RoadId, road: RoadSegment) -> bool {
        forall|answer: bool| call_ensures(*self.allow, (road_id, &road), answer) ==> answer
    }

    open spec fn cost(&self, from: NodeId, road_id: RoadId, road: RoadSegment) -> nat {
        spec_travel_time(road) as nat
    }

    proof fn lemma_cost_positive(&self, from: NodeId, road_id: RoadId, road: RoadSegment) {
    }

    fn edge_cost(&self, from: NodeId, road_id: RoadId, road: &RoadSegment) -> (cost: Option<u32>) {
        if (self.allow)(road_id, road) {
            Some(road.travel_time_seconds())
        } else {
            None
        }
    }
}

/// The travel time of `route` from `start`: the sum of its roads' travel
/// times.
pub open spec fn route_travel_time(net: Network, start: NodeId, route: Seq<RoadId>) -> nat
    decreases route.len(),
{
    if route.len() == 0 {
        0
    } else {
        spec_travel_time(net.road_map()[route[0]]) as nat + route_travel_time(
            net,
            net.road_map()[route[0]].to,
            route.drop_first(),
        )
    }
}

/// The roads that `allow_road` accepts whenever it is asked.
pub open spec fn always_allowed<F: Fn(RoadId, &RoadSegment) -> bool>(net: Network, allow_road: F) -> spec_fn(NodeId, RoadId) -> bool {
    |n: NodeId, x: RoadId| forall|answer: bool| call_ensures(allow_road, (x, &net.road_map()[x]), answer) ==> answer
}

/// The roads that `allow_road` can accept.
pub open spec fn maybe_allowed<F: Fn(RoadId, &RoadSegment) -> bool>(net: Network, allow_road: F) -> spec_fn(NodeId, RoadId) -> bool {
    |n: NodeId, x: RoadId| call_ensures(allow_road, (x, &net.road_map()[x]), true)
}

/// Costs by travel time are travel times.
proof fn lemma_travel_cost<R: EdgeRule>(net: Network, rule: &R, start: NodeId, route: Seq<RoadId>)
    requires
        forall|n: NodeId, x: RoadId, road: RoadSegment| #[trigger] rule.cost(n, x, road) == spec_travel_time(road) as nat,
    ensures
        route_cost(net, rule, start, route) == route_travel_time(net, start, route),
    decreases route.len(),
{
    if route.len() > 0 {
        lemma_travel_cost(net, rule, net.road_map()[route[0]].to, route.drop_first());
    }
}

impl Network {
    /// The quickest route from `start` to `goal`, by travel time: no route
    /// between them takes less time. From a node to itself the route is
    /// empty. `None` only where every route takes the largest `u32` seconds
    /// or more, and in particular where there is none.
    pub fn shortest_route(&self, start: NodeId, goal: NodeId) -> (route: Option<Vec<RoadId>>)
        requires
            self.wf(),
        ensures
            start == goal ==> (route matches Some(r) && r@.len() == 0),
            route matches Some(r) ==> self.is_route(start, goal, r@),
            route matches Some(r) ==> forall|other: Seq<RoadId>|
                #[trigger] self.is_route(start, goal, other) ==> route_travel_time(*self, start, r@)
                    <= route_travel_time(*self, start, other),
            route is None ==> forall|other: Seq<RoadId>|
                #[trigger] self.is_route(start, goal, other) ==> route_travel_time(*self, start, other)
                    >= u32::MAX,
            route matches Some(r) ==> exists|nodes: Seq<NodeId>|
                #[trigger] ties_broken(*self, &TravelTimeRule, start, r@, nodes),
    {
        let rule = TravelTimeRule;
        let route = search_route(self, &rule, start, goal);
        proof {
            assert forall|other: Seq<RoadId>| #[trigger] self.is_route(start, goal, other) implies
                self.leads_to(start, goal, other, surely_pred(*self, &rule)) by {
                self.lemma_leads_to_weaken(start, goal, other, |n: NodeId, r: RoadId| true, surely_pred(*self, &rule));
            }
            assert forall|other: Seq<RoadId>| #[trigger] self.is_route(start, goal, other) implies
                route_cost(*self, &rule, start, other) == route_travel_time(*self, start, other) by {
                lemma_travel_cost(*self, &rule, start, other);
            }
            if route is Some {
                self.lemma_leads_to_weaken(
                    start,
                    goal,
                    route.unwrap()@,
                    admits_pred(*self, &rule),
                    |n: NodeId, x: RoadId| true,
                );
                lemma_travel_cost(*self, &rule, start, route.unwrap()@);
                let nodes = choose|nodes: Seq<NodeId>| #[trigger] ties_broken(*self, &rule, start, route.unwrap()@, nodes);
                assert(ties_broken(*self, &TravelTimeRule, start, route.unwrap()@, nodes));
            }
        }
        route
    }

    /// The quickest route from `start` to `goal` over the roads that
    /// `allow_road` accepts: it takes only roads that `allow_road` accepted,
    /// and no route over roads that it always accepts takes less time.
    /// `None` only where every such route takes the largest `u32` seconds
    /// or more.
    pub fn shortest_route_filtered<F: Fn(RoadId, &RoadSegment) -> bool>(
        &self,
        start: NodeId,
        goal: NodeId,
        allow_road: F,
    ) -> (route: Option<Vec<RoadId>>)
        requires
            self.wf(),
            forall|r: RoadId, seg: &RoadSegment| call_requires(allow_road, (r, seg)),
        ensures
            start == goal ==> (route matches Some(r) && r@.len() == 0),
            route matches Some(r) ==> self.leads_to(start, goal, r@, maybe_allowed(*self, allow_road)),
            route matches Some(r) ==> forall|other: Seq<RoadId>|
                #[trigger] self.leads_to(start, goal, other, always_allowed(*self, allow_road))
                    ==> route_travel_time(*self, start, r@) <= route_travel_time(*self, start, other),
            route is None ==> forall|other: Seq<RoadId>|
                #[trigger] self.leads_to(start, goal, other, always_allowed(*self, allow_road))
                    ==> route_travel_time(*self, start, other) >= u32::MAX,
            route matches Some(r) ==> exists|nodes: Seq<NodeId>|
                #[trigger] ties_broken(*self, &(FilterRule { allow: &allow_road }), start, r@, nodes),
    {
        let rule = FilterRule { allow: &allow_road };
        let route = search_route(self, &rule, start, goal);
        proof {
            assert forall|other: Seq<RoadId>|
                #[trigger] self.leads_to(start, goal, other, always_allowed(*self, allow_road)) implies
                self.leads_to(start, goal, other, surely_pred(*self, &rule)) by {
                self.lemma_leads_to_weaken(start, goal, other, always_allowed(*self, allow_road), surely_pred(*self, &rule));
            }
            assert forall|other: Seq<RoadId>|
                #[trigger] self.leads_to(start, goal, other, always_allowed(*self, allow_road)) implies
                route_cost(*self, &rule, start, other) == route_travel_time(*self, start, other) by {
                lemma_travel_cost(*self, &rule, start, other);
            }
            if route is Some {
                self.lemma_leads_to_weaken(
                    start,
                    goal,
                    route.unwrap()@,
                    admits_pred(*self, &rule),
                    maybe_allowed(*self, allow_road),
                );
                lemma_travel_cost(*self, &rule, start, route.unwrap()@);
                let nodes = choose|nodes: Seq<NodeId>| #[trigger] ties_broken(*self, &rule, start, route.unwrap()@, nodes);
                assert(ties_broken(*self, &rule, start, route.unwrap()@, nodes));
            }
        }
        route
    }
}

/// The quickest route from `start` to `goal` in `network`, as
/// `Network::shortest_route` finds it.
pub fn shortest_route(network: &Network, start: NodeId, goal: NodeId) -> (route: Option<Vec<RoadId>>)
    requires
        network.wf(),
    ensures
        start == goal ==> (route matches Some(r) && r@.len() == 0),
        route matches Some(r) ==> network.is_route(start, goal, r@),
        route matches Some(r) ==> forall|other: Seq<RoadId>|
            #[trigger] network.is_route(start, goal, other) ==> route_travel_time(*network, start, r@)
                <= route_travel_time(*network, start, other),
        route is None ==> forall|other: Seq<RoadId>|
            #[trigger] network.is_route(start, goal, other) ==> route_travel_time(*network, start, other)
                >= u32::MAX,
        route matches Some(r) ==> exists|nodes: Seq<NodeId>|
            #[trigger] ties_broken(*network, &TravelTimeRule, start, r@, nodes),
{
    network.shortest_route(start, goal)
}

/// The quickest route from `start` to `goal` in `network` over the roads
/// that `allow_road` accepts, as `Network::shortest_route_filtered` finds it.
pub fn shortest_route_filtered<F: Fn(RoadId, &RoadSegment) -> bool>(
    network: &Network,
    start: NodeId,
    goal: NodeId,
    allow_road: F,
) -> (route: Option<Vec<RoadId>>)
    requires
        network.wf(),
        forall|r: RoadId, seg: &RoadSegment| call_requires(allow_road, (r, seg)),
    ensures
        start == goal ==> (route matches Some(r) && r@.len() == 0),
        route matches Some(r) ==> network.leads_to(start, goal, r@, maybe_allowed(*network, allow_road)),
        route matches Some(r) ==> forall|other: Seq<RoadId>|
            #[trigger] network.leads_to(start, goal, other, always_allowed(*network, allow_road))
                ==> route_travel_time(*network, start, r@) <= route_travel_time(*network, start, other),
        route is None ==> forall|other: Seq<RoadId>|
            #[trigger] network.leads_to(start, goal, other, always_allowed(*network, allow_road))
                ==> route_travel_time(*network, start, other) >= u32::MAX,
        route matches Some(r) ==> exists|nodes: Seq<NodeId>|
            #[trigger] ties_broken(*network, &(FilterRule { allow: &allow_road }), start, r@, nodes),
{
    network.shortest_route_filtered(start, goal, allow_road)
}

} // verus!
