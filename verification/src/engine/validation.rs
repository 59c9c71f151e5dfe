//! Checking that a scenario can be run: its network must have nodes, its
//! sources ways out and its segments existing ends, a length and room; its
//! spawns must start and end at nodes it has, within its duration, and be
//! connected by some route.
use vstd::prelude::*;
use vstd::string::*;
use crate::idmap::{IdMap, lemma_entries};
use crate::text::{decimal_usize, spec_decimal};
use super::ids::{NodeId, SegmentId, VehicleId};
use super::state::NodeKind;

verus! {

/// A problem with a scenario: a code for programs and a message for people.
#[derive(Clone, Debug, PartialEq, Eq)]
pub struct ValidationIssue {
    pub code: String,
    pub message: String,
}

/// What a check reads of a node: where it is listed, and its kind.
#[derive(Clone, Copy, Debug, PartialEq, Eq, Structural)]
pub struct NodeShape {
    pub id: NodeId,
    pub kind: NodeKind,
}

/// What a check reads of a segment: its ends, its room, and whether its
/// length is a valid one.
#[derive(Clone, Copy, Debug, PartialEq, Eq, Structural)]
pub struct SegmentShape {
    pub id: SegmentId,
    pub from: NodeId,
    pub to: NodeId,
    pub capacity: usize,
    pub valid_length: bool,
}

/// What a check reads of a spawn.
#[derive(Clone, Copy, Debug, PartialEq, Eq, Structural)]
pub struct SpawnShape {
    pub id: VehicleId,
    pub release_tick: u64,
    pub origin: NodeId,
    pub destination: NodeId,
}

/// What a check reads of a scenario. A node or segment identifier names the
/// entry at that position of its list; `outgoing` lists, by node, the
/// segments that leave it.
pub struct ScenarioShape {
    pub nodes: Vec<NodeShape>,
    pub segments: Vec<SegmentShape>,
    pub outgoing: IdMap<Vec<SegmentId>>,
    pub spawns: Vec<SpawnShape>,
    pub duration_ticks: u64,
}

impl ScenarioShape {
    /// The segments that leave node `n`.
    pub open spec fn out_of(&self, n: NodeId) -> Seq<SegmentId> {
        if self.outgoing@.contains_key(n.0) {
            self.outgoing@[n.0]@
        } else {
            Seq::empty()
        }
    }

    /// Segment `s` leaves node `n` and is one of the scenario's.
    pub open spec fn leaves(&self, n: NodeId, s: SegmentId) -> bool {
        self.out_of(n).contains(s) && s.0 < self.segments@.len()
    }

    /// Following the segments of `path` from `from` leads to `to`.
    pub open spec fn connects(&self, path: Seq<SegmentId>, from: NodeId, to: NodeId) -> bool
        decreases path.len(),
    {
        if path.len() == 0 {
            from == to
        } else {
            &&& self.leaves(from, path[0])
            &&& self.connects(path.drop_first(), self.segments@[path[0].0 as int].to, to)
        }
    }

    /// Some route leads from `from` to `to`.
    pub open spec fn reachable(&self, from: NodeId, to: NodeId) -> bool {
        exists|path: Seq<SegmentId>| #[trigger] self.connects(path, from, to)
    }

    /// A path followed by one more segment that leaves where it ends.
    proof fn lemma_connects_push(&self, path: Seq<SegmentId>, from: NodeId, mid: NodeId, s: SegmentId)
        requires
            self.connects(path, from, mid),
            self.leaves(mid, s),
        ensures
            self.connects(path.push(s), from, self.segments@[s.0 as int].to),
        decreases path.len(),
    {
        if path.len() > 0 {
            self.lemma_connects_push(path.drop_first(), self.segments@[path[0].0 as int].to, mid, s);
            assert(path.push(s).drop_first() =~= path.drop_first().push(s));
            assert(path.push(s)[0] == path[0]);
        } else {
            assert(path.push(s).drop_first() =~= Seq::<SegmentId>::empty());
            assert(path.push(s)[0] == s);
            let t = self.segments@[s.0 as int].to;
            assert(self.connects(Seq::<SegmentId>::empty(), t, t));
        }
    }

    /// A set of nodes that every segment leaving one of them leads back into
    /// holds the end of every path that starts in it.
    proof fn lemma_closed_holds(&self, seen: Seq<NodeId>, path: Seq<SegmentId>, from: NodeId, to: NodeId)
        requires
            seen.contains(from),
            self.connects(path, from, to),
            forall|u: NodeId, s: SegmentId|
                seen.contains(u) && #[trigger] self.leaves(u, s) ==> seen.contains(self.segments@[s.0 as int].to),
        ensures
            seen.contains(to),
        decreases path.len(),
    {
        if path.len() > 0 {
            assert(self.leaves(from, path[0]));
            self.lemma_closed_holds(seen, path.drop_first(), self.segments@[path[0].0 as int].to, to);
        }
    }
}

/// How many of the candidates `ks` are not in `seen`.
pub open spec fn unseen(seen: Seq<NodeId>, ks: Seq<NodeId>) -> nat
    decreases ks.len(),
{
    if ks.len() == 0 {
        0
    } else {
        unseen(seen, ks.drop_last()) + if seen.contains(ks.last()) {
            0nat
        } else {
            1nat
        }
    }
}

/// Seeing a new candidate leaves fewer unseen.
proof fn lemma_unseen_drops(seen: Seq<NodeId>, ks: Seq<NodeId>, w: NodeId)
    requires
        !seen.contains(w),
    ensures
        unseen(seen.push(w), ks) <= unseen(seen, ks),
        ks.contains(w) ==> unseen(seen.push(w), ks) < unseen(seen, ks),
    decreases ks.len(),
{
    if ks.len() > 0 {
        lemma_unseen_drops(seen, ks.drop_last(), w);
        assert forall|x: NodeId| seen.contains(x) implies seen.push(w).contains(x) by {
            let j = choose|j: int| 0 <= j < seen.len() && seen[j] == x;
            assert(seen.push(w)[j] == x);
        }
        assert(seen.push(w).contains(w)) by {
            assert(seen.push(w)[seen.len() as int] == w);
        }
        if ks.contains(w) && !ks.drop_last().contains(w) {
            let j = choose|j: int| 0 <= j < ks.len() && ks[j] == w;
            if j < ks.len() - 1 {
                assert(ks.drop_last()[j] == w);
            }
        }
        if ks.drop_last().contains(w) {
            let j = choose|j: int| 0 <= j < ks.drop_last().len() && ks.drop_last()[j] == w;
            assert(ks[j] == w);
        }
    }
}

/// Whether `ids` lists `id`.
fn lists_node(ids: &Vec<NodeId>, id: NodeId) -> (found: bool)
    ensures
        found == ids@.contains(id),
{
    let mut i: usize = 0;
    while i < ids.len()
        invariant
            i <= ids@.len(),
            forall|j: int| 0 <= j < i ==> ids@[j] != id,
        decreases ids@.len() - i,
    {
        if ids[i].0 == id.0 {
            return true;
        }
        i = i + 1;
    }
    false
}

/// Whether some route leads from `origin` to `destination`, searching the
/// nodes in the order they are first seen.
#[verifier::spinoff_prover]
pub fn has_path(scenario: &ScenarioShape, origin: NodeId, destination: NodeId) -> (found: bool)
    requires
        scenario.outgoing.wf(),
    ensures
        found == scenario.reachable(origin, destination),
{
    if origin.0 == destination.0 {
        proof {
            assert(scenario.connects(Seq::empty(), origin, destination));
        }
        return true;
    }
    let ghost ks: Seq<NodeId> = seq![origin] + scenario.segments@.map_values(|s: SegmentShape| s.to);
    let mut seen: Vec<NodeId> = Vec::new();
    seen.push(origin);
    let ghost mut paths: Map<NodeId, Seq<SegmentId>> = map![origin => Seq::<SegmentId>::empty()];
    let mut head: usize = 0;
    proof {
        assert(seen@[0] == origin);
        assert(ks[0] == origin);
    }
    while head < seen.len()
        invariant
            scenario.outgoing.wf(),
            origin != destination,
            ks == seq![origin] + scenario.segments@.map_values(|s: SegmentShape| s.to),
            head <= seen@.len(),
            seen@.len() >= 1,
            seen@[0] == origin,
            !seen@.contains(destination),
            forall|v: NodeId| #[trigger] seen@.contains(v) ==> paths.contains_key(v) && scenario.connects(
                paths[v],
                origin,
                v,
            ),
            forall|k: int, s: SegmentId|
                0 <= k < head && #[trigger] scenario.leaves(seen@[k], s) ==> seen@.contains(
                    scenario.segments@[s.0 as int].to,
                ),
            forall|v: NodeId| #[trigger] seen@.contains(v) ==> ks.contains(v),
        decreases 2 * unseen(seen@, ks) + seen@.len() - head,
    {
        let node = seen[head];
        proof {
            assert(seen@.contains(node));
        }
        head = head + 1;
        let empty: Vec<SegmentId> = Vec::new();
        proof {
            lemma_entries(scenario.outgoing.entries@);
        }
        let outs = match scenario.outgoing.get(node.0) {
            Some(list) => list,
            None => &empty,
        };
        proof {
            assert(outs@ == scenario.out_of(node));
        }
        let ghost m0 = 2 * unseen(seen@, ks) + seen@.len() - head;
        let mut j: usize = 0;
        while j < outs.len()
            invariant
                scenario.outgoing.wf(),
                origin != destination,
                ks == seq![origin] + scenario.segments@.map_values(|s: SegmentShape| s.to),
                outs@ == scenario.out_of(node),
                1 <= head <= seen@.len(),
                seen@[head - 1] == node,
                seen@[0] == origin,
                j <= outs@.len(),
                !seen@.contains(destination),
                forall|v: NodeId| #[trigger] seen@.contains(v) ==> paths.contains_key(v) && scenario.connects(
                    paths[v],
                    origin,
                    v,
                ),
                forall|k: int, s: SegmentId|
                    0 <= k < head - 1 && #[trigger] scenario.leaves(seen@[k], s) ==> seen@.contains(
                        scenario.segments@[s.0 as int].to,
                    ),
                forall|i: int|
                    0 <= i < j && (#[trigger] outs@[i]).0 < scenario.segments@.len() ==> seen@.contains(
                        scenario.segments@[outs@[i].0 as int].to,
                    ),
                forall|v: NodeId| #[trigger] seen@.contains(v) ==> ks.contains(v),
                2 * unseen(seen@, ks) + seen@.len() - head <= m0,
            decreases outs@.len() - j,
        {
            let s = outs[j];
            if s.0 < scenario.segments.len() {
                let to = scenario.segments[s.0].to;
                proof {
                    assert(outs@[j as int] == s);
                    assert(scenario.leaves(node, s));
                    assert(seen@.contains(node)) by {
                        assert(seen@[head - 1] == node);
                    }
                    scenario.lemma_connects_push(paths[node], origin, node, s);
                }
                if to.0 == destination.0 {
                    proof {
                        assert(scenario.connects(paths[node].push(s), origin, destination));
                    }
                    return true;
                }
                if !lists_node(&seen, to) {
                    let ghost old_seen = seen@;
                    proof {
                        assert(ks[s.0 + 1] == to);
                        assert(ks.contains(to));
                        lemma_unseen_drops(old_seen, ks, to);
                    }
                    seen.push(to);
                    let ghost old_paths = paths;
                    proof {
                        paths = paths.insert(to, paths[node].push(s));
                        assert forall|x: NodeId| old_seen.contains(x) implies #[trigger] seen@.contains(x) by {
                            let k = choose|k: int| 0 <= k < old_seen.len() && old_seen[k] == x;
                            assert(seen@[k] == x);
                        }
                        assert(seen@[old_seen.len() as int] == to);
                        assert forall|v: NodeId| #[trigger] seen@.contains(v) implies ks.contains(v) by {
                            if v != to {
                                let k = choose|k: int| 0 <= k < seen@.len() && seen@[k] == v;
                                assert(old_seen[k] == v);
                                assert(old_seen.contains(v));
                            } else {
                                assert(ks[s.0 + 1] == to);
                            }
                        }
                        assert forall|v: NodeId| #[trigger] seen@.contains(v) implies paths.contains_key(v)
                            && scenario.connects(paths[v], origin, v) by {
                            if v != to {
                                let k = choose|k: int| 0 <= k < seen@.len() && seen@[k] == v;
                                assert(old_seen[k] == v);
                                assert(old_seen.contains(v));
                                assert(paths[v] == old_paths[v]);
                            } else {
                                assert(paths[to] == old_paths[node].push(s));
                            }
                        }
                        assert(!seen@.contains(destination)) by {
                            if seen@.contains(destination) {
                                let k = choose|k: int| 0 <= k < seen@.len() && seen@[k] == destination;
                                if k < old_seen.len() {
                                    assert(old_seen[k] == destination);
                                }
                            }
                        }
                    }
                }
            }
            j = j + 1;
        }
        proof {
            assert forall|k: int, s: SegmentId|
                0 <= k < head && #[trigger] scenario.leaves(seen@[k], s) implies seen@.contains(
                    scenario.segments@[s.0 as int].to,
                ) by {
                if k == head - 1 {
                    let i = choose|i: int| 0 <= i < outs@.len() && outs@[i] == s;
                    assert(outs@[i] == s);
                }
            }
        }
    }
    proof {
        assert forall|u: NodeId, s: SegmentId|
            seen@.contains(u) && #[trigger] scenario.leaves(u, s) implies seen@.contains(
                scenario.segments@[s.0 as int].to,
            ) by {
            let k = choose|k: int| 0 <= k < seen@.len() && seen@[k] == u;
            assert(scenario.leaves(seen@[k], s));
        }
        assert(seen@.contains(origin)) by {
            assert(seen@[0] == origin);
        }
        if scenario.reachable(origin, destination) {
            let path = choose|path: Seq<SegmentId>| #[trigger] scenario.connects(path, origin, destination);
            scenario.lemma_closed_holds(seen@, path, origin, destination);
        }
    }
    false
}

/// An identifier as the engine writes it: the kind of thing, then the
/// number in brackets.
pub open spec fn id_text(kind: Seq<char>, k: usize) -> Seq<char> {
    kind + "("@ + spec_decimal(k as nat) + ")"@
}

/// A problem as a code and a message.
pub type IssueText = (Seq<char>, Seq<char>);

/// The issues `issues` are, in order, those of `expected`.
pub open spec fn issues_are(issues: Seq<ValidationIssue>, expected: Seq<IssueText>) -> bool {
    &&& issues.len() == expected.len()
    &&& forall|i: int|
        0 <= i < issues.len() ==> (#[trigger] issues[i]).code@ == expected[i].0 && issues[i].message@
            == expected[i].1
}

/// The issues of the sources among `nodes`: a source that no segment leaves.
pub open spec fn source_issues(scenario: &ScenarioShape, nodes: Seq<NodeShape>) -> Seq<IssueText>
    decreases nodes.len(),
{
    if nodes.len() == 0 {
        Seq::empty()
    } else {
        let n = nodes.last();
        source_issues(scenario, nodes.drop_last()) + if n.kind == NodeKind::Source && scenario.out_of(
            n.id,
        ).len() == 0 {
            seq![
                ("source-without-outgoing"@, "El nodo fuente "@ + id_text("NodeId"@, n.id.0)
                    + " no tiene tramos de salida."@),
            ]
        } else {
            Seq::empty()
        }
    }
}

/// The issues of one segment: an end that is not a node, a length that is
/// not valid, no room.
pub open spec fn segment_issue_list(scenario: &ScenarioShape, s: SegmentShape) -> Seq<IssueText> {
    let name = id_text("SegmentId"@, s.id.0);
    (if s.from.0 >= scenario.nodes@.len() {
        seq![("segment-missing-origin"@, "El tramo "@ + name + " referencia un origen inexistente."@)]
    } else {
        Seq::empty()
    }) + (if s.to.0 >= scenario.nodes@.len() {
        seq![("segment-missing-destination"@, "El tramo "@ + name + " referencia un destino inexistente."@)]
    } else {
        Seq::empty()
    }) + (if !s.valid_length {
        seq![("segment-invalid-length"@, "El tramo "@ + name + " tiene longitud no valida."@)]
    } else {
        Seq::empty()
    }) + (if s.capacity == 0 {
        seq![("segment-zero-capacity"@, "El tramo "@ + name + " tiene capacidad cero."@)]
    } else {
        Seq::empty()
    })
}

/// The issues of `segments`, segment by segment.
pub open spec fn segment_issues(scenario: &ScenarioShape, segments: Seq<SegmentShape>) -> Seq<IssueText>
    decreases segments.len(),
{
    if segments.len() == 0 {
        Seq::empty()
    } else {
        segment_issues(scenario, segments.drop_last()) + segment_issue_list(scenario, segments.last())
    }
}

/// The issues of one spawn: an end that is not a node, a release after the
/// end of the scenario, no route between its ends.
pub open spec fn spawn_issue_list(scenario: &ScenarioShape, s: SpawnShape) -> Seq<IssueText> {
    (if s.origin.0 >= scenario.nodes@.len() {
        seq![("spawn-origin-missing"@, "El origen "@ + id_text("NodeId"@, s.origin.0) + " no existe."@)]
    } else {
        Seq::empty()
    }) + (if s.destination.0 >= scenario.nodes@.len() {
        seq![("spawn-destination-missing"@, "El destino "@ + id_text("NodeId"@, s.destination.0) + " no existe."@)]
    } else {
        Seq::empty()
    }) + (if s.release_tick > scenario.duration_ticks {
        seq![
            ("spawn-release-out-of-range"@, "El spawn "@ + id_text("VehicleId"@, s.id.0)
                + " queda fuera de la duraci\u{f3}n del escenario."@),
        ]
    } else {
        Seq::empty()
    }) + (if !scenario.reachable(s.origin, s.destination) {
        seq![
            ("spawn-unroutable"@, "No existe ruta desde "@ + id_text("NodeId"@, s.origin.0) + " hasta "@
                + id_text("NodeId"@, s.destination.0) + "."@),
        ]
    } else {
        Seq::empty()
    })
}

/// The issues of `spawns`, spawn by spawn.
pub open spec fn spawn_issues(scenario: &ScenarioShape, spawns: Seq<SpawnShape>) -> Seq<IssueText>
    decreases spawns.len(),
{
    if spawns.len() == 0 {
        Seq::empty()
    } else {
        spawn_issues(scenario, spawns.drop_last()) + spawn_issue_list(scenario, spawns.last())
    }
}

/// The issues of the network of a scenario: no nodes, then those of its
/// sources, then those of its segments.
pub open spec fn graph_issues(scenario: &ScenarioShape) -> Seq<IssueText> {
    (if scenario.nodes@.len() == 0 {
        seq![("graph-empty"@, "La red no contiene nodos."@)]
    } else {
        Seq::empty()
    }) + source_issues(scenario, scenario.nodes@) + segment_issues(scenario, scenario.segments@)
}

/// Every issue of a scenario, in the order they are found: those of the
/// network, then those of the spawns.
pub open spec fn scenario_issues(scenario: &ScenarioShape) -> Seq<IssueText> {
    graph_issues(scenario) + spawn_issues(scenario, scenario.spawns@)
}

/// An identifier as the engine writes it.
pub fn id_string(kind: &str, k: usize) -> (text: String)
    ensures
        text@ == id_text(kind@, k),
{
    let mut text = String::from_str(kind);
    text.append("(");
    let digits = decimal_usize(k);
    text.append(digits.as_str());
    text.append(")");
    text
}

/// Adds the issue with `code` and `message` to `issues`.
fn report(issues: &mut Vec<ValidationIssue>, code: &str, message: String)
    ensures
        final(issues)@.len() == old(issues)@.len() + 1,
        final(issues)@.subrange(0, old(issues)@.len() as int) == old(issues)@,
        final(issues)@.last().code@ == code@,
        final(issues)@.last().message@ == message@,
{
    issues.push(ValidationIssue { code: String::from_str(code), message });
}

/// Adding one issue to both sides keeps them matched.
proof fn lemma_issues_push(issues: Seq<ValidationIssue>, more: Seq<ValidationIssue>, expected: Seq<IssueText>, e: IssueText)
    requires
        issues_are(issues, expected),
        more.len() == issues.len() + 1,
        more.subrange(0, issues.len() as int) == issues,
        more.last().code@ == e.0,
        more.last().message@ == e.1,
    ensures
        issues_are(more, expected.push(e)),
{
    assert forall|i: int| 0 <= i < more.len() implies (#[trigger] more[i]).code@ == expected.push(e)[i].0
        && more[i].message@ == expected.push(e)[i].1 by {
        if i < issues.len() {
            assert(more[i] == more.subrange(0, issues.len() as int)[i]);
        }
    }
}

/// Collects the issues of the network of a scenario.
#[verifier::spinoff_prover]
#[verifier::rlimit(30)]
fn validate_graph(scenario: &ScenarioShape, issues: &mut Vec<ValidationIssue>)
    requires
        scenario.outgoing.wf(),
        issues_are(old(issues)@, Seq::empty()),
    ensures
        issues_are(final(issues)@, graph_issues(scenario)),
{
    if scenario.nodes.len() == 0 {
        let ghost before = issues@;
        report(issues, "graph-empty", String::from_str("La red no contiene nodos."));
        proof {
            lemma_issues_push(before, issues@, Seq::empty(), ("graph-empty"@, "La red no contiene nodos."@));
        }
    }
    let ghost base: Seq<IssueText> = if scenario.nodes@.len() == 0 {
        seq![("graph-empty"@, "La red no contiene nodos."@)]
    } else {
        Seq::empty()
    };
    proof {
        assert(base + source_issues(scenario, scenario.nodes@.take(0)) =~= base);
    }
    let mut i: usize = 0;
    while i < scenario.nodes.len()
        invariant
            scenario.outgoing.wf(),
            i <= scenario.nodes@.len(),
            base == (if scenario.nodes@.len() == 0 {
                seq![("graph-empty"@, "La red no contiene nodos."@)]
            } else {
                Seq::<IssueText>::empty()
            }),
            issues_are(issues@, base + source_issues(scenario, scenario.nodes@.take(i as int))),
        decreases scenario.nodes@.len() - i,
    {
        let node = scenario.nodes[i];
        proof {
            lemma_entries(scenario.outgoing.entries@);
            assert(scenario.nodes@.take(i + 1).drop_last() =~= scenario.nodes@.take(i as int));
            assert(scenario.nodes@.take(i + 1).last() == node);
        }
        let outgoing_count = match scenario.outgoing.get(node.id.0) {
            Some(list) => list.len(),
            None => 0,
        };
        if node.kind == NodeKind::Source && outgoing_count == 0 {
            let mut message = String::from_str("El nodo fuente ");
            let name = id_string("NodeId", node.id.0);
            message.append(name.as_str());
            message.append(" no tiene tramos de salida.");
            let ghost before = issues@;
            report(issues, "source-without-outgoing", message);
            proof {
                lemma_issues_push(before, issues@, base + source_issues(scenario, scenario.nodes@.take(i as int)),
                    ("source-without-outgoing"@, "El nodo fuente "@ + id_text("NodeId"@, node.id.0)
                        + " no tiene tramos de salida."@));
                assert(base + source_issues(scenario, scenario.nodes@.take(i + 1)) =~= (base + source_issues(
                    scenario, scenario.nodes@.take(i as int))).push(("source-without-outgoing"@, "El nodo fuente "@
                    + id_text("NodeId"@, node.id.0) + " no tiene tramos de salida."@)));
            }
        } else {
            proof {
                assert(base + source_issues(scenario, scenario.nodes@.take(i + 1)) =~= base + source_issues(
                    scenario, scenario.nodes@.take(i as int)));
            }
        }
        i = i + 1;
    }
    let ghost base2 = base + source_issues(scenario, scenario.nodes@);
    proof {
        assert(scenario.nodes@.take(scenario.nodes@.len() as int) =~= scenario.nodes@);
        assert(base2 + segment_issues(scenario, scenario.segments@.take(0)) =~= base2);
    }
    let mut i: usize = 0;
    while i < scenario.segments.len()
        invariant
            i <= scenario.segments@.len(),
            base2 == graph_issues(scenario).subrange(0, base2.len() as int),
            graph_issues(scenario) == base2 + segment_issues(scenario, scenario.segments@),
            issues_are(issues@, base2 + segment_issues(scenario, scenario.segments@.take(i as int))),
        decreases scenario.segments@.len() - i,
    {
        let segment = scenario.segments[i];
        let ghost done = base2 + segment_issues(scenario, scenario.segments@.take(i as int));
        proof {
            assert(scenario.segments@.take(i + 1).drop_last() =~= scenario.segments@.take(i as int));
            assert(scenario.segments@.take(i + 1).last() == segment);
        }
        let name = id_string("SegmentId", segment.id.0);
        let ghost e1: Seq<IssueText> = if segment.from.0 >= scenario.nodes@.len() {
            seq![("segment-missing-origin"@, "El tramo "@ + name@ + " referencia un origen inexistente."@)]
        } else {
            Seq::empty()
        };
        let ghost e2: Seq<IssueText> = if segment.to.0 >= scenario.nodes@.len() {
            seq![("segment-missing-destination"@, "El tramo "@ + name@ + " referencia un destino inexistente."@)]
        } else {
            Seq::empty()
        };
        let ghost e3: Seq<IssueText> = if !segment.valid_length {
            seq![("segment-invalid-length"@, "El tramo "@ + name@ + " tiene longitud no valida."@)]
        } else {
            Seq::empty()
        };
        let ghost e4: Seq<IssueText> = if segment.capacity == 0 {
            seq![("segment-zero-capacity"@, "El tramo "@ + name@ + " tiene capacidad cero."@)]
        } else {
            Seq::empty()
        };
        if segment.from.0 >= scenario.nodes.len() {
            let mut message = String::from_str("El tramo ");
            message.append(name.as_str());
            message.append(" referencia un origen inexistente.");
            let ghost before = issues@;
            report(issues, "segment-missing-origin", message);
            proof {
                lemma_issues_push(before, issues@, done, e1[0]);
                assert(done.push(e1[0]) =~= done + e1);
            }
        } else {
            proof {
                assert(done + e1 =~= done);
            }
        }
        if segment.to.0 >= scenario.nodes.len() {
            let mut message = String::from_str("El tramo ");
            message.append(name.as_str());
            message.append(" referencia un destino inexistente.");
            let ghost before = issues@;
            report(issues, "segment-missing-destination", message);
            proof {
                lemma_issues_push(before, issues@, done + e1, e2[0]);
                assert((done + e1).push(e2[0]) =~= done + e1 + e2);
            }
        } else {
            proof {
                assert(done + e1 + e2 =~= done + e1);
            }
        }
        if !segment.valid_length {
            let mut message = String::from_str("El tramo ");
            message.append(name.as_str());
            message.append(" tiene longitud no valida.");
            let ghost before = issues@;
            report(issues, "segment-invalid-length", message);
            proof {
                lemma_issues_push(before, issues@, done + e1 + e2, e3[0]);
                assert((done + e1 + e2).push(e3[0]) =~= done + e1 + e2 + e3);
            }
        } else {
            proof {
                assert(done + e1 + e2 + e3 =~= done + e1 + e2);
            }
        }
        if segment.capacity == 0 {
            let mut message = String::from_str("El tramo ");
            message.append(name.as_str());
            message.append(" tiene capacidad cero.");
            let ghost before = issues@;
            report(issues, "segment-zero-capacity", message);
            proof {
                lemma_issues_push(before, issues@, done + e1 + e2 + e3, e4[0]);
                assert((done + e1 + e2 + e3).push(e4[0]) =~= done + e1 + e2 + e3 + e4);
            }
        } else {
            proof {
                assert(done + e1 + e2 + e3 + e4 =~= done + e1 + e2 + e3);
            }
        }
        proof {
            assert(segment_issue_list(scenario, segment) =~= e1 + e2 + e3 + e4);
            assert(base2 + segment_issues(scenario, scenario.segments@.take(i + 1)) =~= done + e1 + e2 + e3 + e4);
        }
        i = i + 1;
    }
    proof {
        assert(scenario.segments@.take(scenario.segments@.len() as int) =~= scenario.segments@);
    }
}

/// Collects the issues of one spawn.
#[verifier::spinoff_prover]
fn check_spawn(
    scenario: &ScenarioShape,
    spawn: SpawnShape,
    issues: &mut Vec<ValidationIssue>,
    Ghost(done): Ghost<Seq<IssueText>>,
)
    requires
        scenario.outgoing.wf(),
        issues_are(old(issues)@, done),
    ensures
        issues_are(final(issues)@, done + spawn_issue_list(scenario, spawn)),
{
        let origin_name = id_string("NodeId", spawn.origin.0);
        let destination_name = id_string("NodeId", spawn.destination.0);
        let ghost e1: Seq<IssueText> = if spawn.origin.0 >= scenario.nodes@.len() {
            seq![("spawn-origin-missing"@, "El origen "@ + origin_name@ + " no existe."@)]
        } else {
            Seq::empty()
        };
        let ghost e2: Seq<IssueText> = if spawn.destination.0 >= scenario.nodes@.len() {
            seq![("spawn-destination-missing"@, "El destino "@ + destination_name@ + " no existe."@)]
        } else {
            Seq::empty()
        };
        let ghost e3: Seq<IssueText> = if spawn.release_tick > scenario.duration_ticks {
            seq![
                ("spawn-release-out-of-range"@, "El spawn "@ + id_text("VehicleId"@, spawn.id.0)
                    + " queda fuera de la duraci\u{f3}n del escenario."@),
            ]
        } else {
            Seq::empty()
        };
        let ghost e4: Seq<IssueText> = if !scenario.reachable(spawn.origin, spawn.destination) {
            seq![
                ("spawn-unroutable"@, "No existe ruta desde "@ + origin_name@ + " hasta "@ + destination_name@
                    + "."@),
            ]
        } else {
            Seq::empty()
        };
        if spawn.origin.0 >= scenario.nodes.len() {
            let mut message = String::from_str("El origen ");
            message.append(origin_name.as_str());
            message.append(" no existe.");
            let ghost before = issues@;
            report(issues, "spawn-origin-missing", message);
            proof {
                lemma_issues_push(before, issues@, done, e1[0]);
                assert(done.push(e1[0]) =~= done + e1);
            }
        } else {
            proof {
                assert(done + e1 =~= done);
            }
        }
        if spawn.destination.0 >= scenario.nodes.len() {
            let mut message = String::from_str("El destino ");
            message.append(destination_name.as_str());
            message.append(" no existe.");
            let ghost before = issues@;
            report(issues, "spawn-destination-missing", message);
            proof {
                lemma_issues_push(before, issues@, done + e1, e2[0]);
                assert((done + e1).push(e2[0]) =~= done + e1 + e2);
            }
        } else {
            proof {
                assert(done + e1 + e2 =~= done + e1);
            }
        }
        if spawn.release_tick > scenario.duration_ticks {
            let mut message = String::from_str("El spawn ");
            let name = id_string("VehicleId", spawn.id.0);
            message.append(name.as_str());
            message.append(" queda fuera de la duraci\u{f3}n del escenario.");
            let ghost before = issues@;
            report(issues, "spawn-release-out-of-range", message);
            proof {
                lemma_issues_push(before, issues@, done + e1 + e2, e3[0]);
                assert((done + e1 + e2).push(e3[0]) =~= done + e1 + e2 + e3);
            }
        } else {
            proof {
                assert(done + e1 + e2 + e3 =~= done + e1 + e2);
            }
        }
        if !has_path(scenario, spawn.origin, spawn.destination) {
            let mut message = String::from_str("No existe ruta desde ");
            message.append(origin_name.as_str());
            message.append(" hasta ");
            message.append(destination_name.as_str());
            message.append(".");
            let ghost before = issues@;
            report(issues, "spawn-unroutable", message);
            proof {
                lemma_issues_push(before, issues@, done + e1 + e2 + e3, e4[0]);
                assert((done + e1 + e2 + e3).push(e4[0]) =~= done + e1 + e2 + e3 + e4);
            }
        } else {
            proof {
                assert(done + e1 + e2 + e3 + e4 =~= done + e1 + e2 + e3);
            }
        }
        proof {
            assert(spawn_issue_list(scenario, spawn) =~= e1 + e2 + e3 + e4);
            assert(done + spawn_issue_list(scenario, spawn) =~= done + e1 + e2 + e3 + e4);
        }
}

/// Checks a scenario: `Ok` where it has no issue, and otherwise every issue,
/// in the order they are found.
pub fn validate_scenario(scenario: &ScenarioShape) -> (result: Result<(), Vec<ValidationIssue>>)
    requires
        scenario.outgoing.wf(),
    ensures
        match result {
            Ok(()) => scenario_issues(scenario).len() == 0,
            Err(issues) => scenario_issues(scenario).len() > 0 && issues_are(issues@, scenario_issues(scenario)),
        },
{
    let mut issues: Vec<ValidationIssue> = Vec::new();
    validate_graph(scenario, &mut issues);
    let ghost base = graph_issues(scenario);
    proof {
        assert(base + spawn_issues(scenario, scenario.spawns@.take(0)) =~= base);
    }
    let mut i: usize = 0;
    while i < scenario.spawns.len()
        invariant
            scenario.outgoing.wf(),
            base == graph_issues(scenario),
            i <= scenario.spawns@.len(),
            issues_are(issues@, base + spawn_issues(scenario, scenario.spawns@.take(i as int))),
        decreases scenario.spawns@.len() - i,
    {
        let spawn = scenario.spawns[i];
        proof {
            assert(scenario.spawns@.take(i + 1).drop_last() =~= scenario.spawns@.take(i as int));
            assert(scenario.spawns@.take(i + 1).last() == spawn);
        }
        check_spawn(scenario, spawn, &mut issues, Ghost(base + spawn_issues(scenario, scenario.spawns@.take(i as int))));
        proof {
            assert(base + spawn_issues(scenario, scenario.spawns@.take(i + 1)) =~= base + spawn_issues(
                scenario,
                scenario.spawns@.take(i as int),
            ) + spawn_issue_list(scenario, spawn));
        }
        i = i + 1;
    }
    proof {
        assert(scenario.spawns@.take(scenario.spawns@.len() as int) =~= scenario.spawns@);
    }
    if issues.len() == 0 {
        Ok(())
    } else {
        Err(issues)
    }
}

/// Checks a scenario before the engine runs it, as `validate_scenario` does.
pub fn validate_engine_scenario(scenario: &ScenarioShape) -> (result: Result<(), Vec<ValidationIssue>>)
    requires
        scenario.outgoing.wf(),
    ensures
        match result {
            Ok(()) => scenario_issues(scenario).len() == 0,
            Err(issues) => scenario_issues(scenario).len() > 0 && issues_are(issues@, scenario_issues(scenario)),
        },
{
    validate_scenario(scenario)
}

} // verus!
