use traffic_simulator::engine::commands::Command;
use traffic_simulator::engine::conflicts::resolve_vehicle_order;
use traffic_simulator::engine::events::{EventKind, SimulationEvent};
use traffic_simulator::engine::ids::{LaneId, NodeId, SegmentId, SignalId, VehicleId};
use traffic_simulator::engine::metrics::SimulationMetrics;
use traffic_simulator::engine::road::Lane;
use traffic_simulator::engine::signal::{advance_signals, node_has_red_signal, SignalTiming, TrafficSignal};
use traffic_simulator::engine::state::SignalPhase;
use traffic_simulator::engine::validation::ValidationIssue;
use traffic_simulator::engine::vehicle::VehicleRoute;

#[test]
fn lane_space_counts_down_to_zero() {
    let mut lane = Lane { id: LaneId(0), segment: SegmentId(1), index: 0, capacity: 2, occupied: vec![] };
    assert_eq!(lane.available_space(), 2);
    lane.occupied.push(VehicleId(4));
    assert_eq!(lane.available_space(), 1);
    lane.occupied.push(VehicleId(5));
    lane.occupied.push(VehicleId(6));
    assert_eq!(lane.available_space(), 0);
}

#[test]
fn new_signal_starts_on_red() {
    let timing = SignalTiming { green_ticks: 4, yellow_ticks: 1, red_ticks: 3 };
    let signal = TrafficSignal::new(SignalId(0), NodeId(1), timing);
    assert_eq!(signal.phase, SignalPhase::Red);
    assert_eq!(signal.phase_tick, 0);
    assert_eq!(signal.timing, timing);
}

#[test]
fn signal_cycles_red_green_yellow() {
    let timing = SignalTiming { green_ticks: 4, yellow_ticks: 1, red_ticks: 3 };
    let mut signal = TrafficSignal::new(SignalId(0), NodeId(1), timing);
    let mut phases = Vec::new();
    for _ in 0..8 {
        let changed = signal.advance();
        phases.push((changed, signal.phase));
    }
    assert_eq!(
        phases,
        vec![
            (false, SignalPhase::Red),
            (false, SignalPhase::Red),
            (true, SignalPhase::Green),
            (false, SignalPhase::Green),
            (false, SignalPhase::Green),
            (false, SignalPhase::Green),
            (true, SignalPhase::Yellow),
            (true, SignalPhase::Red),
        ]
    );
    // After one round of 3 + 4 + 1 ticks the signal is back where it began.
    assert_eq!(signal, TrafficSignal::new(SignalId(0), NodeId(1), timing));
}

#[test]
fn zero_tick_light_lasts_one_tick() {
    let timing = SignalTiming { green_ticks: 0, yellow_ticks: 0, red_ticks: 0 };
    let mut signal = TrafficSignal::new(SignalId(2), NodeId(3), timing);
    assert!(signal.advance());
    assert_eq!(signal.phase, SignalPhase::Green);
    assert!(signal.advance());
    assert_eq!(signal.phase, SignalPhase::Yellow);
}

#[test]
fn vehicles_are_served_in_order_of_identifier() {
    let ordered = resolve_vehicle_order(vec![VehicleId(7), VehicleId(2), VehicleId(9), VehicleId(2)]);
    assert_eq!(ordered, vec![VehicleId(2), VehicleId(2), VehicleId(7), VehicleId(9)]);
    assert_eq!(resolve_vehicle_order(vec![]), vec![]);
}

#[test]
fn metrics_snapshot_copies_the_totals() {
    let metrics = SimulationMetrics {
        vehicles_spawned: 3,
        vehicles_completed: 2,
        total_travel_ticks: 40,
        total_wait_ticks: 6,
    };
    let snapshot = metrics.snapshot();
    assert_eq!(snapshot.vehicles_spawned, 3);
    assert_eq!(snapshot.vehicles_completed, 2);
    assert_eq!(snapshot.total_travel_ticks, 40);
    assert_eq!(snapshot.total_wait_ticks, 6);
    assert_eq!(SimulationMetrics::default().snapshot().vehicles_spawned, 0);
}

#[test]
fn identifiers_convert_from_numbers() {
    assert_eq!(NodeId::from(4), NodeId(4));
    assert_eq!(SegmentId::from(5), SegmentId(5));
    assert_eq!(VehicleId::from(6), VehicleId(6));
}

#[test]
fn records_keep_what_they_are_given() {
    let event = SimulationEvent { tick: 3, kind: EventKind::SignalChanged, entity: Some("0".to_string()), message: "cambio".to_string() };
    assert_eq!(event.kind, EventKind::SignalChanged);
    let issue = ValidationIssue { code: "graph-empty".to_string(), message: "vacia".to_string() };
    assert_eq!(issue.code, "graph-empty");
    let route = VehicleRoute::default();
    assert!(route.segments.is_empty());
    assert_eq!(Command::Step(3), Command::Step(3));
}

use traffic_simulator::engine::state::NodeKind;
use traffic_simulator::engine::validation::{has_path, validate_scenario, NodeShape, ScenarioShape, SegmentShape, SpawnShape};
use traffic_simulator::idmap::IdMap;

fn shape() -> ScenarioShape {
    // Entrada (0) -> Cruce (1) -> Salida (2); Desvio (3) is reached from Cruce.
    let nodes = vec![
        NodeShape { id: NodeId(0), kind: NodeKind::Source },
        NodeShape { id: NodeId(1), kind: NodeKind::Signal },
        NodeShape { id: NodeId(2), kind: NodeKind::Sink },
        NodeShape { id: NodeId(3), kind: NodeKind::Intersection },
    ];
    let segments = vec![
        SegmentShape { id: SegmentId(0), from: NodeId(0), to: NodeId(1), capacity: 4, valid_length: true },
        SegmentShape { id: SegmentId(1), from: NodeId(1), to: NodeId(2), capacity: 4, valid_length: true },
        SegmentShape { id: SegmentId(2), from: NodeId(1), to: NodeId(3), capacity: 4, valid_length: true },
    ];
    let mut outgoing = IdMap::new();
    outgoing.insert(0, vec![SegmentId(0)]);
    outgoing.insert(1, vec![SegmentId(1), SegmentId(2)]);
    ScenarioShape {
        nodes,
        segments,
        outgoing,
        spawns: vec![SpawnShape { id: VehicleId(0), release_tick: 0, origin: NodeId(0), destination: NodeId(2) }],
        duration_ticks: 180,
    }
}

#[test]
fn paths_follow_the_segments() {
    let scenario = shape();
    assert!(has_path(&scenario, NodeId(0), NodeId(2)));
    assert!(has_path(&scenario, NodeId(0), NodeId(3)));
    assert!(has_path(&scenario, NodeId(2), NodeId(2)));
    assert!(!has_path(&scenario, NodeId(2), NodeId(0)));
    assert!(!has_path(&scenario, NodeId(3), NodeId(2)));
}

#[test]
fn sound_scenario_passes() {
    assert_eq!(validate_scenario(&shape()), Ok(()));
}

#[test]
fn every_issue_is_reported_in_order() {
    let mut scenario = shape();
    scenario.segments.push(SegmentShape { id: SegmentId(3), from: NodeId(9), to: NodeId(2), capacity: 0, valid_length: false });
    scenario.spawns.push(SpawnShape { id: VehicleId(1), release_tick: 200, origin: NodeId(2), destination: NodeId(7) });
    let issues = validate_scenario(&scenario).expect_err("the scenario has issues");
    let codes: Vec<&str> = issues.iter().map(|issue| issue.code.as_str()).collect();
    assert_eq!(
        codes,
        vec![
            "segment-missing-origin",
            "segment-invalid-length",
            "segment-zero-capacity",
            "spawn-destination-missing",
            "spawn-release-out-of-range",
            "spawn-unroutable",
        ]
    );
    assert_eq!(issues[0].message, "El tramo SegmentId(3) referencia un origen inexistente.");
    assert_eq!(issues[3].message, "El destino NodeId(7) no existe.");
    assert_eq!(issues[4].message, "El spawn VehicleId(1) queda fuera de la duración del escenario.");
    assert_eq!(issues[5].message, "No existe ruta desde NodeId(2) hasta NodeId(7).");
}

#[test]
fn empty_network_and_stranded_source_are_reported() {
    let empty = ScenarioShape { nodes: vec![], segments: vec![], outgoing: IdMap::new(), spawns: vec![], duration_ticks: 10 };
    let issues = validate_scenario(&empty).expect_err("an empty network is refused");
    assert_eq!(issues.len(), 1);
    assert_eq!(issues[0].code, "graph-empty");
    assert_eq!(issues[0].message, "La red no contiene nodos.");

    let mut stranded = shape();
    stranded.nodes.push(NodeShape { id: NodeId(4), kind: NodeKind::Source });
    let issues = validate_scenario(&stranded).expect_err("a source without a way out is refused");
    assert_eq!(issues[0].code, "source-without-outgoing");
    assert_eq!(issues[0].message, "El nodo fuente NodeId(4) no tiene tramos de salida.");
}

#[test]
fn the_first_signal_at_a_node_decides_whether_it_stops_traffic() {
    let timing = SignalTiming { green_ticks: 2, yellow_ticks: 1, red_ticks: 2 };
    let red = TrafficSignal::new(SignalId(0), NodeId(1), timing);
    let mut green = TrafficSignal::new(SignalId(1), NodeId(2), timing);
    green.phase = SignalPhase::Green;
    let mut yellow = TrafficSignal::new(SignalId(2), NodeId(3), timing);
    yellow.phase = SignalPhase::Yellow;
    let mut later_green = TrafficSignal::new(SignalId(3), NodeId(1), timing);
    later_green.phase = SignalPhase::Green;
    let signals = vec![red, green, yellow, later_green];
    assert!(node_has_red_signal(&signals, NodeId(1)));
    assert!(!node_has_red_signal(&signals, NodeId(2)));
    assert!(node_has_red_signal(&signals, NodeId(3)));
    assert!(!node_has_red_signal(&signals, NodeId(4)));
    assert!(!node_has_red_signal(&[], NodeId(1)));
}

#[test]
fn advancing_engine_signals_reports_each_change() {
    let timing = SignalTiming { green_ticks: 2, yellow_ticks: 1, red_ticks: 1 };
    let red = TrafficSignal::new(SignalId(3), NodeId(1), timing);
    let mut green = TrafficSignal::new(SignalId(7), NodeId(2), timing);
    green.phase = SignalPhase::Green;
    let mut signals = vec![red, green];
    let mut events = Vec::new();
    advance_signals(&mut signals, 5, &mut events);
    assert_eq!(signals[0].phase, SignalPhase::Green);
    assert_eq!(signals[0].phase_tick, 0);
    assert_eq!(signals[1].phase, SignalPhase::Green);
    assert_eq!(signals[1].phase_tick, 1);
    assert_eq!(events.len(), 1);
    assert_eq!(events[0].tick, 5);
    assert_eq!(events[0].kind, EventKind::SignalChanged);
    assert_eq!(events[0].entity, Some("3".to_string()));
    assert_eq!(events[0].message, "Semáforo SignalId(3) cambió a Green");
}
