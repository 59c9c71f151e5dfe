use traffic_simulator::{build_demo_network, build_demo_schedule, build_demo_simulation, SimulationEvent};

#[test]
fn demo_network_has_four_nodes_and_five_roads() {
    let network = build_demo_network();
    assert_eq!(network.node_count(), 4);
    assert_eq!(network.road_count(), 5);
    assert_eq!(network.road(1).unwrap().travel_time_seconds(), 34);
    assert_eq!(network.road(5).unwrap().name, "Ruta Lateral");
    assert_eq!(network.shortest_route(1, 4), Some(vec![1, 2]));
}

#[test]
fn demo_schedule_sends_seven_cars() {
    let schedule = build_demo_schedule();
    assert_eq!(schedule.len(), 7);
    assert_eq!(schedule[3].destination, 3);
    assert_eq!(schedule[6].departure_tick, 6);
}

#[test]
fn demo_signal_changes_phase_after_four_ticks() {
    let mut simulation = build_demo_simulation();
    let mut changes = Vec::new();
    for _ in 0..4 {
        for event in simulation.step() {
            if let SimulationEvent::SignalChanged { node_id, phase_name } = event {
                changes.push((simulation.tick(), node_id, phase_name));
            }
        }
    }
    assert_eq!(changes, vec![(4, 2, "Paso lateral".to_string())]);
}

#[test]
fn demo_simulation_starts_with_every_spawn_ahead() {
    let simulation = build_demo_simulation();
    assert_eq!(simulation.tick(), 0);
    assert!(!simulation.is_idle());
    assert_eq!(simulation.report().vehicles_total, 0);
}

#[test]
fn demo_signal_completes_a_round_every_six_ticks() {
    // Phases of 4 and 2 ticks: the light changes after ticks 4, 6, 10 and 12.
    let mut simulation = build_demo_simulation();
    let mut changes = Vec::new();
    for _ in 0..12 {
        for event in simulation.step() {
            if let SimulationEvent::SignalChanged { phase_name, .. } = event {
                changes.push((simulation.tick(), phase_name));
            }
        }
    }
    assert_eq!(
        changes,
        vec![
            (4, "Paso lateral".to_string()),
            (6, "Paso principal".to_string()),
            (10, "Paso lateral".to_string()),
            (12, "Paso principal".to_string()),
        ]
    );
}

#[test]
fn demo_run_finishes_every_vehicle() {
    let mut simulation = build_demo_simulation();
    simulation.run_until_idle(1000);
    assert!(simulation.is_idle());
    let report = simulation.report();
    assert_eq!(report.vehicles_total, 7);
    assert_eq!(report.vehicles_completed, 7);
    assert_eq!(report.vehicles_active, 0);
}
