use traffic_simulator::console::{event_line, header_lines, node_label, pad2, road_label, tick_summary_line};
use traffic_simulator::model::{Network, Node, NodeKind, RoadSegment, VehicleSpawn};
use traffic_simulator::simulation::{Simulation, SimulationEvent};
use traffic_simulator::build_demo_simulation;
use traffic_simulator::window::SimulatorWindow;

fn small_network() -> Network {
    let mut network = Network::new();
    network.add_node(Node::new(1, "Origen", NodeKind::Entry));
    network.add_node(Node::new(2, "Destino", NodeKind::Exit));
    network.add_road(RoadSegment::new(7, "Camino", 1, 2, 4, 2, 1));
    network
}

#[test]
fn ticks_are_written_with_two_digits() {
    assert_eq!(pad2(0), "00");
    assert_eq!(pad2(7), "07");
    assert_eq!(pad2(10), "10");
    assert_eq!(pad2(123), "123");
}

#[test]
fn labels_fall_back_to_numbers() {
    let network = small_network();
    assert_eq!(node_label(&network, 1), "Origen");
    assert_eq!(node_label(&network, 42), "Nodo 42");
    assert_eq!(road_label(&network, 7), "Camino");
    assert_eq!(road_label(&network, 9), "Tramo 9");
}

#[test]
fn header_describes_the_demo_network() {
    let simulation = build_demo_simulation();
    let lines = header_lines(&simulation);
    assert_eq!(
        lines,
        vec![
            "Simulador de trafico en Rust".to_string(),
            "Red inicial: 4 nodos, 5 tramos".to_string(),
            "Modelo: red de nodos, tramos con colas y semaforos por fases".to_string(),
            String::new(),
        ]
    );
}

#[test]
fn event_lines_name_nodes_and_roads() {
    let simulation = Simulation::new(small_network());
    let spawned = SimulationEvent::Spawned {
        vehicle_id: 3,
        name: "Auto".to_string(),
        origin: 1,
        destination: 2,
        route: vec![7],
    };
    assert_eq!(event_line(&simulation, &spawned), "[tick 00] sale #3 Auto desde Origen hacia Destino por Camino");

    let failed = SimulationEvent::SpawnFailed {
        name: "Bus".to_string(),
        origin: 1,
        destination: 5,
        reason: "sin ruta".to_string(),
    };
    assert_eq!(event_line(&simulation, &failed), "[tick 00] no se pudo crear Bus (Origen) -> (Nodo 5) : sin ruta");

    let entered = SimulationEvent::EnteredRoad { vehicle_id: 3, road_id: 7, lane_index: 1 };
    assert_eq!(event_line(&simulation, &entered), "[tick 00] vehiculo #3 entra en Camino (carril 2)");

    let rerouted = SimulationEvent::Rerouted {
        vehicle_id: 3,
        node_id: 1,
        avoided_road: 8,
        new_route: vec![],
        reason: "bloqueo".to_string(),
    };
    assert_eq!(
        event_line(&simulation, &rerouted),
        "[tick 00] vehiculo #3 reruta en Origen evitando Tramo 8 por sin tramos (bloqueo)"
    );

    let emergency = SimulationEvent::EmergencyEnteredRoad {
        vehicle_id: 4,
        road_id: 7,
        lane_index: 0,
        reason: "espera".to_string(),
    };
    assert_eq!(
        event_line(&simulation, &emergency),
        "[tick 00] vehiculo #4 entra en Camino (carril 1) por emergencia: espera"
    );

    let signal = SimulationEvent::SignalChanged { node_id: 2, phase_name: "Verde".to_string() };
    assert_eq!(event_line(&simulation, &signal), "[tick 00] semaforo en Destino cambia a Verde");

    let reached = SimulationEvent::ReachedNode { vehicle_id: 3, node_id: 2 };
    assert_eq!(event_line(&simulation, &reached), "[tick 00] vehiculo #3 llega a Destino");

    let completed = SimulationEvent::Completed { vehicle_id: 3, destination: 2, wait_time: 1, travel_time: 12 };
    assert_eq!(
        event_line(&simulation, &completed),
        "[tick 00] vehiculo #3 termina en Destino (espera 1, viaje 12)"
    );
}

#[test]
fn summary_counts_active_and_completed_vehicles() {
    let mut simulation = Simulation::new(small_network());
    simulation.schedule_spawn(VehicleSpawn::new(0, "Auto", 1, 2));
    simulation.step();
    assert_eq!(tick_summary_line(&simulation), "[tick 01] activos=1, completados=0");
    simulation.run_until_idle(20);
    let line = tick_summary_line(&simulation);
    assert!(line.ends_with("activos=0, completados=1"));
}

#[test]
fn simulator_window_holds_no_state() {
    assert_eq!(SimulatorWindow::new(), SimulatorWindow {});
}
