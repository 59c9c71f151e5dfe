use traffic_simulator::model::{Network, Node, NodeKind, RoadSegment, Vehicle, VehicleSpawn, VehicleStatus};
use traffic_simulator::simulation::{Simulation, SimulationEvent};

fn one_road_network() -> Network {
    let mut network = Network::new();
    network.add_node(Node::new(1, "Origen", NodeKind::Entry));
    network.add_node(Node::new(2, "Destino", NodeKind::Exit));
    // 60 m at 60 km/h take 4 s (3.6 rounded up).
    network.add_road(RoadSegment::new(1, "Camino", 1, 2, 4, 1, 1));
    network
}

#[test]
fn vehicle_completes_a_simple_route() {
    let mut simulation = Simulation::new(one_road_network());
    simulation.schedule_spawn(VehicleSpawn::new(0, "Auto 1", 1, 2));

    simulation.run_until_idle(10);

    assert_eq!(simulation.completed_vehicle_count(), 1);
    assert!(simulation.is_idle());
}

#[test]
fn vehicle_waits_at_least_one_tick_before_departing_a_node() {
    let mut simulation = Simulation::new(one_road_network());
    simulation.schedule_spawn(VehicleSpawn::new(0, "Auto 1", 1, 2));

    let first_tick_events = simulation.step();
    assert!(first_tick_events.iter().any(|event| matches!(event, SimulationEvent::Spawned { .. })));
    assert_eq!(simulation.active_vehicle_count(), 1);
    assert_eq!(simulation.completed_vehicle_count(), 0);

    let second_tick_events = simulation.step();
    assert!(second_tick_events.iter().any(|event| matches!(event, SimulationEvent::EnteredRoad { .. })));
}

#[test]
fn deadlock_threshold_triggers_emergency_escape() {
    let mut network = Network::new();
    network.add_node(Node::new(1, "Origen", NodeKind::Entry));
    network.add_node(Node::new(2, "Interseccion", NodeKind::Intersection));
    network.add_node(Node::new(3, "Destino", NodeKind::Exit));
    network.add_node(Node::new(4, "Desvio", NodeKind::Intersection));

    // 60 m at 30 km/h take 8 s (7.2 rounded up).
    network.add_road(RoadSegment::new(1, "Principal", 1, 2, 8, 1, 1));
    network.add_road(RoadSegment::new(2, "Atascada", 2, 3, 8, 1, 1));
    network.add_road(RoadSegment::new(3, "Desvio", 2, 4, 8, 1, 1));
    network.add_road(RoadSegment::new(4, "Retorno", 4, 3, 8, 1, 1));

    let mut simulation = Simulation::new(network);
    simulation.set_deadlock_wait_threshold(2);

    let mut vehicle = Vehicle::new(1, "Auto 1", 1, 3, vec![2]);
    vehicle.status = VehicleStatus::WaitingAtNode(2);
    vehicle.waiting_ticks_at_node = 2;
    vehicle.queued_release_tick = 0;
    assert!(simulation.insert_vehicle(vehicle));

    // The only lane of "Atascada" is taken by another vehicle.
    let mut blocker = Vehicle::new(99, "Bloqueo", 2, 3, vec![2]);
    blocker.next_road_index = 1;
    blocker.status = VehicleStatus::OnRoad { road_id: 2, lane_index: 0, remaining_time: 8 };
    assert!(simulation.insert_vehicle(blocker));

    let mut events = Vec::new();
    simulation.release_node_queues(&mut events);

    assert!(events.iter().any(|event| matches!(event, SimulationEvent::Rerouted { .. })));
    assert!(events.iter().any(|event| matches!(event, SimulationEvent::EmergencyEnteredRoad { .. })));

    let vehicle = simulation.vehicle(1).expect("vehicle should still exist");
    assert!(matches!(vehicle.status, VehicleStatus::OnRoad { road_id: 3, .. }));
}

#[test]
fn fresh_simulation_is_idle() {
    let simulation = Simulation::new(one_road_network());
    assert!(simulation.is_idle());
    assert_eq!(simulation.tick(), 0);
    assert_eq!(simulation.active_vehicle_count(), 0);
    assert_eq!(simulation.completed_vehicle_count(), 0);
}

#[test]
fn scheduled_spawn_keeps_the_simulation_busy() {
    let mut simulation = Simulation::new(one_road_network());
    simulation.schedule_spawn(VehicleSpawn::new(3, "Auto 1", 1, 2));
    assert!(!simulation.is_idle());
}

#[test]
fn step_moves_the_clock_by_one_tick() {
    let mut simulation = Simulation::new(one_road_network());
    simulation.step();
    simulation.step();
    assert_eq!(simulation.tick(), 2);
}

#[test]
fn spawns_leave_in_order_of_departure() {
    let mut simulation = Simulation::new(one_road_network());
    simulation.schedule_spawn(VehicleSpawn::new(1, "Segundo", 1, 2));
    simulation.schedule_spawn(VehicleSpawn::new(0, "Primero", 1, 2));

    let first = simulation.step();
    let names: Vec<String> = first
        .iter()
        .filter_map(|event| match event {
            SimulationEvent::Spawned { name, .. } => Some(name.clone()),
            _ => None,
        })
        .collect();
    assert_eq!(names, vec!["Primero".to_string()]);

    let second = simulation.step();
    assert!(second.iter().any(|event| matches!(event, SimulationEvent::Spawned { name, vehicle_id: 2, .. } if name == "Segundo")));
}

#[test]
fn spawn_without_route_is_reported() {
    let mut simulation = Simulation::new(one_road_network());
    simulation.schedule_spawn(VehicleSpawn::new(0, "Perdido", 2, 1));
    let events = simulation.step();
    assert_eq!(events.len(), 1);
    match &events[0] {
        SimulationEvent::SpawnFailed { name, origin, destination, reason } => {
            assert_eq!(name, "Perdido");
            assert_eq!(*origin, 2);
            assert_eq!(*destination, 1);
            assert_eq!(reason, "no route found");
        }
        other => panic!("unexpected event {:?}", other),
    }
    assert!(simulation.is_idle());
}

#[test]
fn single_vehicle_timeline() {
    let mut simulation = Simulation::new(one_road_network());
    simulation.schedule_spawn(VehicleSpawn::new(0, "Auto 1", 1, 2));

    // tick 0: the vehicle enters the queue of its origin.
    simulation.step();
    // tick 1: it has waited one tick and takes the road (4 s to drive).
    let events = simulation.step();
    assert!(events.iter().any(|event| matches!(event, SimulationEvent::EnteredRoad { vehicle_id: 1, road_id: 1, lane_index: 0 })));

    let mut completed = None;
    for _ in 0..10 {
        for event in simulation.step() {
            if let SimulationEvent::Completed { vehicle_id, destination, wait_time, travel_time } = event {
                completed = Some((vehicle_id, destination, wait_time, travel_time, simulation.tick()));
            }
        }
        if completed.is_some() {
            break;
        }
    }
    let (vehicle_id, destination, _wait_time, travel_time, _tick) = completed.expect("vehicle should finish");
    assert_eq!(vehicle_id, 1);
    assert_eq!(destination, 2);
    assert!(travel_time >= 4);
    assert_eq!(simulation.completed_vehicle_count(), 1);
    assert_eq!(simulation.active_vehicle_count(), 0);
}

#[test]
fn counts_add_up_to_the_vehicles_that_entered() {
    let mut simulation = Simulation::new(one_road_network());
    for tick in 0..4 {
        simulation.schedule_spawn(VehicleSpawn::new(tick, "Auto", 1, 2));
    }
    for _ in 0..6 {
        simulation.step();
        let report = simulation.report();
        assert_eq!(report.vehicles_active + report.vehicles_completed, report.vehicles_total);
        assert_eq!(report.ticks_run, simulation.tick());
    }
}

#[test]
fn run_until_idle_stops_early_on_an_idle_simulation() {
    let mut simulation = Simulation::new(one_road_network());
    simulation.schedule_spawn(VehicleSpawn::new(0, "Auto 1", 1, 2));
    simulation.run_until_idle(100);
    assert!(simulation.is_idle());
    assert!(simulation.tick() < 100);
    let report = simulation.report();
    assert_eq!(report.vehicles_total, 1);
    assert_eq!(report.vehicles_completed, 1);
    assert_eq!(report.vehicles_active, 0);
}

#[test]
fn run_until_idle_with_no_ticks_does_nothing() {
    let mut simulation = Simulation::new(one_road_network());
    simulation.schedule_spawn(VehicleSpawn::new(0, "Auto 1", 1, 2));
    let events = simulation.run_until_idle(0);
    assert!(events.is_empty());
    assert_eq!(simulation.tick(), 0);
}

#[test]
fn insert_vehicle_refuses_a_taken_identifier() {
    let mut simulation = Simulation::new(one_road_network());
    assert!(simulation.insert_vehicle(Vehicle::new(5, "A", 1, 2, vec![1])));
    assert!(!simulation.insert_vehicle(Vehicle::new(5, "B", 1, 2, vec![1])));
    assert!(!simulation.insert_vehicle(Vehicle::new(6, "C", 1, 2, vec![7])));
    simulation.schedule_spawn(VehicleSpawn::new(0, "Nuevo", 1, 2));
    let events = simulation.step();
    assert!(events.iter().any(|event| matches!(event, SimulationEvent::Spawned { vehicle_id: 6, .. })));
}

#[test]
fn full_road_holds_vehicles_at_the_node() {
    let mut simulation = Simulation::new(one_road_network());
    simulation.schedule_spawn(VehicleSpawn::new(0, "Auto 1", 1, 2));
    simulation.schedule_spawn(VehicleSpawn::new(0, "Auto 2", 1, 2));
    simulation.step();
    let events = simulation.step();
    let entered = events
        .iter()
        .filter(|event| matches!(event, SimulationEvent::EnteredRoad { .. }))
        .count();
    assert_eq!(entered, 1);
}

fn road_vehicle(id: usize, remaining_time: u32) -> Vehicle {
    let mut vehicle = Vehicle::new(id, "Auto", 1, 2, vec![1]);
    vehicle.next_road_index = 1;
    vehicle.status = VehicleStatus::OnRoad { road_id: 1, lane_index: 0, remaining_time };
    vehicle
}

fn two_lane_network() -> Network {
    let mut network = Network::new();
    network.add_node(Node::new(1, "Origen", NodeKind::Entry));
    network.add_node(Node::new(2, "Destino", NodeKind::Exit));
    network.add_road(RoadSegment::new(1, "Camino", 1, 2, 4, 1, 3));
    network
}

#[test]
fn only_the_front_of_a_lane_moves() {
    let mut simulation = Simulation::new(two_lane_network());
    assert!(simulation.insert_vehicle(road_vehicle(1, 3)));
    assert!(simulation.insert_vehicle(road_vehicle(2, 3)));
    let mut events = Vec::new();
    simulation.advance_road_fronts(&mut events);
    assert!(events.is_empty());
    assert_eq!(
        simulation.vehicle(1).unwrap().status,
        VehicleStatus::OnRoad { road_id: 1, lane_index: 0, remaining_time: 2 }
    );
    assert_eq!(
        simulation.vehicle(2).unwrap().status,
        VehicleStatus::OnRoad { road_id: 1, lane_index: 0, remaining_time: 3 }
    );
}

#[test]
fn a_front_with_no_time_left_leaves_the_road() {
    let mut simulation = Simulation::new(two_lane_network());
    assert!(simulation.insert_vehicle(road_vehicle(1, 1)));
    assert!(simulation.insert_vehicle(road_vehicle(2, 1)));
    let mut events = Vec::new();
    simulation.advance_road_fronts(&mut events);
    assert_eq!(events.len(), 1);
    assert!(matches!(events[0], SimulationEvent::Completed { vehicle_id: 1, destination: 2, .. }));
    assert_eq!(simulation.vehicle(1).unwrap().status, VehicleStatus::Finished);
    // The vehicle behind is now at the front but is not moved in the same pass.
    assert_eq!(
        simulation.vehicle(2).unwrap().status,
        VehicleStatus::OnRoad { road_id: 1, lane_index: 0, remaining_time: 1 }
    );
}

#[test]
fn a_vehicle_arriving_at_a_node_joins_its_queue() {
    let mut network = two_lane_network();
    network.add_node(Node::new(3, "Final", NodeKind::Exit));
    network.add_road(RoadSegment::new(2, "Siguiente", 2, 3, 4, 1, 1));
    let mut simulation = Simulation::new(network);
    let mut vehicle = Vehicle::new(1, "Auto", 1, 3, vec![1, 2]);
    vehicle.next_road_index = 1;
    vehicle.status = VehicleStatus::OnRoad { road_id: 1, lane_index: 0, remaining_time: 1 };
    assert!(simulation.insert_vehicle(vehicle));
    let events = simulation.step();
    assert!(events.iter().any(|event| matches!(event, SimulationEvent::ReachedNode { vehicle_id: 1, node_id: 2 })));
    let vehicle = simulation.vehicle(1).unwrap();
    assert_eq!(vehicle.status, VehicleStatus::WaitingAtNode(2));
    assert_eq!(vehicle.queued_release_tick, 1);
    assert_eq!(vehicle.waiting_ticks_at_node, 0);
    assert_eq!(vehicle.total_travel_time, 1);
    // It leaves on the following tick.
    let events = simulation.step();
    assert!(events.iter().any(|event| matches!(event, SimulationEvent::EnteredRoad { vehicle_id: 1, road_id: 2, .. })));
}

#[test]
fn a_finished_vehicle_stays_as_it_finished() {
    let mut simulation = Simulation::new(one_road_network());
    simulation.schedule_spawn(VehicleSpawn::new(0, "Auto 1", 1, 2));
    simulation.run_until_idle(20);
    let finished = simulation.vehicle(1).unwrap().clone();
    assert_eq!(finished.status, VehicleStatus::Finished);
    for _ in 0..5 {
        simulation.step();
    }
    let later = simulation.vehicle(1).unwrap();
    assert_eq!(later.status, VehicleStatus::Finished);
    assert_eq!(later.total_wait_time, finished.total_wait_time);
    assert_eq!(later.total_travel_time, finished.total_travel_time);
}

#[test]
fn jammed_vehicle_without_a_way_around_is_forced_on() {
    let mut network = Network::new();
    network.add_node(Node::new(1, "Origen", NodeKind::Entry));
    network.add_node(Node::new(2, "Interseccion", NodeKind::Intersection));
    network.add_node(Node::new(3, "Destino", NodeKind::Exit));
    network.add_road(RoadSegment::new(1, "Principal", 1, 2, 8, 1, 1));
    network.add_road(RoadSegment::new(2, "Atascada", 2, 3, 8, 1, 1));

    let mut simulation = Simulation::new(network);
    simulation.set_deadlock_wait_threshold(2);

    let mut vehicle = Vehicle::new(1, "Auto 1", 1, 3, vec![2]);
    vehicle.status = VehicleStatus::WaitingAtNode(2);
    vehicle.waiting_ticks_at_node = 2;
    assert!(simulation.insert_vehicle(vehicle));
    let mut blocker = Vehicle::new(99, "Bloqueo", 2, 3, vec![2]);
    blocker.next_road_index = 1;
    blocker.status = VehicleStatus::OnRoad { road_id: 2, lane_index: 0, remaining_time: 8 };
    assert!(simulation.insert_vehicle(blocker));

    let mut events = Vec::new();
    simulation.release_node_queues(&mut events);
    assert_eq!(events.len(), 2);
    match &events[0] {
        SimulationEvent::Rerouted { vehicle_id, node_id, avoided_road, new_route, reason } => {
            assert_eq!((*vehicle_id, *node_id, *avoided_road), (1, 2, 2));
            assert_eq!(new_route, &vec![2]);
            assert_eq!(reason, "liberación forzada tras 2 ticks");
        }
        other => panic!("unexpected event {:?}", other),
    }
    match &events[1] {
        SimulationEvent::EmergencyEnteredRoad { vehicle_id, road_id, lane_index, reason } => {
            assert_eq!((*vehicle_id, *road_id, *lane_index), (1, 2, 0));
            assert_eq!(reason, "liberación de emergencia por atasco");
        }
        other => panic!("unexpected event {:?}", other),
    }
    // The lane now holds two vehicles although it takes one.
    assert!(matches!(simulation.vehicle(1).unwrap().status, VehicleStatus::OnRoad { road_id: 2, lane_index: 0, .. }));
}

#[test]
fn reroute_reports_the_long_wait() {
    let mut network = Network::new();
    network.add_node(Node::new(2, "Interseccion", NodeKind::Intersection));
    network.add_node(Node::new(3, "Destino", NodeKind::Exit));
    network.add_node(Node::new(4, "Desvio", NodeKind::Intersection));
    network.add_road(RoadSegment::new(2, "Atascada", 2, 3, 8, 1, 1));
    network.add_road(RoadSegment::new(3, "Desvio", 2, 4, 8, 1, 1));
    network.add_road(RoadSegment::new(4, "Retorno", 4, 3, 8, 1, 1));
    let mut simulation = Simulation::new(network);
    simulation.set_deadlock_wait_threshold(3);
    let mut vehicle = Vehicle::new(1, "Auto 1", 2, 3, vec![2]);
    vehicle.waiting_ticks_at_node = 3;
    assert!(simulation.insert_vehicle(vehicle));
    let mut blocker = Vehicle::new(99, "Bloqueo", 2, 3, vec![2]);
    blocker.next_road_index = 1;
    blocker.status = VehicleStatus::OnRoad { road_id: 2, lane_index: 0, remaining_time: 8 };
    assert!(simulation.insert_vehicle(blocker));
    let mut events = Vec::new();
    simulation.release_node_queues(&mut events);
    match &events[0] {
        SimulationEvent::Rerouted { new_route, reason, .. } => {
            assert_eq!(new_route, &vec![3, 4]);
            assert_eq!(reason, "espera prolongada de 3 ticks");
        }
        other => panic!("unexpected event {:?}", other),
    }
    match &events[1] {
        SimulationEvent::EmergencyEnteredRoad { road_id, reason, .. } => {
            assert_eq!(*road_id, 3);
            assert_eq!(reason, "ruta de emergencia");
        }
        other => panic!("unexpected event {:?}", other),
    }
    let vehicle = simulation.vehicle(1).unwrap();
    assert_eq!(vehicle.route, vec![3, 4]);
    assert_eq!(vehicle.next_road_index, 1);
}

#[test]
fn queued_vehicles_leave_by_priority() {
    let mut network = Network::new();
    network.add_node(Node::new(1, "Origen", NodeKind::Entry));
    network.add_node(Node::new(2, "Destino", NodeKind::Exit));
    network.add_road(RoadSegment::new(1, "Camino", 1, 2, 4, 1, 1));
    let mut simulation = Simulation::new(network);
    simulation.schedule_spawn(VehicleSpawn::with_type(0, "Auto", 1, 2, traffic_simulator::model::VehicleType::Car));
    simulation.schedule_spawn(VehicleSpawn::with_type(0, "Ambulancia", 1, 2, traffic_simulator::model::VehicleType::Emergency));
    simulation.step();
    let events = simulation.step();
    // The road takes one vehicle: the emergency vehicle goes first.
    assert!(events.iter().any(|event| matches!(event, SimulationEvent::EnteredRoad { vehicle_id: 2, .. })));
    assert!(!events.iter().any(|event| matches!(event, SimulationEvent::EnteredRoad { vehicle_id: 1, .. })));
}

#[test]
fn a_new_vehicle_waits_at_its_origin_until_the_next_tick() {
    let mut simulation = Simulation::new(one_road_network());
    simulation.schedule_spawn(VehicleSpawn::new(0, "Auto 1", 1, 2));
    simulation.step();
    let vehicle = simulation.vehicle(1).expect("the vehicle has entered");
    assert_eq!(vehicle.status, VehicleStatus::WaitingAtNode(1));
    assert_eq!(vehicle.queued_release_tick, 1);
    assert_eq!(vehicle.next_road_index, 0);
    assert_eq!(vehicle.waiting_ticks_at_node, 0);
}

#[test]
fn a_new_vehicle_takes_the_cheapest_route() {
    let mut network = Network::new();
    network.add_node(Node::new(1, "Origen", NodeKind::Entry));
    network.add_node(Node::new(2, "Destino", NodeKind::Exit));
    network.add_node(Node::new(3, "Paso", NodeKind::Intersection));
    network.add_road(RoadSegment::new(1, "Directa", 1, 2, 50, 1, 2));
    network.add_road(RoadSegment::new(2, "Primera", 1, 3, 10, 1, 2));
    network.add_road(RoadSegment::new(3, "Segunda", 3, 2, 10, 1, 2));
    let mut simulation = Simulation::new(network);
    simulation.schedule_spawn(VehicleSpawn::new(0, "Auto 1", 1, 2));
    let events = simulation.step();
    assert!(events.iter().any(|event| matches!(
        event,
        SimulationEvent::Spawned { vehicle_id: 1, origin: 1, destination: 2, route, .. } if route == &vec![2, 3]
    )));
    assert_eq!(simulation.vehicle(1).expect("the vehicle has entered").route, vec![2, 3]);
}

#[test]
fn a_fresh_simulation_can_step() {
    let mut simulation = Simulation::new(one_road_network());
    assert!(simulation.can_step());
    simulation.schedule_spawn(VehicleSpawn::new(0, "Auto 1", 1, 2));
    assert!(!simulation.is_idle());
    simulation.step();
    assert!(simulation.can_step());
}

#[test]
fn run_until_idle_accepts_the_largest_cap_late_in_a_run() {
    let mut simulation = Simulation::new(one_road_network());
    for _ in 0..100 {
        simulation.step();
    }
    assert_eq!(simulation.tick(), 100);
    simulation.schedule_spawn(VehicleSpawn::new(100, "Auto 1", 1, 2));
    simulation.run_until_idle(u32::MAX);
    assert!(simulation.is_idle());
    assert!(simulation.tick() > 100);
    assert!(simulation.tick() < 120);
    assert_eq!(simulation.completed_vehicle_count(), 1);
}
