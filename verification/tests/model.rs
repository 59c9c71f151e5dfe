use traffic_simulator::model::{Network, Node, NodeKind, RoadSegment, SignalPhase, SignalPlan, Vehicle, VehicleSpawn, VehicleStatus, VehicleType};
use traffic_simulator::text::decimal;

#[test]
fn travel_time_is_at_least_one_second() {
    let instant = RoadSegment::new(1, "Corto", 1, 2, 0, 1, 1);
    assert_eq!(instant.travel_time_seconds(), 1);
    let road = RoadSegment::new(2, "Largo", 1, 2, 34, 2, 3);
    assert_eq!(road.travel_time_seconds(), 34);
    assert_eq!(road.total_capacity(), 6);
}

#[test]
fn priority_ranks_follow_the_vehicle_types() {
    assert_eq!(VehicleType::Emergency.priority_rank(), 0);
    assert_eq!(VehicleType::Bus.priority_rank(), 1);
    assert_eq!(VehicleType::Car.priority_rank(), 2);
    assert_eq!(VehicleType::Truck.priority_rank(), 3);
    assert_eq!(VehicleType::Motorcycle.priority_rank(), 4);
}

#[test]
fn new_vehicle_waits_at_its_origin() {
    let vehicle = Vehicle::new(7, "Auto", 1, 3, vec![10, 11]);
    assert_eq!(vehicle.status, VehicleStatus::WaitingAtNode(1));
    assert_eq!(vehicle.vehicle_type, VehicleType::Car);
    assert_eq!(vehicle.next_road_index, 0);
    assert_eq!(vehicle.total_wait_time, 0);
    assert!(!vehicle.is_finished());
    let bus = Vehicle::with_type(8, "Bus", 1, 3, vec![], VehicleType::Bus);
    assert_eq!(bus.vehicle_type, VehicleType::Bus);
}

#[test]
fn spawn_defaults_to_a_car() {
    let spawn = VehicleSpawn::new(3, "Auto", 1, 2);
    assert_eq!(spawn.departure_tick, 3);
    assert_eq!(spawn.vehicle_type, VehicleType::Car);
    let truck = VehicleSpawn::with_type(4, "Camion", 1, 2, VehicleType::Truck);
    assert_eq!(truck.vehicle_type, VehicleType::Truck);
}

#[test]
fn adding_a_road_lists_it_on_both_ends() {
    let mut network = Network::new();
    network.add_node(Node::new(1, "A", NodeKind::Entry));
    network.add_node(Node::new(2, "B", NodeKind::Exit));
    network.add_road(RoadSegment::new(5, "A-B", 1, 2, 3, 1, 1));
    assert_eq!(network.node(1).unwrap().outbound_roads, vec![5]);
    assert_eq!(network.node(2).unwrap().inbound_roads, vec![5]);
    assert_eq!(network.node_count(), 2);
    assert_eq!(network.road_count(), 1);
    assert!(network.road(6).is_none());
}

#[test]
fn signal_plan_keeps_its_phases() {
    let plan = SignalPlan::new(vec![
        SignalPhase::new("Norte", 4, vec![1]),
        SignalPhase::new("Este", 2, vec![2, 3]),
    ]);
    assert_eq!(plan.phases.len(), 2);
    assert_eq!(plan.phases[1].name, "Este");
    assert_eq!(plan.phases[1].duration, 2);
    assert_eq!(plan.phases[1].allowed_roads, vec![2, 3]);
    let node = Node::new(9, "Cruce", NodeKind::TrafficLight).with_signal_plan(plan);
    assert!(node.signal_plan.is_some());
}

#[test]
fn numbers_are_written_in_decimal() {
    assert_eq!(decimal(0), "0");
    assert_eq!(decimal(7), "7");
    assert_eq!(decimal(1234), "1234");
    assert_eq!(decimal(4294967295), "4294967295");
}
