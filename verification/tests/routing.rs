use traffic_simulator::model::{Network, Node, NodeKind, RoadSegment};
use traffic_simulator::routing::{shortest_route, shortest_route_filtered};

fn three_node_network() -> Network {
    let mut network = Network::new();
    network.add_node(Node::new(1, "Origen", NodeKind::Entry));
    network.add_node(Node::new(2, "Intermedio", NodeKind::Intersection));
    network.add_node(Node::new(3, "Destino", NodeKind::Exit));

    // 100 m at 50 km/h take 8 s (7.2 rounded up); 300 m take 22 s.
    network.add_road(RoadSegment::new(10, "Via A", 1, 2, 8, 1, 1));
    network.add_road(RoadSegment::new(11, "Via B", 2, 3, 8, 1, 1));
    network.add_road(RoadSegment::new(12, "Via directa", 1, 3, 22, 1, 1));
    network
}

#[test]
fn model_shortest_route_prefers_faster_path() {
    let network = three_node_network();
    let route = network.shortest_route(1, 3).expect("route should exist");
    assert_eq!(route, vec![10, 11]);
    assert_eq!(network.describe_route(&route), "Via A -> Via B");
}

#[test]
fn routing_shortest_route_prefers_faster_path() {
    let network = three_node_network();
    let route = network.shortest_route(1, 3).expect("route should exist");
    assert_eq!(route, vec![10, 11]);
    assert_eq!(network.describe_route(&route), "Via A -> Via B");
}

#[test]
fn route_from_a_node_to_itself_is_empty() {
    let network = three_node_network();
    assert_eq!(network.shortest_route(2, 2), Some(vec![]));
    assert_eq!(network.describe_route(&[]), "sin tramos");
}

#[test]
fn no_route_against_the_direction_of_the_roads() {
    let network = three_node_network();
    assert_eq!(network.shortest_route(3, 1), None);
}

#[test]
fn filtered_route_avoids_the_excluded_road() {
    let network = three_node_network();
    let route = network.shortest_route_filtered(1, 3, |road_id, _road: &RoadSegment| road_id != 10);
    assert_eq!(route, Some(vec![12]));
    let none = network.shortest_route_filtered(1, 3, |_road_id, _road: &RoadSegment| false);
    assert_eq!(none, None);
}

#[test]
fn slower_direct_road_wins_when_it_is_faster() {
    let mut network = three_node_network();
    network.add_road(RoadSegment::new(12, "Via directa", 1, 3, 15, 1, 1));
    assert_eq!(network.shortest_route(1, 3), Some(vec![12]));
}

#[test]
fn equal_costs_settle_the_greater_node_first() {
    // Two routes of equal cost through node 2 and node 4: the search settles
    // node 4 first among equals and reaches the goal from there.
    let mut network = Network::new();
    network.add_node(Node::new(1, "A", NodeKind::Entry));
    network.add_node(Node::new(2, "B", NodeKind::Intersection));
    network.add_node(Node::new(4, "C", NodeKind::Intersection));
    network.add_node(Node::new(5, "D", NodeKind::Exit));
    network.add_road(RoadSegment::new(1, "A-B", 1, 2, 5, 1, 1));
    network.add_road(RoadSegment::new(2, "A-C", 1, 4, 5, 1, 1));
    network.add_road(RoadSegment::new(3, "B-D", 2, 5, 5, 1, 1));
    network.add_road(RoadSegment::new(4, "C-D", 4, 5, 5, 1, 1));
    let route = network.shortest_route(1, 5).expect("route should exist");
    assert_eq!(route, vec![2, 4]);
}

#[test]
fn free_route_functions_agree_with_the_methods() {
    let network = three_node_network();
    assert_eq!(shortest_route(&network, 1, 3), Some(vec![10, 11]));
    assert_eq!(shortest_route(&network, 3, 1), None);
    assert_eq!(
        shortest_route_filtered(&network, 1, 3, |road_id, _road: &RoadSegment| road_id != 11),
        Some(vec![12])
    );
}

fn diamond_network() -> Network {
    let mut network = Network::new();
    network.add_node(Node::new(1, "Origen", NodeKind::Entry));
    network.add_node(Node::new(2, "Norte", NodeKind::Intersection));
    network.add_node(Node::new(3, "Sur", NodeKind::Intersection));
    network.add_node(Node::new(4, "Destino", NodeKind::Exit));
    network.add_road(RoadSegment::new(1, "Norte entrada", 1, 2, 5, 1, 1));
    network.add_road(RoadSegment::new(2, "Sur entrada", 1, 3, 5, 1, 1));
    network.add_road(RoadSegment::new(3, "Norte salida", 2, 4, 5, 1, 1));
    network.add_road(RoadSegment::new(4, "Sur salida", 3, 4, 5, 1, 1));
    network
}

#[test]
fn equally_quick_routes_go_through_the_greater_node() {
    let network = diamond_network();
    assert_eq!(network.shortest_route(1, 4), Some(vec![2, 4]));
    assert_eq!(shortest_route(&network, 1, 4), Some(vec![2, 4]));
}

#[test]
fn equally_quick_roads_from_one_node_keep_the_first_listed() {
    let mut network = Network::new();
    network.add_node(Node::new(1, "Origen", NodeKind::Entry));
    network.add_node(Node::new(2, "Destino", NodeKind::Exit));
    network.add_road(RoadSegment::new(7, "Primera", 1, 2, 5, 1, 1));
    network.add_road(RoadSegment::new(3, "Segunda", 1, 2, 5, 1, 1));
    assert_eq!(network.shortest_route(1, 2), Some(vec![7]));
}
