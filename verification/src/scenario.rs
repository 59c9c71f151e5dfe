//! The demonstration scenario: a small network with one signalled crossing
//! and a schedule of vehicles that cross it.
use vstd::prelude::*;
use vstd::string::*;
use crate::model::{Network, Node, NodeId, NodeKind, RoadId, RoadSegment, SignalPhase, SignalPlan, VehicleSpawn, VehicleType};
use crate::simulation::Simulation;

verus! {

/// Road `r` of `network` runs from `from` to `to`, takes `secs` seconds and
/// has `lanes` lanes of `cap` vehicles each.
pub open spec fn road_is(network: Network, r: RoadId, from: NodeId, to: NodeId, secs: u32, lanes: usize, cap: usize) -> bool {
    &&& network.road_map().contains_key(r)
    &&& network.road_map()[r].from == from
    &&& network.road_map()[r].to == to
    &&& network.road_map()[r].travel_seconds == secs
    &&& network.road_map()[r].lanes == lanes
    &&& network.road_map()[r].capacity_per_lane == cap
}

/// The demonstration network: an entry (1), a signalled crossing (2), a
/// detour (3) and the destination (4), joined by five roads.
pub open spec fn is_demo_network(network: Network) -> bool {
    &&& network.runnable()
    &&& network.node_map().dom() == set![1usize, 2usize, 3usize, 4usize]
    &&& network.road_map().dom() == set![1usize, 2usize, 3usize, 4usize, 5usize]
    &&& network.node_map()[1].kind == NodeKind::Entry
    &&& network.node_map()[2].kind == NodeKind::TrafficLight
    &&& network.node_map()[3].kind == NodeKind::Intersection
    &&& network.node_map()[4].kind == NodeKind::Exit
    &&& network.node_map()[1].signal_plan is None
    &&& network.node_map()[3].signal_plan is None
    &&& network.node_map()[4].signal_plan is None
    &&& network.node_map()[2].signal_plan matches Some(plan) && {
        let phases = plan.phases@;
        &&& phases.len() == 2
        &&& phases[0].duration == 4 && phases[0].allowed_roads@ == seq![2usize]
        &&& phases[1].duration == 2 && phases[1].allowed_roads@ == seq![3usize]
    }
    &&& road_is(network, 1, 1, 2, 34, 2, 3)
    &&& road_is(network, 2, 2, 4, 44, 1, 2)
    &&& road_is(network, 3, 2, 3, 27, 1, 2)
    &&& road_is(network, 4, 3, 4, 33, 2, 3)
    &&& road_is(network, 5, 1, 3, 47, 1, 2)
}

/// The demonstration schedule: seven cars leaving the entry one tick apart,
/// the fourth bound for the detour and the others for the destination.
pub open spec fn is_demo_schedule(s: Seq<VehicleSpawn>) -> bool {
    &&& s.len() == 7
    &&& forall|i: int|
        0 <= i < 7 ==> {
            &&& (#[trigger] s[i]).departure_tick == i
            &&& s[i].origin == 1
            &&& s[i].destination == if i == 3 { 3usize } else { 4usize }
            &&& s[i].vehicle_type == VehicleType::Car
        }
}

/// Builds the demonstration network.
pub fn build_demo_network() -> (network: Network)
    ensures
        is_demo_network(network),
{
    let mut network = Network::new();
    network.add_node(Node::new(1, "Acceso Norte", NodeKind::Entry));
    let mut main_roads: Vec<RoadId> = Vec::new();
    main_roads.push(2);
    let mut side_roads: Vec<RoadId> = Vec::new();
    side_roads.push(3);
    let main_phase = SignalPhase::new("Paso principal", 4, main_roads);
    let side_phase = SignalPhase::new("Paso lateral", 2, side_roads);
    let plan = SignalPlan::new(vec![main_phase, side_phase]);
    network.add_node(Node::new(2, "Semaforo Central", NodeKind::TrafficLight).with_signal_plan(plan));
    network.add_node(Node::new(3, "Desvio Este", NodeKind::Intersection));
    network.add_node(Node::new(4, "Destino Principal", NodeKind::Exit));
    network.add_road(RoadSegment::new(1, "Avenida Norte", 1, 2, 34, 2, 3));
    network.add_road(RoadSegment::new(2, "Salida Principal", 2, 4, 44, 1, 2));
    network.add_road(RoadSegment::new(3, "Desvio Este", 2, 3, 27, 1, 2));
    network.add_road(RoadSegment::new(4, "Conector Este", 3, 4, 33, 2, 3));
    network.add_road(RoadSegment::new(5, "Ruta Lateral", 1, 3, 47, 1, 2));
    proof {
        assert(network.node_map().dom() =~= set![1usize, 2usize, 3usize, 4usize]);
        assert(network.road_map().dom() =~= set![1usize, 2usize, 3usize, 4usize, 5usize]);
    }
    network
}

/// Builds the demonstration schedule.
pub fn build_demo_schedule() -> (schedule: Vec<VehicleSpawn>)
    ensures
        is_demo_schedule(schedule@),
{
    let schedule = vec![
        VehicleSpawn::new(0, "Vehiculo 1", 1, 4),
        VehicleSpawn::new(1, "Vehiculo 2", 1, 4),
        VehicleSpawn::new(2, "Vehiculo 3", 1, 4),
        VehicleSpawn::new(3, "Vehiculo 4", 1, 3),
        VehicleSpawn::new(4, "Vehiculo 5", 1, 4),
        VehicleSpawn::new(5, "Vehiculo 6", 1, 4),
        VehicleSpawn::new(6, "Vehiculo 7", 1, 4),
    ];
    schedule
}

/// A fresh simulation of the demonstration network with the demonstration
/// schedule ahead of it.
pub fn build_demo_simulation() -> (simulation: Simulation)
    ensures
        simulation.wf(),
        is_demo_network(simulation.net()),
        is_demo_schedule(simulation.scheduled()),
        simulation.now() == 0,
        simulation.vehicle_map().dom().len() == 0,
{
    let mut simulation = Simulation::new(build_demo_network());
    let mut schedule = build_demo_schedule();
    let ghost all = schedule@;
    let mut k: usize = 0;
    while schedule.len() > 0
        invariant
            simulation.wf(),
            is_demo_network(simulation.net()),
            is_demo_schedule(all),
            k <= all.len(),
            schedule@ == all.skip(k as int),
            simulation.scheduled() == all.take(k as int),
            simulation.now() == 0,
            simulation.vehicle_map() == Map::<usize, crate::model::Vehicle>::empty(),
        decreases schedule@.len(),
    {
        let spawn = schedule.remove(0);
        let ghost sp = spawn;
        let ghost before = simulation.scheduled();
        proof {
            assert(sp == all[k as int]);
            assert(schedule@ =~= all.skip(k + 1));
        }
        simulation.schedule_spawn(spawn);
        proof {
            let p = choose|p: int|
                crate::simulation::spawn::schedule_position(before, sp.departure_tick, p)
                    && simulation.scheduled() == before.insert(p, sp);
            if p < before.len() {
                assert(before[p] == all[p]);
                assert(before[p].departure_tick > sp.departure_tick);
            }
            assert(simulation.scheduled() =~= all.take(k + 1));
        }
        k = k + 1;
    }
    proof {
        assert(all.take(7) =~= all);
    }
    simulation
}

} // verus!
