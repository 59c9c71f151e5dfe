//! The lines that the console runner prints: a header, one line per event and
//! a periodic summary, built here as text and printed by the caller.
use vstd::prelude::*;
use vstd::string::*;
use crate::model::{Network, NodeId, RoadId};
use crate::simulation::metrics::{is_active, is_completed};
use crate::simulation::{Simulation, SimulationEvent};
use crate::text::{decimal, decimal_usize, spec_decimal};
use crate::model::Vehicle;

verus! {

/// `n` in decimal with at least two digits.
pub open spec fn spec_pad2(n: nat) -> Seq<char> {
    if n < 10 {
        seq!['0'] + spec_decimal(n)
    } else {
        spec_decimal(n)
    }
}

/// How the console names a node: its name, or its number for a node the
/// network does not have.
pub open spec fn spec_node_label(network: Network, node_id: NodeId) -> Seq<char> {
    if network.node_map().contains_key(node_id) {
        network.node_map()[node_id].name@
    } else {
        "Nodo "@ + spec_decimal(node_id as nat)
    }
}

/// How the console names a road: its name, or its number for a road the
/// network does not have.
pub open spec fn spec_road_label(network: Network, road_id: RoadId) -> Seq<char> {
    if network.road_map().contains_key(road_id) {
        network.road_map()[road_id].name@
    } else {
        "Tramo "@ + spec_decimal(road_id as nat)
    }
}

/// What `Network::describe_route` gives for `route`.
pub open spec fn spec_route_text(network: Network, route: Seq<RoadId>) -> Seq<char> {
    if route.len() == 0 {
        "sin tramos"@
    } else {
        network.joined_labels(route)
    }
}

/// The opening of every line about tick `tick`.
pub open spec fn spec_tick_prefix(tick: nat) -> Seq<char> {
    "[tick "@ + spec_pad2(tick) + "] "@
}

/// An event can be written when the lane numbers it holds can be counted from one.
pub open spec fn event_printable(event: SimulationEvent) -> bool {
    match event {
        SimulationEvent::EnteredRoad { lane_index, .. } => lane_index < usize::MAX,
        SimulationEvent::EmergencyEnteredRoad { lane_index, .. } => lane_index < usize::MAX,
        _ => true,
    }
}

/// The line that reports `event` at tick `tick`.
pub open spec fn spec_event_line(network: Network, tick: nat, event: SimulationEvent) -> Seq<char> {
    spec_tick_prefix(tick) + match event {
        SimulationEvent::Spawned { vehicle_id, name, origin, destination, route } => {
            "sale #"@ + spec_decimal(vehicle_id as nat) + " "@ + name@ + " desde "@
                + spec_node_label(network, origin) + " hacia "@ + spec_node_label(
                network,
                destination,
            ) + " por "@ + spec_route_text(network, route@)
        },
        SimulationEvent::SpawnFailed { name, origin, destination, reason } => {
            "no se pudo crear "@ + name@ + " ("@ + spec_node_label(network, origin) + ") -> ("@
                + spec_node_label(network, destination) + ") : "@ + reason@
        },
        SimulationEvent::SignalChanged { node_id, phase_name } => {
            "semaforo en "@ + spec_node_label(network, node_id) + " cambia a "@ + phase_name@
        },
        SimulationEvent::EnteredRoad { vehicle_id, road_id, lane_index } => {
            "vehiculo #"@ + spec_decimal(vehicle_id as nat) + " entra en "@ + spec_road_label(
                network,
                road_id,
            ) + " (carril "@ + spec_decimal((lane_index + 1) as nat) + ")"@
        },
        SimulationEvent::Rerouted { vehicle_id, node_id, avoided_road, new_route, reason } => {
            "vehiculo #"@ + spec_decimal(vehicle_id as nat) + " reruta en "@ + spec_node_label(
                network,
                node_id,
            ) + " evitando "@ + spec_road_label(network, avoided_road) + " por "@
                + spec_route_text(network, new_route@) + " ("@ + reason@ + ")"@
        },
        SimulationEvent::EmergencyEnteredRoad { vehicle_id, road_id, lane_index, reason } => {
            "vehiculo #"@ + spec_decimal(vehicle_id as nat) + " entra en "@ + spec_road_label(
                network,
                road_id,
            ) + " (carril "@ + spec_decimal((lane_index + 1) as nat) + ") por emergencia: "@
                + reason@
        },
        SimulationEvent::ReachedNode { vehicle_id, node_id } => {
            "vehiculo #"@ + spec_decimal(vehicle_id as nat) + " llega a "@ + spec_node_label(
                network,
                node_id,
            )
        },
        SimulationEvent::Completed { vehicle_id, destination, wait_time, travel_time } => {
            "vehiculo #"@ + spec_decimal(vehicle_id as nat) + " termina en "@ + spec_node_label(
                network,
                destination,
            ) + " (espera "@ + spec_decimal(wait_time as nat) + ", viaje "@ + spec_decimal(
                travel_time as nat,
            ) + ")"@
        },
    }
}

/// `n` in decimal with at least two digits.
pub fn pad2(n: u32) -> (s: String)
    ensures
        s@ == spec_pad2(n as nat),
{
    if n < 10 {
        let mut s = String::from_str("0");
        let d = decimal(n);
        s.append(d.as_str());
        proof {
            reveal_strlit("0");
            assert(s@ =~= spec_pad2(n as nat));
        }
        s
    } else {
        decimal(n)
    }
}

/// How the console names a node.
pub fn node_label(network: &Network, node_id: NodeId) -> (label: String)
    requires
        network.wf(),
    ensures
        label@ == spec_node_label(*network, node_id),
{
    match network.node(node_id) {
        Some(node) => node.name.clone(),
        None => {
            let mut s = String::from_str("Nodo ");
            let d = decimal_usize(node_id);
            s.append(d.as_str());
            s
        },
    }
}

/// How the console names a road.
pub fn road_label(network: &Network, road_id: RoadId) -> (label: String)
    requires
        network.wf(),
    ensures
        label@ == spec_road_label(*network, road_id),
{
    match network.road(road_id) {
        Some(road) => road.name.clone(),
        None => {
            let mut s = String::from_str("Tramo ");
            let d = decimal_usize(road_id);
            s.append(d.as_str());
            s
        },
    }
}

/// The line that reports `event` at the simulation's current tick.
#[verifier::spinoff_prover]
#[verifier::rlimit(30)]
pub fn event_line(simulation: &Simulation, event: &SimulationEvent) -> (line: String)
    requires
        simulation.wf(),
        event_printable(*event),
    ensures
        line@ == spec_event_line(simulation.net(), simulation.now() as nat, *event),
{
    let network = simulation.network();
    let mut s = String::from_str("[tick ");
    let t = pad2(simulation.tick());
    s.append(t.as_str());
    s.append("] ");
    let ghost prefix = s@;
    assert(prefix =~= spec_tick_prefix(simulation.now() as nat));
    match event {
        SimulationEvent::Spawned { vehicle_id, name, origin, destination, route } => {
            s.append("sale #");
            s.append(decimal_usize(*vehicle_id).as_str());
            s.append(" ");
            s.append(name.as_str());
            s.append(" desde ");
            s.append(node_label(network, *origin).as_str());
            s.append(" hacia ");
            s.append(node_label(network, *destination).as_str());
            s.append(" por ");
            s.append(network.describe_route(route.as_slice()).as_str());
        },
        SimulationEvent::SpawnFailed { name, origin, destination, reason } => {
            s.append("no se pudo crear ");
            s.append(name.as_str());
            s.append(" (");
            s.append(node_label(network, *origin).as_str());
            s.append(") -> (");
            s.append(node_label(network, *destination).as_str());
            s.append(") : ");
            s.append(reason.as_str());
        },
        SimulationEvent::SignalChanged { node_id, phase_name } => {
            s.append("semaforo en ");
            s.append(node_label(network, *node_id).as_str());
            s.append(" cambia a ");
            s.append(phase_name.as_str());
        },
        SimulationEvent::EnteredRoad { vehicle_id, road_id, lane_index } => {
            s.append("vehiculo #");
            s.append(decimal_usize(*vehicle_id).as_str());
            s.append(" entra en ");
            s.append(road_label(network, *road_id).as_str());
            s.append(" (carril ");
            s.append(decimal_usize(*lane_index + 1).as_str());
            s.append(")");
        },
        SimulationEvent::Rerouted { vehicle_id, node_id, avoided_road, new_route, reason } => {
            s.append("vehiculo #");
            s.append(decimal_usize(*vehicle_id).as_str());
            s.append(" reruta en ");
            s.append(node_label(network, *node_id).as_str());
            s.append(" evitando ");
            s.append(road_label(network, *avoided_road).as_str());
            s.append(" por ");
            s.append(network.describe_route(new_route.as_slice()).as_str());
            s.append(" (");
            s.append(reason.as_str());
            s.append(")");
        },
        SimulationEvent::EmergencyEnteredRoad { vehicle_id, road_id, lane_index, reason } => {
            s.append("vehiculo #");
            s.append(decimal_usize(*vehicle_id).as_str());
            s.append(" entra en ");
            s.append(road_label(network, *road_id).as_str());
            s.append(" (carril ");
            s.append(decimal_usize(*lane_index + 1).as_str());
            s.append(") por emergencia: ");
            s.append(reason.as_str());
        },
        SimulationEvent::ReachedNode { vehicle_id, node_id } => {
            s.append("vehiculo #");
            s.append(decimal_usize(*vehicle_id).as_str());
            s.append(" llega a ");
            s.append(node_label(network, *node_id).as_str());
        },
        SimulationEvent::Completed { vehicle_id, destination, wait_time, travel_time } => {
            s.append("vehiculo #");
            s.append(decimal_usize(*vehicle_id).as_str());
            s.append(" termina en ");
            s.append(node_label(network, *destination).as_str());
            s.append(" (espera ");
            s.append(decimal(*wait_time).as_str());
            s.append(", viaje ");
            s.append(decimal(*travel_time).as_str());
            s.append(")");
        },
    }
    assert(s@ =~= spec_event_line(simulation.net(), simulation.now() as nat, *event));
    s
}

/// The line that sums up the vehicles at tick `tick`.
pub open spec fn spec_tick_summary(tick: nat, active: nat, completed: nat) -> Seq<char> {
    spec_tick_prefix(tick) + "activos="@ + spec_decimal(active) + ", completados="@
        + spec_decimal(completed)
}

/// The line that sums up the vehicles on the road and those that arrived.
pub fn tick_summary_line(simulation: &Simulation) -> (line: String)
    requires
        simulation.wf(),
    ensures
        line@ == spec_tick_summary(
            simulation.now() as nat,
            simulation.vehicle_seq().filter(|v: Vehicle| is_active(v)).len(),
            simulation.vehicle_seq().filter(|v: Vehicle| is_completed(v)).len(),
        ),
{
    let mut s = String::from_str("[tick ");
    s.append(pad2(simulation.tick()).as_str());
    s.append("] activos=");
    s.append(decimal_usize(simulation.active_vehicle_count()).as_str());
    s.append(", completados=");
    s.append(decimal_usize(simulation.completed_vehicle_count()).as_str());
    proof {
        reveal_strlit("] ");
        reveal_strlit("activos=");
        reveal_strlit("] activos=");
    }
    assert(s@ =~= spec_tick_summary(
        simulation.now() as nat,
        simulation.vehicle_seq().filter(|v: Vehicle| is_active(v)).len(),
        simulation.vehicle_seq().filter(|v: Vehicle| is_completed(v)).len(),
    ));
    s
}

/// The lines that open a console run: a title, the size of the network, the
/// model in one sentence, and a blank line.
pub open spec fn spec_header(network: Network) -> Seq<Seq<char>> {
    seq![
        "Simulador de trafico en Rust"@,
        "Red inicial: "@ + spec_decimal(network.node_map().dom().len()) + " nodos, "@
            + spec_decimal(network.road_map().dom().len()) + " tramos"@,
        "Modelo: red de nodos, tramos con colas y semaforos por fases"@,
        Seq::empty(),
    ]
}

/// The lines that open a console run.
pub fn header_lines(simulation: &Simulation) -> (lines: Vec<String>)
    requires
        simulation.wf(),
    ensures
        lines@.len() == 4,
        forall|i: int| 0 <= i < 4 ==> #[trigger] lines@[i]@ == spec_header(simulation.net())[i],
{
    let network = simulation.network();
    let mut lines: Vec<String> = Vec::new();
    lines.push(String::from_str("Simulador de trafico en Rust"));
    let mut size = String::from_str("Red inicial: ");
    size.append(decimal_usize(network.node_count()).as_str());
    size.append(" nodos, ");
    size.append(decimal_usize(network.road_count()).as_str());
    size.append(" tramos");
    lines.push(size);
    lines.push(String::from_str("Modelo: red de nodos, tramos con colas y semaforos por fases"));
    lines.push(String::new());
    assert(lines@[1]@ =~= spec_header(simulation.net())[1]);
    lines
}

} // verus!
