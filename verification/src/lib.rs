pub mod clock;
pub mod console;
pub mod engine;
pub mod idmap;
pub mod model;
pub mod playback;
pub mod routing;
pub mod scenario;
pub mod simulation;
pub mod text;
pub mod theme;
pub mod window;

pub use model::{
    Network, Node, NodeId, NodeKind, RoadId, RoadSegment, SignalPhase, SignalPlan, Vehicle,
    VehicleId, VehicleSpawn, VehicleStatus, VehicleType,
};
pub use scenario::{build_demo_network, build_demo_schedule, build_demo_simulation};
pub use simulation::{Simulation, SimulationEvent, SimulationReport};
