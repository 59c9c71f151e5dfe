//! The scenario engine's data: typed identifiers, the states of nodes,
//! signals and vehicles, lanes, fixed-timing signals, event records, metrics,
//! the commands a front end sends, and what becomes of a pending spawn.
pub mod commands;
pub mod conflicts;
pub mod events;
pub mod ids;
pub mod metrics;
pub mod road;
pub mod signal;
pub mod spawning;
pub mod state;
pub mod validation;
pub mod vehicle;
