//! What a front end asks the engine to do.
use vstd::prelude::*;

verus! {

/// A request from a front end to the engine.
#[derive(Clone, Copy, Debug, PartialEq, Eq, Structural)]
pub enum Command {
    Play,
    Pause,
    Step(u32),
    Reset,
    LoadDemo,
}

} // verus!
