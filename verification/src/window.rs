//! The window in which a graphical front end shows the simulator.
use vstd::prelude::*;

verus! {

/// The main window of a graphical front end. It holds no state of its own:
/// what it draws lives in the front end's shared state.
#[derive(Clone, Copy, Debug, PartialEq, Eq, Structural)]
pub struct SimulatorWindow {}

impl SimulatorWindow {
    /// The main window.
    pub fn new() -> (window: Self)
        ensures
            window == (SimulatorWindow {}),
    {
        SimulatorWindow {}
    }
}

} // verus!
