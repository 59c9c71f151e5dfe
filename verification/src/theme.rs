//! States that a front end draws its controls in.
use vstd::prelude::*;

verus! {

/// The state of a control on screen.
#[derive(Clone, Copy, Debug, PartialEq, Eq, Structural)]
pub enum ComponentState {
    Default,
    Hovered,
    Pressed,
    Disabled,
    Focused,
}

} // verus!
