//! The axes and actions that the player's input is bound to.

use vstd::prelude::*;

verus! {

/// An axis of movement.
#[derive(Clone, Copy, Debug, Hash, PartialEq, Eq, Structural)]
pub enum AxisBinding {
    Horizontal,
    Vertical,
}

/// An action that a button triggers.
#[derive(Clone, Copy, Debug, Hash, PartialEq, Eq, Structural)]
pub enum ActionBinding {
    ToggleColliders,
    Attack,
}

/// Names the axis and action types of the game's input bindings.
#[derive(Clone, Copy, Debug, PartialEq, Eq, Structural)]
pub struct InputBindingTypes;

impl AxisBinding {
    /// The name under which a bindings file refers to the axis.
    pub fn name(&self) -> (name: &'static str)
        ensures
            name@ == match *self {
                AxisBinding::Horizontal => "Horizontal"@,
                AxisBinding::Vertical => "Vertical"@,
            },
    {
        match self {
            AxisBinding::Horizontal => "Horizontal",
            AxisBinding::Vertical => "Vertical",
        }
    }
}

impl ActionBinding {
    /// The name under which a bindings file refers to the action.
    pub fn name(&self) -> (name: &'static str)
        ensures
            name@ == match *self {
                ActionBinding::ToggleColliders => "ToggleColliders"@,
                ActionBinding::Attack => "Attack"@,
            },
    {
        match self {
            ActionBinding::ToggleColliders => "ToggleColliders",
            ActionBinding::Attack => "Attack",
        }
    }
}

} // verus!
