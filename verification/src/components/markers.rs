//! Marker components.

use vstd::prelude::*;

verus! {

/// Marks an entity that is removed from the game as soon as it collides.
/// It carries no data.
#[derive(Clone, Copy, Debug, PartialEq, Eq, Structural)]
pub struct KillAfterCollision;

impl Default for KillAfterCollision {
    fn default() -> (marker: KillAfterCollision)
        ensures
            marker == KillAfterCollision,
    {
        KillAfterCollision
    }
}

} // verus!
