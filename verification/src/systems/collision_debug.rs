//! The debug view of the colliders: whether it is shown, and in which
//! colour each shape is drawn.

use crate::components::storage::CollisionStorage;
use crate::entity::Entity;
use vstd::prelude::*;

verus! {

/// Whether the colliders are shown, and whether the toggle button was
/// down at the last update.
#[derive(Clone, Copy, Debug, PartialEq, Eq, Structural)]
pub struct CollisionDebugState {
    pub show: bool,
    pub down: bool,
}

impl Default for CollisionDebugState {
    /// The colliders are shown until they are toggled off.
    fn default() -> (state: CollisionDebugState)
        ensures
            state == (CollisionDebugState { show: true, down: false }),
    {
        CollisionDebugState { show: true, down: false }
    }
}

/// The colour in which a collider is drawn.
#[derive(Clone, Copy, Debug, PartialEq, Eq, Structural)]
pub enum DebugColor {
    /// The shape's entity collides with another.
    Red,
    /// The shape's entity is free.
    Green,
}

/// The state after an update in which the toggle button is down or up:
/// the view flips when the button goes down, not while it is held.
pub open spec fn toggled(state: CollisionDebugState, button_down: bool) -> CollisionDebugState {
    CollisionDebugState {
        show: if button_down && !state.down {
            !state.show
        } else {
            state.show
        },
        down: button_down,
    }
}

/// The colour of a shape of the entity with the given id.
pub open spec fn color_of(graph: Map<u32, Set<u32>>, id: u32) -> DebugColor {
    if graph.contains_key(id) {
        DebugColor::Red
    } else {
        DebugColor::Green
    }
}

/// Draws the colliders for debugging.
pub struct CollisionDebugSystem;

impl CollisionDebugSystem {
    /// Updates the state from the toggle button, then picks the colour of
    /// each shape: red where its entity has a collision set, green where
    /// it has none. Nothing is drawn while the view is off.
    pub fn run(
        &mut self,
        state: &mut CollisionDebugState,
        button_down: bool,
        shapes: &Vec<Entity>,
        collisions: &CollisionStorage,
    ) -> (colors: Vec<DebugColor>)
        requires
            collisions.wf(),
        ensures
            *final(state) == toggled(*old(state), button_down),
            !final(state).show ==> colors@.len() == 0,
            final(state).show ==> colors@.len() == shapes@.len(),
            final(state).show ==> forall|i: int|
                0 <= i < shapes@.len() ==> #[trigger] colors@[i] == color_of(
                    collisions@,
                    shapes@[i].id,
                ),
    {
        if button_down && !state.down {
            state.show = !state.show;
            state.down = true;
        }
        if !button_down {
            state.down = false;
        }
        let mut colors: Vec<DebugColor> = Vec::new();
        if !state.show {
            return colors;
        }
        let mut i: usize = 0;
        while i < shapes.len()
            invariant
                i <= shapes@.len(),
                collisions.wf(),
                colors@.len() == i,
                forall|k: int|
                    0 <= k < i ==> #[trigger] colors@[k] == color_of(collisions@, shapes@[k].id),
            decreases shapes@.len() - i,
        {
            let color = if collisions.get(shapes[i]).is_some() {
                DebugColor::Red
            } else {
                DebugColor::Green
            };
            colors.push(color);
            i = i + 1;
        }
        colors
    }
}

} // verus!
