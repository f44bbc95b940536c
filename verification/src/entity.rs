//! Entity identifiers as handed to the engine by the host's entity store.

use vstd::prelude::*;

verus! {

/// Entity ids must stay below this bound: the membership masks cannot
/// hold larger indices on every supported target.
pub const MAX_ENTITY_ID: u32 = 1_048_576;

/// A stable identifier of a live entity, with the generation that tells a
/// reused id from its earlier owners.
#[derive(Clone, Copy, Debug, PartialEq, Eq, Structural)]
pub struct Entity {
    pub id: u32,
    pub generation: i32,
}

impl Entity {
    /// Builds the identifier with the given id and generation.
    pub fn new(id: u32, generation: i32) -> (entity: Entity)
        ensures
            entity == (Entity { id, generation }),
    {
        Entity { id, generation }
    }

    /// The index under which per-entity data is stored.
    pub fn id(&self) -> (id: u32)
        ensures
            id == self.id,
    {
        self.id
    }

    /// The generation of the id.
    pub fn generation(&self) -> (generation: i32)
        ensures
            generation == self.generation,
    {
        self.generation
    }
}

} // verus!
