//! Removal of entities that are marked to die when they collide.

use crate::components::storage::CollisionStorage;
use crate::entity::Entity;
use vstd::prelude::*;

verus! {

/// Decides which marked entities leave the game.
pub struct KillAfterSystem;

impl KillAfterSystem {
    /// The entities among `marked` that have a collision set attached, in
    /// the order of `marked`: those are to be deleted.
    pub fn run(&mut self, marked: &Vec<Entity>, collisions: &CollisionStorage) -> (doomed: Vec<Entity>)
        requires
            collisions.wf(),
        ensures
            doomed@ == marked@.filter(|entity: Entity| collisions@.contains_key(entity.id)),
    {
        let ghost collided = |entity: Entity| collisions@.contains_key(entity.id);
        let mut doomed: Vec<Entity> = Vec::new();
        let mut i: usize = 0;
        proof {
            reveal(Seq::filter);
            assert(marked@.take(0) =~= Seq::<Entity>::empty());
        }
        while i < marked.len()
            invariant
                i <= marked@.len(),
                collisions.wf(),
                collided == |entity: Entity| collisions@.contains_key(entity.id),
                doomed@ == marked@.take(i as int).filter(collided),
            decreases marked@.len() - i,
        {
            let entity = marked[i];
            proof {
                reveal(Seq::filter);
                assert(marked@.take(i + 1).drop_last() =~= marked@.take(i as int));
                assert(marked@.take(i + 1).last() == entity);
            }
            if collisions.get(entity).is_some() {
                doomed.push(entity);
            }
            i = i + 1;
        }
        assert(marked@.take(marked@.len() as int) =~= marked@);
        doomed
    }
}

} // verus!
