//! Collider shapes and the per-entity collision set.

use crate::entity::Entity;
use crate::entity::MAX_ENTITY_ID;
use crate::mask::bitset_members;
use hibitset::BitSet;
use vstd::prelude::*;

verus! {

/// A circular shape, centred at its entity's position.
#[derive(Clone, Copy, Debug, PartialEq, Eq, Structural)]
pub struct CircleCollider {
    pub radius: i32,
}

/// An axis-aligned box, centred at its entity's position. `width` and
/// `height` are full extents.
#[derive(Clone, Copy, Debug, PartialEq, Eq, Structural)]
pub struct BoxCollider {
    pub width: i32,
    pub height: i32,
}

/// The data that makes up a collision.
#[derive(Clone, Copy, Debug, PartialEq, Eq, Structural)]
pub struct CollisionData;

/// The set of entities that touch one entity in the current frame.
///
/// A sparse set: `bitset` answers membership, `ids` and `entries` hold the
/// members and their records densely, and `slots` maps a member's id to
/// its place in the dense arrays.
pub struct Collisions {
    entries: Vec<CollisionData>,
    ids: Vec<u32>,
    slots: Vec<usize>,
    bitset: BitSet,
}

impl View for Collisions {
    type V = Set<u32>;

    /// The ids of the entities in the set.
    closed spec fn view(&self) -> Set<u32> {
        bitset_members(self.bitset)
    }
}

impl Default for Collisions {
    /// An empty set.
    fn default() -> (set: Collisions)
        ensures
            set.wf(),
            set@ == Set::<u32>::empty(),
            set.members() == Seq::<u32>::empty(),
    {
        Collisions::new()
    }
}

impl Collisions {
    /// The dense arrays and the mask describe the same finite set.
    pub closed spec fn wf(&self) -> bool {
        &&& self.entries@.len() == self.ids@.len()
        &&& self@.finite()
        &&& self@.len() == self.ids@.len()
        &&& forall|k: int|
            0 <= k < self.ids@.len() ==> (#[trigger] self.ids@[k]) < self.slots@.len()
                && self.slots@[self.ids@[k] as int] == k
        &&& forall|id: u32|
            #[trigger] self@.contains(id) <==> id < self.slots@.len() && self.slots@[id as int]
                < self.ids@.len() && self.ids@[self.slots@[id as int] as int] == id
    }

    /// The members in the order in which they were inserted.
    pub closed spec fn members(&self) -> Seq<u32> {
        self.ids@
    }

    /// The dense list of members holds each member of the set once.
    pub proof fn lemma_members(&self)
        requires
            self.wf(),
        ensures
            self.members().no_duplicates(),
            self.members().len() == self@.len(),
            forall|id: u32| self.members().contains(id) <==> self@.contains(id),
    {
        assert forall|id: u32| self.members().contains(id) implies self@.contains(id) by {
            let k = choose|k: int| 0 <= k < self.ids@.len() && self.ids@[k] == id;
            assert(self.slots@[self.ids@[k] as int] == k);
        }
        assert forall|id: u32| self@.contains(id) implies self.members().contains(id) by {
            assert(self.ids@[self.slots@[id as int] as int] == id);
        }
    }

    /// Creates an empty set.
    pub fn new() -> (set: Collisions)
        ensures
            set.wf(),
            set@ == Set::<u32>::empty(),
            set.members() == Seq::<u32>::empty(),
    {
        Collisions { entries: Vec::new(), ids: Vec::new(), slots: Vec::new(), bitset: BitSet::new() }
    }

    /// Empties the set. The storage it has grown stays allocated.
    pub fn reset(&mut self)
        ensures
            final(self).wf(),
            final(self)@ == Set::<u32>::empty(),
            final(self).members() == Seq::<u32>::empty(),
    {
        self.entries.clear();
        self.ids.clear();
        self.bitset.clear();
    }

    /// Records `entity` as colliding with the owner of this set. The
    /// record of an entity that is in the set already is overwritten.
    pub fn insert(&mut self, entity: Entity, data: CollisionData)
        requires
            old(self).wf(),
            entity.id < MAX_ENTITY_ID,
        ensures
            final(self).wf(),
            final(self)@ == old(self)@.insert(entity.id),
            final(self).members() == if old(self)@.contains(entity.id) {
                old(self).members()
            } else {
                old(self).members().push(entity.id)
            },
    {
        let id = entity.id();
        if self.bitset.contains(id) {
            let slot = self.slots[id as usize];
            self.entries[slot] = data;
            assert(self@ =~= old(self)@.insert(entity.id));
        } else {
            if self.slots.len() <= id as usize {
                self.slots.resize(id as usize + 1, 0);
            }
            let slot = self.ids.len();
            self.slots[id as usize] = slot;
            self.ids.push(id);
            self.entries.push(data);
            self.bitset.add(id);
        }
    }

    /// Whether `entity` is recorded as colliding with the owner.
    pub fn contains(&self, entity: Entity) -> (present: bool)
        ensures
            present == self@.contains(entity.id),
    {
        self.bitset.contains(entity.id())
    }

    /// The number of entities in the set.
    pub fn len(&self) -> (len: usize)
        requires
            self.wf(),
        ensures
            len == self@.len(),
    {
        self.ids.len()
    }

    /// Whether no entity is in the set.
    pub fn is_empty(&self) -> (empty: bool)
        requires
            self.wf(),
        ensures
            empty == (self@ == Set::<u32>::empty()),
    {
        let empty = self.ids.len() == 0;
        proof {
            if empty {
                assert(self@ =~= Set::<u32>::empty()) by {
                    self.lemma_members();
                    assert forall|id: u32| !self@.contains(id) by {
                        if self@.contains(id) {
                            assert(self.members().contains(id));
                        }
                    }
                }
            }
        }
        empty
    }

    /// The ids of the entities in the set, each once, in the order in
    /// which they were inserted.
    pub fn iterate(&self) -> (sources: Vec<u32>)
        ensures
            sources@ == self.members(),
    {
        self.ids.clone()
    }

    /// The membership mask alone.
    pub fn mask(&self) -> (mask: &BitSet)
        ensures
            bitset_members(*mask) == self@,
    {
        &self.bitset
    }
}

} // verus!
