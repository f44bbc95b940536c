//! The per-entity storage of collision sets.

use crate::components::colliders::CollisionData;
use crate::components::colliders::Collisions;
use crate::entity::Entity;
use crate::entity::MAX_ENTITY_ID;
use crate::mask::bitset_members;
use hibitset::BitSet;
use vstd::prelude::*;

verus! {

/// Holds the collision set of every entity that has one attached, keyed
/// by the entity's id.
pub struct CollisionStorage {
    slots: Vec<Option<Collisions>>,
    attached: usize,
}

impl View for CollisionStorage {
    type V = Map<u32, Set<u32>>;

    /// The attached sets: each entity id with the ids that touch it.
    closed spec fn view(&self) -> Map<u32, Set<u32>> {
        Map::new(
            |id: u32| (id as int) < self.slots@.len() && self.slots@[id as int] is Some,
            |id: u32| self.slots@[id as int].unwrap()@,
        )
    }
}

/// A finite set of numbers below `bound` has at most `bound` members.
proof fn lemma_bounded_set_len(ids: Set<u32>, bound: nat)
    requires
        ids.finite(),
        forall|id: u32| ids.contains(id) ==> (id as nat) < bound,
    ensures
        ids.len() <= bound,
    decreases bound,
{
    if bound == 0 {
        assert(ids =~= Set::<u32>::empty());
    } else {
        let last = (bound - 1) as nat;
        if last <= u32::MAX && ids.contains(last as u32) {
            lemma_bounded_set_len(ids.remove(last as u32), last);
        } else {
            lemma_bounded_set_len(ids, last);
        }
    }
}

impl Default for CollisionStorage {
    /// A storage with no set attached.
    fn default() -> (storage: CollisionStorage)
        ensures
            storage.wf(),
            storage@ == Map::<u32, Set<u32>>::empty(),
            storage.attached_sets() == Seq::<Collisions>::empty(),
    {
        CollisionStorage::new()
    }
}

impl CollisionStorage {
    /// The count of attached sets is kept, and every attached set is
    /// well formed.
    pub closed spec fn wf(&self) -> bool {
        &&& self@.dom().finite()
        &&& self@.dom().len() == self.attached
        &&& forall|i: int|
            0 <= i < self.slots@.len() && (#[trigger] self.slots@[i]) is Some
                ==> self.slots@[i].unwrap().wf()
        &&& self.slots@.len() <= 0x1_0000_0000
    }

    /// The members of the set attached to `id`, in insertion order.
    pub closed spec fn sources(&self, id: u32) -> Seq<u32> {
        self.slots@[id as int].unwrap().members()
    }

    /// The attached sets in the order of their entities' ids.
    pub closed spec fn attached_sets(&self) -> Seq<Collisions> {
        Self::sets_of(self.slots@)
    }

    spec fn sets_of(slots: Seq<Option<Collisions>>) -> Seq<Collisions> {
        slots.filter(|slot: Option<Collisions>| slot is Some).map_values(
            |slot: Option<Collisions>| slot.unwrap(),
        )
    }

    proof fn lemma_sets_of_step(slots: Seq<Option<Collisions>>, count: int)
        requires
            0 <= count < slots.len(),
        ensures
            Self::sets_of(slots.take(count + 1)) == match slots[count] {
                Some(set) => Self::sets_of(slots.take(count)).push(set),
                None => Self::sets_of(slots.take(count)),
            },
    {
        reveal(Seq::filter);
        let attached = |slot: Option<Collisions>| slot is Some;
        let set_of = |slot: Option<Collisions>| slot.unwrap();
        let longer = slots.take(count + 1);
        let shorter = slots.take(count);
        assert(longer.drop_last() =~= shorter);
        assert(longer.last() == slots[count]);
        if slots[count] is Some {
            assert(longer.filter(attached) == shorter.filter(attached).push(slots[count]));
            assert(longer.filter(attached).map_values(set_of) =~= shorter.filter(
                attached,
            ).map_values(set_of).push(slots[count].unwrap()));
        } else {
            assert(longer.filter(attached) == shorter.filter(attached));
        }
    }

    /// The member list of an attached set holds each member once.
    pub proof fn lemma_sources(&self, id: u32)
        requires
            self.wf(),
            self@.contains_key(id),
        ensures
            self.sources(id).no_duplicates(),
            self.sources(id).len() == self@[id].len(),
            forall|source: u32| self.sources(id).contains(source) <==> self@[id].contains(source),
    {
        self.slots@[id as int].unwrap().lemma_members();
    }

    /// Only finitely many entities have a set attached.
    pub proof fn lemma_finite(&self)
        requires
            self.wf(),
        ensures
            self@.dom().finite(),
    {
    }

    /// Creates a storage with no set attached.
    pub fn new() -> (storage: CollisionStorage)
        ensures
            storage.wf(),
            storage@ == Map::<u32, Set<u32>>::empty(),
            storage.attached_sets() == Seq::<Collisions>::empty(),
    {
        let storage = CollisionStorage { slots: Vec::new(), attached: 0 };
        proof {
            reveal(Seq::filter);
            assert(storage@ =~= Map::<u32, Set<u32>>::empty());
            assert(storage.attached_sets() =~= Seq::<Collisions>::empty());
        }
        storage
    }

    /// The number of entities with a set attached.
    pub fn len(&self) -> (len: usize)
        requires
            self.wf(),
        ensures
            len == self@.dom().len(),
    {
        self.attached
    }

    /// The set attached to `target`, if there is one.
    pub fn get(&self, target: Entity) -> (found: Option<&Collisions>)
        requires
            self.wf(),
        ensures
            found is Some <==> self@.contains_key(target.id),
            found is Some ==> found.unwrap().wf() && found.unwrap()@ == self@[target.id]
                && found.unwrap().members() == self.sources(target.id),
    {
        let id = target.id() as usize;
        if id < self.slots.len() {
            self.slots[id].as_ref()
        } else {
            None
        }
    }

    /// Whether `source` is recorded as colliding with `target`.
    pub fn contains(&self, target: Entity, source: Entity) -> (present: bool)
        requires
            self.wf(),
        ensures
            present == (self@.contains_key(target.id) && self@[target.id].contains(source.id)),
    {
        match self.get(target) {
            Some(set) => set.contains(source),
            None => false,
        }
    }

    /// The ids of the entities that collide with `target`, each once, in
    /// the order in which they were recorded. Empty where `target` has no
    /// set attached.
    pub fn iterate(&self, target: Entity) -> (sources: Vec<u32>)
        requires
            self.wf(),
        ensures
            sources@ == if self@.contains_key(target.id) {
                self.sources(target.id)
            } else {
                Seq::<u32>::empty()
            },
    {
        match self.get(target) {
            Some(set) => set.iterate(),
            None => Vec::new(),
        }
    }

    /// The membership mask of the set attached to `target`, if there is
    /// one.
    pub fn mask(&self, target: Entity) -> (mask: Option<&BitSet>)
        requires
            self.wf(),
        ensures
            mask is Some <==> self@.contains_key(target.id),
            mask is Some ==> bitset_members(*mask.unwrap()) == self@[target.id],
    {
        match self.get(target) {
            Some(set) => Some(set.mask()),
            None => None,
        }
    }

    /// Attaches `set` to `target` and hands back the set that was
    /// attached before, if there was one.
    pub fn insert(&mut self, target: Entity, set: Collisions) -> (previous: Option<Collisions>)
        requires
            old(self).wf(),
            set.wf(),
        ensures
            final(self).wf(),
            final(self)@ == old(self)@.insert(target.id, set@),
            final(self).sources(target.id) == set.members(),
            forall|other: u32|
                other != target.id && old(self)@.contains_key(other) ==> #[trigger] final(self).sources(other)
                    == old(self).sources(other),
            previous is Some <==> old(self)@.contains_key(target.id),
            previous is Some ==> previous.unwrap().wf() && previous.unwrap()@ == old(self)@[target.id],
    {
        let id = target.id() as usize;
        while self.slots.len() <= id
            invariant
                self.wf(),
                self@ == old(self)@,
                id == target.id,
                old(self).slots@.len() <= self.slots@.len(),
                forall|k: int|
                    0 <= k < old(self).slots@.len()
                        ==> #[trigger] self.slots@[k] == old(self).slots@[k],
            decreases id + 1 - self.slots.len(),
        {
            let ghost before = self@;
            self.slots.push(None);
            assert(self@ =~= before);
        }
        let ghost before = self@;
        let previous = self.slots[id].take();
        self.slots[id] = Some(set);
        proof {
            assert(self@ =~= before.insert(target.id, set@));
            assert(self@.dom() =~= before.dom().insert(target.id));
            assert forall|other: u32| self@.dom().contains(other) implies (other as nat)
                < self.slots@.len() by {}
            lemma_bounded_set_len(self@.dom(), self.slots@.len());
        }
        if previous.is_none() {
            self.attached = self.attached + 1;
        }
        previous
    }

    /// Detaches the set of `target` and hands it back, if there was one.
    pub fn remove(&mut self, target: Entity) -> (detached: Option<Collisions>)
        requires
            old(self).wf(),
        ensures
            final(self).wf(),
            final(self)@ == old(self)@.remove(target.id),
            forall|other: u32|
                other != target.id && old(self)@.contains_key(other) ==> #[trigger] final(self).sources(other)
                    == old(self).sources(other),
            detached is Some <==> old(self)@.contains_key(target.id),
            detached is Some ==> detached.unwrap().wf() && detached.unwrap()@ == old(self)@[target.id],
    {
        let id = target.id() as usize;
        if id < self.slots.len() {
            let ghost before = self@;
            let detached = self.slots[id].take();
            proof {
                assert(self@ =~= before.remove(target.id));
                assert(self@.dom() =~= before.dom().remove(target.id));
            }
            if detached.is_some() {
                self.attached = self.attached - 1;
            }
            detached
        } else {
            assert(self@ =~= old(self)@.remove(target.id));
            None
        }
    }

    /// Records `source` in the set attached to `target`. Where `target`
    /// has no set attached nothing changes and the result is `false`.
    pub fn record(&mut self, target: Entity, source: Entity) -> (attached: bool)
        requires
            old(self).wf(),
            source.id < MAX_ENTITY_ID,
        ensures
            final(self).wf(),
            attached == old(self)@.contains_key(target.id),
            attached ==> final(self)@ == old(self)@.insert(
                target.id,
                old(self)@[target.id].insert(source.id),
            ),
            attached ==> final(self).sources(target.id) == if old(self)@[target.id].contains(
                source.id,
            ) {
                old(self).sources(target.id)
            } else {
                old(self).sources(target.id).push(source.id)
            },
            !attached ==> final(self)@ == old(self)@,
            forall|other: u32|
                (other != target.id || !attached) && old(self)@.contains_key(other)
                    ==> #[trigger] final(self).sources(other) == old(self).sources(other),
    {
        let id = target.id() as usize;
        if id < self.slots.len() {
            let ghost before = self@;
            match &mut self.slots[id] {
                Some(set) => {
                    set.insert(source, CollisionData);
                    proof {
                        assert(self@ =~= before.insert(
                            target.id,
                            before[target.id].insert(source.id),
                        ));
                        assert(self@.dom() =~= before.dom());
                        assert forall|i: int|
                            0 <= i < self.slots@.len() && (#[trigger] self.slots@[i]) is Some
                            implies self.slots@[i].unwrap().wf() by {
                            if i != id {
                                assert(self.slots@[i] == old(self).slots@[i]);
                            }
                        }
                    }
                    true
                },
                None => {
                    assert(self.slots@ =~= old(self).slots@);
                    false
                },
            }
        } else {
            false
        }
    }

    /// Detaches every set and pushes it onto `pool`, in the order of the
    /// entities' ids, leaving no entity with a set.
    pub fn drain_into(&mut self, pool: &mut Vec<Collisions>)
        requires
            old(self).wf(),
        ensures
            final(self).wf(),
            final(self)@ == Map::<u32, Set<u32>>::empty(),
            final(pool)@ == old(pool)@ + old(self).attached_sets(),
            final(pool)@.len() == old(pool)@.len() + old(self)@.dom().len(),
    {
        let n = self.slots.len();
        let mut i: usize = 0;
        proof {
            reveal(Seq::filter);
            assert(self.slots@.take(0) =~= Seq::<Option<Collisions>>::empty());
            assert(Self::sets_of(self.slots@.take(0)) =~= Seq::<Collisions>::empty());
            assert(pool@ =~= old(pool)@ + Self::sets_of(old(self).slots@.take(0)));
        }
        while i < n
            invariant
                i <= n,
                n == self.slots@.len(),
                n == old(self).slots@.len(),
                self.wf(),
                forall|k: int| 0 <= k < i ==> (#[trigger] self.slots@[k]) is None,
                forall|k: int| i <= k < n ==> (#[trigger] self.slots@[k]) == old(self).slots@[k],
                pool@.len() + self@.dom().len() == old(pool)@.len() + old(self)@.dom().len(),
                pool@ == old(pool)@ + Self::sets_of(old(self).slots@.take(i as int)),
            decreases n - i,
        {
            let ghost before = self@;
            let ghost pool_before = pool@;
            proof {
                Self::lemma_sets_of_step(old(self).slots@, i as int);
            }
            let detached = self.slots[i].take();
            match detached {
                Some(set) => {
                    proof {
                        assert(self@ =~= before.remove(i as u32));
                        assert(self@.dom() =~= before.dom().remove(i as u32));
                    }
                    self.attached = self.attached - 1;
                    pool.push(set);
                    assert(pool@ =~= old(pool)@ + Self::sets_of(old(self).slots@.take(i + 1)));
                },
                None => {
                    assert(self@ =~= before);
                },
            }
            i = i + 1;
        }
        proof {
            assert(self@ =~= Map::<u32, Set<u32>>::empty());
            assert(old(self).slots@.take(n as int) =~= old(self).slots@);
        }
    }
}

} // verus!
