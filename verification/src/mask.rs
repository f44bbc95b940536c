//! The membership mask of a collision set: a hierarchical bit set.

use hibitset::BitSet;
use vstd::prelude::*;

verus! {

/// `hibitset::BitSet`, a set of indices. Its layers of bits are not
/// looked into: what it holds is known only through `bitset_members`.
#[verifier::external_type_specification]
#[verifier::external_body]
pub struct ExBitSet(BitSet);

/// The indices that a bit set holds: those added to it since it was made
/// or last cleared.
pub uninterp spec fn bitset_members(bits: BitSet) -> Set<u32>;

/// `hibitset::BitSet::new`: the new bit set holds no index.
pub assume_specification[ BitSet::new ]() -> (bits: BitSet)
    ensures
        bitset_members(bits) == Set::<u32>::empty(),
;

/// `hibitset::BitSet::add`: afterwards the set holds `id` besides what it
/// held; the result tells whether `id` was in it already. Indices above
/// the bit set's limit make it panic and are left out.
pub assume_specification[ BitSet::add ](bits: &mut BitSet, id: u32) -> (present: bool)
    requires
        id < crate::entity::MAX_ENTITY_ID,
    ensures
        bitset_members(*final(bits)) == bitset_members(*old(bits)).insert(id),
        present == bitset_members(*old(bits)).contains(id),
;

/// `hibitset::BitSet::contains`: whether `id` is in the set.
pub assume_specification[ BitSet::contains ](bits: &BitSet, id: u32) -> (present: bool)
    ensures
        present == bitset_members(*bits).contains(id),
;

/// `hibitset::BitSet::clear`: afterwards the set holds no index.
pub assume_specification[ BitSet::clear ](bits: &mut BitSet)
    ensures
        bitset_members(*final(bits)) == Set::<u32>::empty(),
;

} // verus!
