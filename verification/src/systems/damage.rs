//! Which entities are struck by which damage dealers in a frame.

use crate::components::storage::CollisionStorage;
use crate::entity::Entity;
use vstd::prelude::*;

verus! {

/// Whether `target` is in the collision set of `dealer`.
pub open spec fn struck(graph: Map<u32, Set<u32>>, dealer: Entity, target: Entity) -> bool {
    graph.contains_key(dealer.id) && graph[dealer.id].contains(target.id)
}

/// The strikes of one dealer: a pair for each target in its collision
/// set, in the order of `targets`.
pub open spec fn strikes_of(
    graph: Map<u32, Set<u32>>,
    dealer: Entity,
    targets: Seq<Entity>,
) -> Seq<(Entity, Entity)> {
    targets.filter(|target: Entity| struck(graph, dealer, target)).map_values(
        |target: Entity| (dealer, target),
    )
}

/// The strikes of all dealers, dealer after dealer.
pub open spec fn strikes(
    graph: Map<u32, Set<u32>>,
    dealers: Seq<Entity>,
    targets: Seq<Entity>,
) -> Seq<(Entity, Entity)>
    decreases dealers.len(),
{
    if dealers.len() == 0 {
        Seq::empty()
    } else {
        strikes(graph, dealers.drop_last(), targets) + strikes_of(graph, dealers.last(), targets)
    }
}

proof fn lemma_strikes_of_step(
    graph: Map<u32, Set<u32>>,
    dealer: Entity,
    targets: Seq<Entity>,
    count: int,
)
    requires
        0 <= count < targets.len(),
    ensures
        strikes_of(graph, dealer, targets.take(count + 1)) == if struck(
            graph,
            dealer,
            targets[count],
        ) {
            strikes_of(graph, dealer, targets.take(count)).push((dealer, targets[count]))
        } else {
            strikes_of(graph, dealer, targets.take(count))
        },
{
    reveal(Seq::filter);
    let hit = |target: Entity| struck(graph, dealer, target);
    let pair = |target: Entity| (dealer, target);
    let longer = targets.take(count + 1);
    let shorter = targets.take(count);
    assert(longer.drop_last() =~= shorter);
    assert(longer.last() == targets[count]);
    if struck(graph, dealer, targets[count]) {
        assert(longer.filter(hit) == shorter.filter(hit).push(targets[count]));
        assert(longer.filter(hit).map_values(pair) =~= shorter.filter(hit).map_values(pair).push(
            (dealer, targets[count]),
        ));
    } else {
        assert(longer.filter(hit) == shorter.filter(hit));
    }
}

/// Finds the entities that damage dealers strike.
pub struct DamageSystem;

impl DamageSystem {
    /// Lists every strike of the frame: for each dealer, in the order of
    /// `dealers`, a pair of the dealer and each of `targets` that is in
    /// the dealer's collision set, in the order of `targets`.
    pub fn run(
        &mut self,
        dealers: &Vec<Entity>,
        targets: &Vec<Entity>,
        collisions: &CollisionStorage,
    ) -> (hits: Vec<(Entity, Entity)>)
        requires
            collisions.wf(),
        ensures
            hits@ == strikes(collisions@, dealers@, targets@),
    {
        let mut hits: Vec<(Entity, Entity)> = Vec::new();
        let mut i: usize = 0;
        assert(dealers@.take(0) =~= Seq::<Entity>::empty());
        while i < dealers.len()
            invariant
                i <= dealers@.len(),
                collisions.wf(),
                hits@ == strikes(collisions@, dealers@.take(i as int), targets@),
            decreases dealers@.len() - i,
        {
            let dealer = dealers[i];
            let found = collisions.get(dealer);
            let ghost before = hits@;
            let mut j: usize = 0;
            proof {
                reveal(Seq::filter);
                assert(targets@.take(0) =~= Seq::<Entity>::empty());
                assert(strikes_of(collisions@, dealer, targets@.take(0)) =~= Seq::empty());
                assert(hits@ =~= before + strikes_of(collisions@, dealer, targets@.take(0)));
            }
            while j < targets.len()
                invariant
                    j <= targets@.len(),
                    collisions.wf(),
                    found is Some <==> collisions@.contains_key(dealer.id),
                    found is Some ==> found.unwrap()@ == collisions@[dealer.id],
                    hits@ == before + strikes_of(collisions@, dealer, targets@.take(j as int)),
                decreases targets@.len() - j,
            {
                let target = targets[j];
                let hit = match found {
                    Some(set) => set.contains(target),
                    None => false,
                };
                proof {
                    lemma_strikes_of_step(collisions@, dealer, targets@, j as int);
                }
                if hit {
                    hits.push((dealer, target));
                    assert(hits@ =~= before + strikes_of(
                        collisions@,
                        dealer,
                        targets@.take(j + 1),
                    ));
                }
                j = j + 1;
            }
            proof {
                assert(targets@.take(targets@.len() as int) =~= targets@);
                assert(dealers@.take(i + 1).drop_last() =~= dealers@.take(i as int));
                assert(dealers@.take(i + 1).last() == dealer);
            }
            i = i + 1;
        }
        assert(dealers@.take(dealers@.len() as int) =~= dealers@);
        hits
    }
}

} // verus!
