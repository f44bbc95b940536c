//! The broad-phase detector and the pool of collision sets.

use crate::components::colliders::CollisionData;
use crate::components::colliders::Collisions;
use crate::components::storage::CollisionStorage;
use crate::entity::Entity;
use crate::entity::MAX_ENTITY_ID;
use crate::geometry::circle_in_box;
use crate::geometry::in_circle;
use crate::graph::box_contact;
use crate::graph::circle_contact;
use crate::graph::circle_hits_box;
use crate::graph::collision_graph;
use crate::graph::joins;
use crate::graph::record;
use crate::graph::touching;
use crate::graph::within_limits;
use crate::graph::BoxRow;
use crate::graph::CacheRow;
use crate::pairs::circle_found;
use crate::pairs::circle_pairs;
use crate::pairs::circle_tested;
use crate::pairs::lemma_circle_pairs;
use crate::pairs::row_pairs;
use rayon::iter::IndexedParallelIterator;
use rayon::iter::IntoParallelRefIterator;
use rayon::iter::ParallelIterator;
use vstd::prelude::*;

verus! {

/// The number of circles that the cache of a new detector has room for.
pub const STARTING_CAPACITY: usize = 500;

/// The number of pooled sets after a pass that started with `available`
/// sets, pooled or attached, and left `colliding` entities with a set.
pub open spec fn pool_after_pass(available: nat, colliding: nat) -> nat {
    if colliding <= available {
        (available - colliding) as nat
    } else {
        0
    }
}

/// What the detector reads and writes in one pass: the live circles and
/// boxes with their world positions, and the storage of collision sets.
pub struct CollisionsSystemData {
    pub circles: Vec<CacheRow>,
    pub boxes: Vec<BoxRow>,
    pub collisions: CollisionStorage,
}

impl CollisionsSystemData {
    /// Whether every entity id of the frame is one that a membership
    /// mask can hold, as a detection pass needs it.
    pub fn within_limits(&self) -> (fits: bool)
        ensures
            fits == within_limits(self.circles@, self.boxes@),
    {
        let mut i: usize = 0;
        while i < self.circles.len()
            invariant
                i <= self.circles@.len(),
                forall|k: int| 0 <= k < i ==> (#[trigger] self.circles@[k]).0.id < MAX_ENTITY_ID,
            decreases self.circles@.len() - i,
        {
            if self.circles[i].0.id >= MAX_ENTITY_ID {
                return false;
            }
            i = i + 1;
        }
        let mut j: usize = 0;
        while j < self.boxes.len()
            invariant
                j <= self.boxes@.len(),
                forall|k: int|
                    0 <= k < self.circles@.len() ==> (#[trigger] self.circles@[k]).0.id
                        < MAX_ENTITY_ID,
                forall|k: int| 0 <= k < j ==> (#[trigger] self.boxes@[k]).0.id < MAX_ENTITY_ID,
            decreases self.boxes@.len() - j,
        {
            if self.boxes[j].0.id >= MAX_ENTITY_ID {
                return false;
            }
            j = j + 1;
        }
        true
    }
}

/// The broad-phase detector. It owns the pool of detached collision sets
/// and the cache of circles, both kept from frame to frame.
pub struct CollisionsSystem {
    collision_pool: Vec<Collisions>,
    cache: Vec<CacheRow>,
}

/// Collects the circles that touch the circle of row `index` among the
/// rows after it. Each pair holds the entity of row `index` first.
pub fn handle_circle_row(cache: &Vec<CacheRow>, index: usize) -> (results: Vec<(Entity, Entity)>)
    requires
        index < cache@.len(),
    ensures
        results@ == row_pairs(cache@, index as int, cache@.len() as int),
{
    let mut results: Vec<(Entity, Entity)> = Vec::new();
    let row = cache[index];
    let rows = cache.len();
    let mut other: usize = index + 1;
    while other < rows
        invariant
            rows == cache@.len(),
            index < other <= rows,
            row == cache@[index as int],
            results@ == row_pairs(cache@, index as int, other as int),
        decreases rows - other,
    {
        let candidate = cache[other];
        if in_circle(row.1.radius, row.2, candidate.1.radius, candidate.2) {
            results.push((row.0, candidate.0));
        }
        other = other + 1;
    }
    results
}

/// Rayon's `par_iter`, `enumerate`, `map`, `flatten` and `collect`: the
/// rows of the cache are handled in parallel, each by one call of
/// `handle_circle_row`, and the result gathers every pair of every row,
/// each as often as its row yielded it. Nothing is claimed of the order.
#[verifier::external_body]
fn collect_circle_pairs(cache: &Vec<CacheRow>) -> (pairs: Vec<(Entity, Entity)>)
    ensures
        pairs@.to_multiset() == circle_pairs(cache@, cache@.len() as int).to_multiset(),
{
    cache.par_iter().enumerate().map(|(index, _)| handle_circle_row(cache, index)).flatten().collect()
}

/// Takes a set from the pool and empties it, or makes a new one where the
/// pool is exhausted.
pub fn acquire(pool: &mut Vec<Collisions>) -> (set: Collisions)
    ensures
        set.wf(),
        set@ == Set::<u32>::empty(),
        set.members() == Seq::<u32>::empty(),
        final(pool)@ == if old(pool)@.len() > 0 {
            old(pool)@.drop_last()
        } else {
            old(pool)@
        },
{
    match pool.pop() {
        Some(mut set) => {
            set.reset();
            set
        },
        None => Collisions::new(),
    }
}

/// Records `source` as colliding with `target`. Where `target` has no
/// set attached yet, one is taken from the pool, or made, and attached.
pub fn add_collision(
    pool: &mut Vec<Collisions>,
    collisions: &mut CollisionStorage,
    source: Entity,
    target: Entity,
)
    requires
        old(collisions).wf(),
        source.id < MAX_ENTITY_ID,
    ensures
        final(collisions).wf(),
        final(collisions)@ == record(old(collisions)@, target.id, source.id),
        final(collisions).sources(target.id) == if !old(collisions)@.contains_key(target.id) {
            Seq::<u32>::empty().push(source.id)
        } else if old(collisions)@[target.id].contains(source.id) {
            old(collisions).sources(target.id)
        } else {
            old(collisions).sources(target.id).push(source.id)
        },
        forall|other: u32|
            other != target.id && old(collisions)@.contains_key(other)
                ==> #[trigger] final(collisions).sources(other) == old(collisions).sources(other),
        final(pool)@ == if !old(collisions)@.contains_key(target.id) && old(pool)@.len() > 0 {
            old(pool)@.drop_last()
        } else {
            old(pool)@
        },
{
    if !collisions.record(target, source) {
        let mut set = acquire(pool);
        set.insert(source, CollisionData);
        collisions.insert(target, set);
    }
}

impl Default for CollisionsSystem {
    /// A detector with an empty pool.
    fn default() -> (system: CollisionsSystem)
        ensures
            system.pooled() == 0,
    {
        CollisionsSystem::new()
    }
}

impl CollisionsSystem {
    /// The number of detached sets that wait in the pool.
    pub closed spec fn pooled(&self) -> nat {
        self.collision_pool@.len()
    }

    /// Creates a detector with an empty pool.
    pub fn new() -> (system: CollisionsSystem)
        ensures
            system.pooled() == 0,
    {
        CollisionsSystem {
            collision_pool: Vec::new(),
            cache: Vec::with_capacity(STARTING_CAPACITY),
        }
    }

    /// The number of detached sets that wait in the pool.
    pub fn pool_len(&self) -> (len: usize)
        ensures
            len == self.pooled(),
    {
        self.collision_pool.len()
    }

    /// Detaches the set of every entity that has one and pushes it onto
    /// the pool, so that no entity is left with a set.
    pub fn drain_all_attached_into_pool(&mut self, collisions: &mut CollisionStorage)
        requires
            old(collisions).wf(),
        ensures
            final(collisions).wf(),
            final(collisions)@ == Map::<u32, Set<u32>>::empty(),
            final(self).pooled() == old(self).pooled() + old(collisions)@.dom().len(),
    {
        collisions.drain_into(&mut self.collision_pool);
    }

    /// Takes a set from the pool and empties it, or makes a new one
    /// where the pool is exhausted.
    pub fn acquire(&mut self) -> (set: Collisions)
        ensures
            set.wf(),
            set@ == Set::<u32>::empty(),
            set.members() == Seq::<u32>::empty(),
            final(self).pooled() == if old(self).pooled() > 0 {
                (old(self).pooled() - 1) as nat
            } else {
                0
            },
    {
        acquire(&mut self.collision_pool)
    }

    /// Runs one detection pass: recycles the sets of the last frame, then
    /// attaches to every entity that touches another the set of the
    /// entities that touch it.
    pub fn run(&mut self, data: &mut CollisionsSystemData)
        requires
            old(data).collisions.wf(),
            within_limits(old(data).circles@, old(data).boxes@),
        ensures
            final(data).collisions.wf(),
            final(data).circles == old(data).circles,
            final(data).boxes == old(data).boxes,
            final(data).collisions@ == collision_graph(old(data).circles@, old(data).boxes@),
            final(self).pooled() == pool_after_pass(
                old(self).pooled() + old(data).collisions@.dom().len(),
                final(data).collisions@.dom().len(),
            ),
    {
        self.drain_all_attached_into_pool(&mut data.collisions);
        self.cache.clear();
        let ghost available = self.pooled();
        let ghost mut done: Seq<(u32, u32)> = Seq::empty();
        proof {
            data.collisions.lemma_finite();
            assert(data.collisions@ =~= graph_of(done));
        }
        let circle_count = data.circles.len();
        let box_count = data.boxes.len();
        let mut i: usize = 0;
        while i < circle_count
            invariant
                i <= circle_count,
                circle_count == data.circles@.len(),
                box_count == data.boxes@.len(),
                data.circles == old(data).circles,
                data.boxes == old(data).boxes,
                within_limits(data.circles@, data.boxes@),
                self.cache@ == data.circles@.take(i as int),
                data.collisions.wf(),
                data.collisions@ == graph_of(done),
                self.pooled() == pool_after_pass(available, data.collisions@.dom().len()),
                box_phase(data.circles@, data.boxes@, i as int, 0, done),
            decreases circle_count - i,
        {
            let circle = data.circles[i];
            self.cache.push(circle);
            assert(self.cache@ =~= data.circles@.take(i + 1));
            let mut j: usize = 0;
            while j < box_count
                invariant
                    i < circle_count,
                    j <= box_count,
                    circle_count == data.circles@.len(),
                    box_count == data.boxes@.len(),
                    circle == data.circles@[i as int],
                    data.circles == old(data).circles,
                    data.boxes == old(data).boxes,
                    within_limits(data.circles@, data.boxes@),
                    self.cache@ == data.circles@.take(i + 1),
                    data.collisions.wf(),
                    data.collisions@ == graph_of(done),
                    self.pooled() == pool_after_pass(available, data.collisions@.dom().len()),
                    box_phase(data.circles@, data.boxes@, i as int, j as int, done),
                decreases box_count - j,
            {
                let boxed = data.boxes[j];
                if circle_in_box(circle.1.radius, circle.2, boxed.1.width, boxed.1.height, boxed.2) {
                    proof {
                        data.collisions.lemma_finite();
                        lemma_pool_step(
                            available,
                            self.pooled(),
                            data.collisions@.dom(),
                            boxed.0.id,
                        );
                    }
                    add_collision(&mut self.collision_pool, &mut data.collisions, circle.0, boxed.0);
                    proof {
                        data.collisions.lemma_finite();
                        lemma_pool_step(
                            available,
                            self.pooled(),
                            data.collisions@.dom(),
                            circle.0.id,
                        );
                    }
                    add_collision(&mut self.collision_pool, &mut data.collisions, boxed.0, circle.0);
                    proof {
                        lemma_graph_push(done, circle.0.id, boxed.0.id);
                        lemma_box_hit(data.circles@, data.boxes@, i as int, j as int, done);
                        done = done.push((circle.0.id, boxed.0.id));
                    }
                } else {
                    proof {
                        lemma_box_moved(
                            data.circles@,
                            data.boxes@,
                            i as int,
                            j as int,
                            i as int,
                            j + 1,
                            done,
                        );
                    }
                }
                j = j + 1;
            }
            proof {
                lemma_box_moved(
                    data.circles@,
                    data.boxes@,
                    i as int,
                    box_count as int,
                    i + 1,
                    0,
                    done,
                );
            }
            i = i + 1;
        }
        assert(self.cache@ =~= data.circles@);
        let pairs = collect_circle_pairs(&self.cache);
        let ghost boxed = done;
        proof {
            let expected = circle_pairs(data.circles@, circle_count as int);
            lemma_circle_pairs(data.circles@, circle_count as int);
            pairs@.to_multiset_ensures();
            expected.to_multiset_ensures();
            assert forall|pair: (Entity, Entity)| #[trigger]
                pairs@.contains(pair) <==> circle_found(
                    data.circles@,
                    circle_count as int,
                    pair,
                ) by {
                assert(pairs@.contains(pair) <==> pairs@.to_multiset().count(pair) > 0);
                assert(expected.contains(pair) <==> expected.to_multiset().count(pair) > 0);
            }
            assert forall|k: int| 0 <= k < pairs@.len() implies (#[trigger] pairs@[k]).0.id
                < MAX_ENTITY_ID && pairs@[k].1.id < MAX_ENTITY_ID by {
                assert(pairs@.contains(pairs@[k]));
                assert(circle_found(data.circles@, circle_count as int, pairs@[k]));
                let (i2, j2) = choose|i2: int, j2: int|
                    i2 < circle_count && #[trigger] circle_tested(data.circles@, i2, j2, pairs@[k]);
                assert(data.circles@[i2].0.id < MAX_ENTITY_ID);
                assert(data.circles@[j2].0.id < MAX_ENTITY_ID);
            }
            assert(done =~= boxed + pair_ids(pairs@).take(0));
        }
        let pair_count = pairs.len();
        let mut k: usize = 0;
        while k < pair_count
            invariant
                k <= pair_count,
                pair_count == pairs@.len(),
                forall|m: int|
                    0 <= m < pairs@.len() ==> (#[trigger] pairs@[m]).0.id < MAX_ENTITY_ID
                        && pairs@[m].1.id < MAX_ENTITY_ID,
                data.circles == old(data).circles,
                data.boxes == old(data).boxes,
                data.collisions.wf(),
                data.collisions@ == graph_of(done),
                self.pooled() == pool_after_pass(available, data.collisions@.dom().len()),
                done == boxed + pair_ids(pairs@).take(k as int),
            decreases pair_count - k,
        {
            let (entity_a, entity_b) = pairs[k];
            proof {
                data.collisions.lemma_finite();
                lemma_pool_step(available, self.pooled(), data.collisions@.dom(), entity_b.id);
            }
            add_collision(&mut self.collision_pool, &mut data.collisions, entity_a, entity_b);
            proof {
                data.collisions.lemma_finite();
                lemma_pool_step(available, self.pooled(), data.collisions@.dom(), entity_a.id);
            }
            add_collision(&mut self.collision_pool, &mut data.collisions, entity_b, entity_a);
            proof {
                lemma_graph_push(done, entity_a.id, entity_b.id);
                assert(done.push((entity_a.id, entity_b.id)) =~= boxed + pair_ids(pairs@).take(
                    k + 1,
                ));
                done = done.push((entity_a.id, entity_b.id));
            }
            k = k + 1;
        }
        proof {
            assert(pair_ids(pairs@).take(pair_count as int) =~= pair_ids(pairs@));
            lemma_graph_complete(data.circles@, data.boxes@, boxed, pairs@);
        }
        self.cache.clear();
    }
}

/// A pass that finds as many colliding entities as the pass before it
/// takes every set from the pool: the number of sets in existence, pooled
/// or attached, stays what it was.
pub proof fn lemma_pool_reuse(available: nat, colliding: nat)
    ensures
        ({
            let existing = pool_after_pass(available, colliding) + colliding;
            pool_after_pass(existing, colliding) + colliding == existing
        }),
{
}

proof fn lemma_pool_step(available: nat, pooled: nat, attached: Set<u32>, target: u32)
    requires
        attached.finite(),
        pooled == pool_after_pass(available, attached.len()),
    ensures
        pool_after_pass(available, attached.insert(target).len()) == if !attached.contains(target)
            && pooled > 0 {
            (pooled - 1) as nat
        } else {
            pooled
        },
{
}

/// Whether some listed pair joins `a` and `b`.
spec fn linked(done: Seq<(u32, u32)>, a: u32, b: u32) -> bool {
    exists|k: int| 0 <= k < done.len() && joins((#[trigger] done[k]).0, done[k].1, a, b)
}

/// The graph that recording every listed pair in both directions gives.
spec fn graph_of(done: Seq<(u32, u32)>) -> Map<u32, Set<u32>> {
    Map::new(
        |a: u32| exists|b: u32| #[trigger] linked(done, a, b),
        |a: u32| Set::new(|b: u32| linked(done, a, b)),
    )
}

proof fn lemma_linked_push(done: Seq<(u32, u32)>, x: u32, y: u32)
    ensures
        forall|a: u32, b: u32| #[trigger]
            linked(done.push((x, y)), a, b) <==> linked(done, a, b) || joins(x, y, a, b),
{
    let next = done.push((x, y));
    assert forall|a: u32, b: u32| #[trigger] linked(next, a, b) implies linked(done, a, b) || joins(
        x,
        y,
        a,
        b,
    ) by {
        let k = choose|k: int| 0 <= k < next.len() && joins((#[trigger] next[k]).0, next[k].1, a, b);
        if k < done.len() {
            assert(next[k] == done[k]);
        }
    }
    assert forall|a: u32, b: u32| linked(done, a, b) || joins(x, y, a, b) implies #[trigger] linked(
        next,
        a,
        b,
    ) by {
        if linked(done, a, b) {
            let k = choose|k: int|
                0 <= k < done.len() && joins((#[trigger] done[k]).0, done[k].1, a, b);
            assert(next[k] == done[k]);
        } else {
            assert(next[done.len() as int] == (x, y));
        }
    }
}

/// Listing one more pair amounts to recording it in both directions.
proof fn lemma_graph_push(done: Seq<(u32, u32)>, x: u32, y: u32)
    ensures
        graph_of(done.push((x, y))) == record(record(graph_of(done), y, x), x, y),
{
    lemma_linked_push(done, x, y);
    let listed = done.push((x, y));
    let next = graph_of(listed);
    let graph = graph_of(done);
    let want = record(record(graph, y, x), x, y);
    assert(joins(x, y, x, y) && joins(x, y, y, x));
    assert forall|a: u32| next.contains_key(a) <==> want.contains_key(a) by {
        if next.contains_key(a) {
            let b = choose|b: u32| #[trigger] linked(listed, a, b);
            if linked(done, a, b) {
                assert(graph.contains_key(a));
            }
        }
        if want.contains_key(a) {
            if a == x {
                assert(linked(listed, a, y));
            } else if a == y {
                assert(linked(listed, a, x));
            } else {
                let b = choose|b: u32| #[trigger] linked(done, a, b);
                assert(linked(listed, a, b));
            }
        }
    }
    assert forall|a: u32| next.contains_key(a) implies #[trigger] next[a] == want[a] by {
        assert forall|b: u32| next[a].contains(b) <==> want[a].contains(b) by {
            if graph.contains_key(a) {
            } else {
                assert(!linked(done, a, b));
            }
        }
        assert(next[a] =~= want[a]);
    }
    assert(next =~= want);
}

/// Whether test `(i2, j2)` comes before test `(i, j)` in the box phase.
spec fn earlier(i2: int, j2: int, i: int, j: int) -> bool {
    i2 < i || (i2 == i && j2 < j)
}

/// `pair` holds the ids of circle `i2` and box `j2`, which touch and were
/// tested before `(i, j)`.
spec fn box_tested(
    circles: Seq<CacheRow>,
    boxes: Seq<BoxRow>,
    i: int,
    j: int,
    i2: int,
    j2: int,
    pair: (u32, u32),
) -> bool {
    &&& 0 <= i2 < circles.len()
    &&& 0 <= j2 < boxes.len()
    &&& earlier(i2, j2, i, j)
    &&& circle_hits_box(circles[i2], boxes[j2])
    &&& pair == (circles[i2].0.id, boxes[j2].0.id)
}

spec fn box_found(circles: Seq<CacheRow>, boxes: Seq<BoxRow>, i: int, j: int, pair: (u32, u32)) -> bool {
    exists|i2: int, j2: int| #[trigger] box_tested(circles, boxes, i, j, i2, j2, pair)
}

/// `done` lists the touching circle-box pairs among the tests before
/// `(i, j)`, and nothing else.
spec fn box_phase(
    circles: Seq<CacheRow>,
    boxes: Seq<BoxRow>,
    i: int,
    j: int,
    done: Seq<(u32, u32)>,
) -> bool {
    &&& forall|k: int| 0 <= k < done.len() ==> box_found(circles, boxes, i, j, #[trigger] done[k])
    &&& forall|i2: int, j2: int|
        0 <= i2 < circles.len() && 0 <= j2 < boxes.len() && earlier(i2, j2, i, j)
            && #[trigger] circle_hits_box(circles[i2], boxes[j2]) ==> done.contains(
            (circles[i2].0.id, boxes[j2].0.id),
        )
}

proof fn lemma_box_moved(
    circles: Seq<CacheRow>,
    boxes: Seq<BoxRow>,
    i: int,
    j: int,
    i_next: int,
    j_next: int,
    done: Seq<(u32, u32)>,
)
    requires
        box_phase(circles, boxes, i, j, done),
        forall|i2: int, j2: int|
            0 <= i2 < circles.len() && 0 <= j2 < boxes.len() && #[trigger] earlier(i2, j2, i, j)
                ==> earlier(i2, j2, i_next, j_next),
        forall|i2: int, j2: int|
            0 <= i2 < circles.len() && 0 <= j2 < boxes.len() && #[trigger] earlier(
                i2,
                j2,
                i_next,
                j_next,
            ) && circle_hits_box(circles[i2], boxes[j2]) ==> earlier(i2, j2, i, j),
    ensures
        box_phase(circles, boxes, i_next, j_next, done),
{
    assert forall|k: int| 0 <= k < done.len() implies box_found(
        circles,
        boxes,
        i_next,
        j_next,
        #[trigger] done[k],
    ) by {
        assert(box_found(circles, boxes, i, j, done[k]));
        let (i2, j2) = choose|i2: int, j2: int| #[trigger]
            box_tested(circles, boxes, i, j, i2, j2, done[k]);
        assert(box_tested(circles, boxes, i_next, j_next, i2, j2, done[k]));
    }
    assert forall|i2: int, j2: int|
        0 <= i2 < circles.len() && 0 <= j2 < boxes.len() && earlier(i2, j2, i_next, j_next)
            && #[trigger] circle_hits_box(circles[i2], boxes[j2]) implies done.contains(
        (circles[i2].0.id, boxes[j2].0.id),
    ) by {
        assert(earlier(i2, j2, i, j));
    }
}

proof fn lemma_box_hit(
    circles: Seq<CacheRow>,
    boxes: Seq<BoxRow>,
    i: int,
    j: int,
    done: Seq<(u32, u32)>,
)
    requires
        0 <= i < circles.len(),
        0 <= j < boxes.len(),
        box_phase(circles, boxes, i, j, done),
        circle_hits_box(circles[i], boxes[j]),
    ensures
        box_phase(circles, boxes, i, j + 1, done.push((circles[i].0.id, boxes[j].0.id))),
{
    let pair = (circles[i].0.id, boxes[j].0.id);
    let next = done.push(pair);
    assert forall|k: int| 0 <= k < next.len() implies box_found(
        circles,
        boxes,
        i,
        j + 1,
        #[trigger] next[k],
    ) by {
        if k < done.len() {
            assert(next[k] == done[k]);
            assert(box_found(circles, boxes, i, j, done[k]));
            let (i2, j2) = choose|i2: int, j2: int| #[trigger]
                box_tested(circles, boxes, i, j, i2, j2, done[k]);
            assert(box_tested(circles, boxes, i, j + 1, i2, j2, next[k]));
        } else {
            assert(box_tested(circles, boxes, i, j + 1, i, j, next[k]));
        }
    }
    assert forall|i2: int, j2: int|
        0 <= i2 < circles.len() && 0 <= j2 < boxes.len() && earlier(i2, j2, i, j + 1)
            && #[trigger] circle_hits_box(circles[i2], boxes[j2]) implies next.contains(
        (circles[i2].0.id, boxes[j2].0.id),
    ) by {
        if earlier(i2, j2, i, j) {
            let found = (circles[i2].0.id, boxes[j2].0.id);
            assert(done.contains(found));
            let k = choose|k: int| 0 <= k < done.len() && done[k] == found;
            assert(next[k] == found);
        } else {
            assert(next[done.len() as int] == pair);
        }
    }
}

/// The ids of the entities of each pair.
spec fn pair_ids(pairs: Seq<(Entity, Entity)>) -> Seq<(u32, u32)> {
    Seq::new(pairs.len(), |k: int| (pairs[k].0.id, pairs[k].1.id))
}

/// Once every touching circle-box pair and every touching pair of
/// circles is listed, and nothing else, the listed pairs give the
/// collision graph.
proof fn lemma_graph_complete(
    circles: Seq<CacheRow>,
    boxes: Seq<BoxRow>,
    boxed: Seq<(u32, u32)>,
    pairs: Seq<(Entity, Entity)>,
)
    requires
        box_phase(circles, boxes, circles.len() as int, 0, boxed),
        forall|pair: (Entity, Entity)| #[trigger]
            pairs.contains(pair) <==> circle_found(circles, circles.len() as int, pair),
    ensures
        graph_of(boxed + pair_ids(pairs)) == collision_graph(circles, boxes),
{
    let done = boxed + pair_ids(pairs);
    let rows = circles.len() as int;
    assert forall|a: u32, b: u32| #[trigger] linked(done, a, b) implies touching(
        circles,
        boxes,
        a,
        b,
    ) by {
        let k = choose|k: int| 0 <= k < done.len() && joins((#[trigger] done[k]).0, done[k].1, a, b);
        if k < boxed.len() {
            assert(done[k] == boxed[k]);
            assert(box_found(circles, boxes, rows, 0, boxed[k]));
            let (i2, j2) = choose|i2: int, j2: int| #[trigger]
                box_tested(circles, boxes, rows, 0, i2, j2, boxed[k]);
            assert(box_contact(circles, boxes, i2, j2, a, b));
        } else {
            let m = k - boxed.len();
            assert(done[k] == pair_ids(pairs)[m]);
            assert(pairs.contains(pairs[m]));
            assert(circle_found(circles, rows, pairs[m]));
            let (i, j) = choose|i: int, j: int|
                i < rows && #[trigger] circle_tested(circles, i, j, pairs[m]);
            assert(circle_contact(circles, i, j, a, b));
        }
    }
    assert forall|a: u32, b: u32| #[trigger] touching(circles, boxes, a, b) implies linked(
        done,
        a,
        b,
    ) by {
        if exists|i: int, j: int| #[trigger] box_contact(circles, boxes, i, j, a, b) {
            let (i, j) = choose|i: int, j: int| #[trigger] box_contact(circles, boxes, i, j, a, b);
            assert(earlier(i, j, rows, 0));
            assert(circle_hits_box(circles[i], boxes[j]));
            let found = (circles[i].0.id, boxes[j].0.id);
            assert(boxed.contains(found));
            let k = choose|k: int| 0 <= k < boxed.len() && boxed[k] == found;
            assert(done[k] == found);
        } else {
            let (i, j) = choose|i: int, j: int| #[trigger] circle_contact(circles, i, j, a, b);
            let pair = (circles[i].0, circles[j].0);
            assert(circle_tested(circles, i, j, pair));
            assert(circle_found(circles, rows, pair));
            assert(pairs.contains(pair));
            let m = choose|m: int| 0 <= m < pairs.len() && pairs[m] == pair;
            assert(done[boxed.len() + m] == pair_ids(pairs)[m]);
        }
    }
    let listed = graph_of(done);
    let graph = collision_graph(circles, boxes);
    assert forall|a: u32| listed.contains_key(a) <==> graph.contains_key(a) by {
        if listed.contains_key(a) {
            let b = choose|b: u32| #[trigger] linked(done, a, b);
            assert(touching(circles, boxes, a, b));
        }
        if graph.contains_key(a) {
            let b = choose|b: u32| #[trigger] touching(circles, boxes, a, b);
            assert(linked(done, a, b));
        }
    }
    assert forall|a: u32| listed.contains_key(a) implies #[trigger] listed[a] == graph[a] by {
        assert(listed[a] =~= graph[a]);
    }
    assert(listed =~= graph);
}

} // verus!
