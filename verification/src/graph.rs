//! The collision graph of a frame: which entities touch which.

use crate::components::colliders::BoxCollider;
use crate::components::colliders::CircleCollider;
use crate::entity::Entity;
use crate::entity::MAX_ENTITY_ID;
use crate::geometry::lemma_in_circle_symmetric;
use crate::geometry::spec_circle_in_box;
use crate::geometry::spec_in_circle;
use crate::geometry::Position;
use vstd::prelude::*;

verus! {

/// A circle as the detector caches it: its entity, its collider and its
/// world position.
pub type CacheRow = (Entity, CircleCollider, Position);

/// A box with its entity and the world position of its centre.
pub type BoxRow = (Entity, BoxCollider, Position);

/// Whether the pair `(x, y)` is the pair `(a, b)` in either order.
pub open spec fn joins(x: u32, y: u32, a: u32, b: u32) -> bool {
    (x == a && y == b) || (x == b && y == a)
}

/// Whether the circle of `circle` touches the box of `boxed`.
pub open spec fn circle_hits_box(circle: CacheRow, boxed: BoxRow) -> bool {
    spec_circle_in_box(
        circle.1.radius as int,
        circle.2,
        boxed.1.width as int,
        boxed.1.height as int,
        boxed.2,
    )
}

/// Whether the circles of two rows touch.
pub open spec fn circles_hit(circle: CacheRow, other: CacheRow) -> bool {
    spec_in_circle(circle.1.radius as int, circle.2, other.1.radius as int, other.2)
}

/// Circle `i` touches box `j`, and their entities have the ids `a` and
/// `b`, in either order.
pub open spec fn box_contact(
    circles: Seq<CacheRow>,
    boxes: Seq<BoxRow>,
    i: int,
    j: int,
    a: u32,
    b: u32,
) -> bool {
    &&& 0 <= i < circles.len()
    &&& 0 <= j < boxes.len()
    &&& circle_hits_box(circles[i], boxes[j])
    &&& joins(circles[i].0.id, boxes[j].0.id, a, b)
}

/// Circles `i` and `j`, with `i` before `j`, touch, and their entities
/// have the ids `a` and `b`, in either order.
pub open spec fn circle_contact(circles: Seq<CacheRow>, i: int, j: int, a: u32, b: u32) -> bool {
    &&& 0 <= i < j < circles.len()
    &&& circles_hit(circles[i], circles[j])
    &&& joins(circles[i].0.id, circles[j].0.id, a, b)
}

/// Some shape of the entity with id `a` touches some shape of the entity
/// with id `b`.
pub open spec fn touching(circles: Seq<CacheRow>, boxes: Seq<BoxRow>, a: u32, b: u32) -> bool {
    ||| exists|i: int, j: int| #[trigger] box_contact(circles, boxes, i, j, a, b)
    ||| exists|i: int, j: int| #[trigger] circle_contact(circles, i, j, a, b)
}

/// The collision graph of a frame: every entity id that touches another,
/// with the ids that touch it.
pub open spec fn collision_graph(circles: Seq<CacheRow>, boxes: Seq<BoxRow>) -> Map<u32, Set<u32>> {
    Map::new(
        |a: u32| exists|b: u32| #[trigger] touching(circles, boxes, a, b),
        |a: u32| Set::new(|b: u32| touching(circles, boxes, a, b)),
    )
}

/// The graph after `source` was recorded as colliding with `target`.
pub open spec fn record(graph: Map<u32, Set<u32>>, target: u32, source: u32) -> Map<u32, Set<u32>> {
    graph.insert(
        target,
        if graph.contains_key(target) {
            graph[target].insert(source)
        } else {
            Set::<u32>::empty().insert(source)
        },
    )
}

/// Whether every entity id is one that a membership mask can hold.
pub open spec fn within_limits(circles: Seq<CacheRow>, boxes: Seq<BoxRow>) -> bool {
    &&& forall|i: int| 0 <= i < circles.len() ==> (#[trigger] circles[i]).0.id < MAX_ENTITY_ID
    &&& forall|j: int| 0 <= j < boxes.len() ==> (#[trigger] boxes[j]).0.id < MAX_ENTITY_ID
}

/// Whether no two circles share an entity id.
pub open spec fn distinct_circles(circles: Seq<CacheRow>) -> bool {
    forall|i: int, j: int|
        0 <= i < j < circles.len() ==> (#[trigger] circles[i]).0.id != (#[trigger] circles[j]).0.id
}

/// Whether no two circles share an entity id, and no circle shares one
/// with a box.
pub open spec fn distinct_ids(circles: Seq<CacheRow>, boxes: Seq<BoxRow>) -> bool {
    &&& distinct_circles(circles)
    &&& forall|i: int, j: int|
        0 <= i < circles.len() && 0 <= j < boxes.len() ==> (#[trigger] circles[i]).0.id != (
        #[trigger] boxes[j]).0.id
}

/// Collisions are mutual: where the set of `a` holds `b`, the set of `b`
/// holds `a`.
pub proof fn lemma_collisions_symmetric(
    circles: Seq<CacheRow>,
    boxes: Seq<BoxRow>,
    a: u32,
    b: u32,
)
    requires
        collision_graph(circles, boxes).contains_key(a),
        collision_graph(circles, boxes)[a].contains(b),
    ensures
        collision_graph(circles, boxes).contains_key(b),
        collision_graph(circles, boxes)[b].contains(a),
{
    assert(touching(circles, boxes, a, b));
    if exists|i: int, j: int| #[trigger] box_contact(circles, boxes, i, j, a, b) {
        let (i, j) = choose|i: int, j: int| #[trigger] box_contact(circles, boxes, i, j, a, b);
        assert(box_contact(circles, boxes, i, j, b, a));
    } else {
        let (i, j) = choose|i: int, j: int| #[trigger] circle_contact(circles, i, j, a, b);
        assert(circle_contact(circles, i, j, b, a));
    }
    assert(touching(circles, boxes, b, a));
}

/// No entity collides with itself, provided that every shape belongs to
/// an entity of its own.
pub proof fn lemma_no_self_collision(circles: Seq<CacheRow>, boxes: Seq<BoxRow>, a: u32)
    requires
        distinct_ids(circles, boxes),
        collision_graph(circles, boxes).contains_key(a),
    ensures
        !collision_graph(circles, boxes)[a].contains(a),
{
    if touching(circles, boxes, a, a) {
        if exists|i: int, j: int| #[trigger] box_contact(circles, boxes, i, j, a, a) {
            let (i, j) = choose|i: int, j: int| #[trigger] box_contact(circles, boxes, i, j, a, a);
            assert(circles[i].0.id != boxes[j].0.id);
        } else {
            let (i, j) = choose|i: int, j: int| #[trigger] circle_contact(circles, i, j, a, a);
            assert(circles[i].0.id != circles[j].0.id);
        }
    }
}

/// Where no two shapes touch, the collision graph is empty: no entity
/// has a set.
pub proof fn lemma_no_overlap_no_sets(circles: Seq<CacheRow>, boxes: Seq<BoxRow>)
    requires
        forall|i: int, j: int|
            0 <= i < circles.len() && 0 <= j < boxes.len() ==> !#[trigger] circle_hits_box(
                circles[i],
                boxes[j],
            ),
        forall|i: int, j: int|
            0 <= i < j < circles.len() ==> !#[trigger] circles_hit(circles[i], circles[j]),
    ensures
        collision_graph(circles, boxes) == Map::<u32, Set<u32>>::empty(),
{
    assert forall|a: u32, b: u32| !touching(circles, boxes, a, b) by {
        if exists|i: int, j: int| #[trigger] box_contact(circles, boxes, i, j, a, b) {
            let (i, j) = choose|i: int, j: int| #[trigger] box_contact(circles, boxes, i, j, a, b);
            assert(circle_hits_box(circles[i], boxes[j]));
        }
        if exists|i: int, j: int| #[trigger] circle_contact(circles, i, j, a, b) {
            let (i, j) = choose|i: int, j: int| #[trigger] circle_contact(circles, i, j, a, b);
            assert(circles_hit(circles[i], circles[j]));
        }
    }
    assert(collision_graph(circles, boxes) =~= Map::<u32, Set<u32>>::empty());
}

/// Recording the same source for the same target twice is the same as
/// recording it once.
pub proof fn lemma_record_idempotent(graph: Map<u32, Set<u32>>, target: u32, source: u32)
    ensures
        record(record(graph, target, source), target, source) == record(graph, target, source),
{
    let once = record(graph, target, source);
    assert(once[target].insert(source) =~= once[target]);
    assert(record(once, target, source) =~= once);
}

/// The order in which two collisions are recorded does not matter.
pub proof fn lemma_record_commutes(
    graph: Map<u32, Set<u32>>,
    target: u32,
    source: u32,
    other_target: u32,
    other_source: u32,
)
    ensures
        record(record(graph, target, source), other_target, other_source) == record(
            record(graph, other_target, other_source),
            target,
            source,
        ),
{
    let left = record(record(graph, target, source), other_target, other_source);
    let right = record(record(graph, other_target, other_source), target, source);
    assert forall|a: u32| left.contains_key(a) implies #[trigger] left[a] == right[a] by {
        assert(left[a] =~= right[a]);
    }
    assert(left =~= right);
}

/// An entity has a set only while something touches it: no set of the
/// graph is empty.
pub proof fn lemma_sets_not_empty(circles: Seq<CacheRow>, boxes: Seq<BoxRow>, a: u32)
    requires
        collision_graph(circles, boxes).contains_key(a),
    ensures
        exists|b: u32| collision_graph(circles, boxes)[a].contains(b),
{
    let b = choose|b: u32| #[trigger] touching(circles, boxes, a, b);
    assert(collision_graph(circles, boxes)[a].contains(b));
}

proof fn lemma_touching_transfers(
    circles: Seq<CacheRow>,
    boxes: Seq<BoxRow>,
    other_circles: Seq<CacheRow>,
    other_boxes: Seq<BoxRow>,
    a: u32,
    b: u32,
)
    requires
        distinct_circles(circles),
        forall|row: CacheRow| circles.contains(row) ==> other_circles.contains(row),
        forall|row: BoxRow| boxes.contains(row) ==> other_boxes.contains(row),
        touching(circles, boxes, a, b),
    ensures
        touching(other_circles, other_boxes, a, b),
{
    if exists|i: int, j: int| #[trigger] box_contact(circles, boxes, i, j, a, b) {
        let (i, j) = choose|i: int, j: int| #[trigger] box_contact(circles, boxes, i, j, a, b);
        assert(circles.contains(circles[i]));
        assert(boxes.contains(boxes[j]));
        let i2 = choose|i2: int| 0 <= i2 < other_circles.len() && other_circles[i2] == circles[i];
        let j2 = choose|j2: int| 0 <= j2 < other_boxes.len() && other_boxes[j2] == boxes[j];
        assert(box_contact(other_circles, other_boxes, i2, j2, a, b));
    } else {
        let (i, j) = choose|i: int, j: int| #[trigger] circle_contact(circles, i, j, a, b);
        assert(circles.contains(circles[i]));
        assert(circles.contains(circles[j]));
        assert(circles[i].0.id != circles[j].0.id);
        let i2 = choose|i2: int| 0 <= i2 < other_circles.len() && other_circles[i2] == circles[i];
        let j2 = choose|j2: int| 0 <= j2 < other_circles.len() && other_circles[j2] == circles[j];
        if i2 < j2 {
            assert(circle_contact(other_circles, i2, j2, a, b));
        } else {
            lemma_in_circle_symmetric(
                circles[i].1.radius as int,
                circles[i].2,
                circles[j].1.radius as int,
                circles[j].2,
            );
            assert(circle_contact(other_circles, j2, i2, a, b));
        }
    }
}

/// The graph does not depend on the order in which the shapes are
/// listed: two frames that hold the same circles and the same boxes,
/// each entity with one circle at most, have the same graph.
pub proof fn lemma_graph_order_independent(
    circles: Seq<CacheRow>,
    boxes: Seq<BoxRow>,
    other_circles: Seq<CacheRow>,
    other_boxes: Seq<BoxRow>,
)
    requires
        distinct_circles(circles),
        distinct_circles(other_circles),
        circles.to_multiset() == other_circles.to_multiset(),
        boxes.to_multiset() == other_boxes.to_multiset(),
    ensures
        collision_graph(circles, boxes) == collision_graph(other_circles, other_boxes),
{
    circles.to_multiset_ensures();
    other_circles.to_multiset_ensures();
    boxes.to_multiset_ensures();
    other_boxes.to_multiset_ensures();
    assert forall|row: CacheRow| circles.contains(row) <==> other_circles.contains(row) by {
        assert(circles.contains(row) <==> circles.to_multiset().count(row) > 0);
        assert(other_circles.contains(row) <==> other_circles.to_multiset().count(row) > 0);
    }
    assert forall|row: BoxRow| boxes.contains(row) <==> other_boxes.contains(row) by {
        assert(boxes.contains(row) <==> boxes.to_multiset().count(row) > 0);
        assert(other_boxes.contains(row) <==> other_boxes.to_multiset().count(row) > 0);
    }
    assert forall|a: u32, b: u32|
        touching(circles, boxes, a, b) <==> touching(other_circles, other_boxes, a, b) by {
        if touching(circles, boxes, a, b) {
            lemma_touching_transfers(circles, boxes, other_circles, other_boxes, a, b);
        }
        if touching(other_circles, other_boxes, a, b) {
            lemma_touching_transfers(other_circles, other_boxes, circles, boxes, a, b);
        }
    }
    let graph = collision_graph(circles, boxes);
    let other = collision_graph(other_circles, other_boxes);
    assert forall|a: u32| graph.contains_key(a) <==> other.contains_key(a) by {
        if graph.contains_key(a) {
            let b = choose|b: u32| #[trigger] touching(circles, boxes, a, b);
            assert(touching(other_circles, other_boxes, a, b));
        }
        if other.contains_key(a) {
            let b = choose|b: u32| #[trigger] touching(other_circles, other_boxes, a, b);
            assert(touching(circles, boxes, a, b));
        }
    }
    assert forall|a: u32| graph.contains_key(a) implies #[trigger] graph[a] == other[a] by {
        assert(graph[a] =~= other[a]);
    }
    assert(graph =~= other);
}

} // verus!
