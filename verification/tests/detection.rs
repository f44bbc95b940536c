use sushi_cutters::components::colliders::{BoxCollider, CircleCollider};
use sushi_cutters::components::storage::CollisionStorage;
use sushi_cutters::entity::{Entity, MAX_ENTITY_ID};
use sushi_cutters::geometry::{circle_in_box, in_circle, point_in_rect, Position};
use sushi_cutters::graph::{BoxRow, CacheRow};
use sushi_cutters::systems::collisions::{
    handle_circle_row, CollisionsSystem, CollisionsSystemData,
};

fn circle(id: u32, radius: i32, x: i32, y: i32) -> CacheRow {
    (Entity::new(id, 1), CircleCollider { radius }, Position { x, y })
}

fn boxed(id: u32, width: i32, height: i32, x: i32, y: i32) -> BoxRow {
    (Entity::new(id, 1), BoxCollider { width, height }, Position { x, y })
}

fn frame(circles: Vec<CacheRow>, boxes: Vec<BoxRow>) -> CollisionsSystemData {
    CollisionsSystemData { circles, boxes, collisions: CollisionStorage::new() }
}

fn entity(id: u32) -> Entity {
    Entity::new(id, 1)
}

#[test]
fn circles_that_touch_exactly_overlap() {
    let origin = Position { x: 0, y: 0 };
    assert!(in_circle(5, origin, 5, Position { x: 10, y: 0 }));
    assert!(!in_circle(5, origin, 5, Position { x: 11, y: 0 }));
}

#[test]
fn circles_just_apart_do_not_overlap() {
    // Hundredths of a unit: radius 5.00, centres 10.00 and 10.01 apart.
    let scale = 100.0_f64;
    let radius = (5.0 * scale).round() as i32;
    let origin = Position { x: 0, y: 0 };
    let touching = Position { x: (10.0 * scale).round() as i32, y: 0 };
    let apart = Position { x: (10.01 * scale).round() as i32, y: 0 };
    assert!(in_circle(radius, origin, radius, touching));
    assert!(!in_circle(radius, origin, radius, apart));
}

#[test]
fn circle_overlap_uses_the_full_distance() {
    let origin = Position { x: 0, y: 0 };
    // 3-4-5 triangle: the centres are 5 apart.
    assert!(in_circle(2, origin, 3, Position { x: 3, y: 4 }));
    assert!(!in_circle(2, origin, 2, Position { x: 3, y: 4 }));
    assert!(in_circle(2, Position { x: -3, y: -4 }, 3, origin));
}

#[test]
fn circle_overlap_at_the_ends_of_the_range() {
    let low = Position { x: i32::MIN, y: i32::MIN };
    let high = Position { x: i32::MAX, y: i32::MAX };
    assert!(!in_circle(i32::MAX, low, i32::MAX, high));
    assert!(in_circle(i32::MAX, high, i32::MAX, high));
    assert!(in_circle(0, low, 0, low));
    assert!(!in_circle(0, low, 0, high));
}

#[test]
fn point_in_rect_is_closed() {
    assert!(point_in_rect(0, 0, 0, 0, 0, 0));
    assert!(point_in_rect(3, 7, 3, 5, 9, 7));
    assert!(!point_in_rect(2, 7, 3, 5, 9, 7));
    assert!(!point_in_rect(10, 6, 3, 5, 9, 7));
    assert!(!point_in_rect(4, 4, 3, 5, 9, 7));
    assert!(!point_in_rect(4, 8, 3, 5, 9, 7));
}

#[test]
fn circle_inside_box_overlaps() {
    let centre = Position { x: 5, y: 5 };
    assert!(circle_in_box(2, centre, 4, 4, centre));
}

#[test]
fn circle_at_box_boundary() {
    // Hundredths of a unit: the box top is at 7.00, the radius is 2.00.
    let centre = Position { x: 500, y: 500 };
    assert!(circle_in_box(200, Position { x: 500, y: 900 }, 400, 400, centre));
    assert!(!circle_in_box(200, Position { x: 500, y: 901 }, 400, 400, centre));
    assert!(circle_in_box(200, Position { x: 100, y: 500 }, 400, 400, centre));
    assert!(!circle_in_box(200, Position { x: 99, y: 500 }, 400, 400, centre));
}

#[test]
fn box_of_odd_width_has_a_half_unit_extent() {
    let centre = Position { x: 10, y: 10 };
    // Half extent 1.5: one unit off is inside, two units off is outside.
    assert!(circle_in_box(0, Position { x: 11, y: 10 }, 3, 3, centre));
    assert!(!circle_in_box(0, Position { x: 12, y: 10 }, 3, 3, centre));
    assert!(circle_in_box(0, Position { x: 9, y: 9 }, 3, 3, centre));
    assert!(!circle_in_box(0, Position { x: 10, y: 8 }, 3, 3, centre));
}

#[test]
fn degenerate_shapes_are_points() {
    let centre = Position { x: 4, y: 4 };
    assert!(circle_in_box(0, centre, 0, 0, centre));
    assert!(!circle_in_box(0, Position { x: 5, y: 4 }, 0, 0, centre));
    assert!(in_circle(0, centre, 0, centre));
    assert!(!in_circle(0, centre, 0, Position { x: 4, y: 5 }));
}

#[test]
fn three_circles_scenario() {
    let mut system = CollisionsSystem::new();
    let mut data = frame(
        vec![circle(0, 1, 0, 0), circle(1, 1, 1, 0), circle(2, 1, 10, 0)],
        vec![],
    );
    system.run(&mut data);
    assert_eq!(data.collisions.len(), 2);
    assert_eq!(data.collisions.iterate(entity(0)), vec![1]);
    assert_eq!(data.collisions.iterate(entity(1)), vec![0]);
    assert!(data.collisions.iterate(entity(2)).is_empty());
    assert!(data.collisions.get(entity(2)).is_none());
    assert!(data.collisions.mask(entity(2)).is_none());
    assert_eq!(data.collisions.get(entity(0)).unwrap().len(), 1);
    assert_eq!(data.collisions.get(entity(1)).unwrap().len(), 1);
    assert!(data.collisions.contains(entity(0), entity(1)));
    assert!(data.collisions.contains(entity(1), entity(0)));
    assert!(!data.collisions.contains(entity(0), entity(2)));
    assert!(!data.collisions.contains(entity(2), entity(0)));
}

#[test]
fn collisions_are_symmetric() {
    let mut system = CollisionsSystem::new();
    let mut data = frame(
        vec![circle(3, 2, 0, 0), circle(5, 2, 3, 0), circle(8, 2, 6, 0), circle(9, 1, 40, 40)],
        vec![boxed(11, 4, 4, 0, 3), boxed(12, 2, 2, -30, -30)],
    );
    system.run(&mut data);
    let ids = [3_u32, 5, 8, 9, 11, 12];
    for a in ids {
        for b in ids {
            assert_eq!(
                data.collisions.contains(entity(a), entity(b)),
                data.collisions.contains(entity(b), entity(a)),
            );
        }
    }
    assert!(data.collisions.contains(entity(3), entity(5)));
    assert!(data.collisions.contains(entity(5), entity(8)));
    assert!(!data.collisions.contains(entity(3), entity(8)));
    assert!(data.collisions.contains(entity(11), entity(3)));
    assert!(data.collisions.contains(entity(11), entity(5)));
    assert!(!data.collisions.contains(entity(11), entity(8)));
    assert!(data.collisions.get(entity(9)).is_none());
    assert!(data.collisions.get(entity(12)).is_none());
    assert_eq!(data.collisions.len(), 4);
}

#[test]
fn no_entity_collides_with_itself() {
    let mut system = CollisionsSystem::new();
    let mut data = frame(
        vec![circle(0, 5, 0, 0), circle(1, 5, 1, 1), circle(2, 5, 2, 2)],
        vec![boxed(3, 10, 10, 0, 0)],
    );
    system.run(&mut data);
    for id in 0..4 {
        assert!(!data.collisions.contains(entity(id), entity(id)));
        assert_eq!(data.collisions.get(entity(id)).unwrap().len(), 3);
    }
}

#[test]
fn circle_and_box_of_one_entity_are_tested_like_any_other() {
    let mut system = CollisionsSystem::new();
    let mut data = frame(vec![circle(7, 1, 0, 0)], vec![boxed(7, 2, 2, 0, 0)]);
    system.run(&mut data);
    assert!(data.collisions.contains(entity(7), entity(7)));
    assert_eq!(data.collisions.iterate(entity(7)), vec![7]);
}

#[test]
fn each_pair_of_circles_is_listed_once() {
    let cache = vec![circle(0, 1, 0, 0), circle(1, 1, 1, 0), circle(2, 1, 2, 0), circle(3, 1, 9, 9)];
    assert_eq!(
        handle_circle_row(&cache, 0),
        vec![(entity(0), entity(1)), (entity(0), entity(2))],
    );
    assert_eq!(handle_circle_row(&cache, 1), vec![(entity(1), entity(2))]);
    assert!(handle_circle_row(&cache, 2).is_empty());
    assert!(handle_circle_row(&cache, 3).is_empty());
}

#[test]
fn the_graph_does_not_depend_on_the_order_of_the_circles() {
    let rows = vec![circle(0, 1, 0, 0), circle(1, 1, 1, 0), circle(2, 1, 2, 0), circle(3, 1, 9, 9)];
    let mut reversed = rows.clone();
    reversed.reverse();
    let mut system = CollisionsSystem::new();
    let mut forward = frame(rows, vec![]);
    let mut backward = frame(reversed, vec![]);
    system.run(&mut forward);
    system.run(&mut backward);
    for a in 0..4 {
        let mut left = forward.collisions.iterate(entity(a));
        let mut right = backward.collisions.iterate(entity(a));
        left.sort();
        right.sort();
        assert_eq!(left, right);
    }
    assert_eq!(forward.collisions.iterate(entity(0)), vec![1, 2]);
    assert_eq!(forward.collisions.iterate(entity(2)), vec![0, 1]);
}

#[test]
fn drain_leaves_no_entity_with_a_set() {
    let mut system = CollisionsSystem::new();
    let mut data = frame(vec![circle(0, 1, 0, 0), circle(1, 1, 1, 0)], vec![]);
    system.run(&mut data);
    assert_eq!(data.collisions.len(), 2);
    assert_eq!(system.pool_len(), 0);
    system.drain_all_attached_into_pool(&mut data.collisions);
    assert_eq!(data.collisions.len(), 0);
    assert!(data.collisions.get(entity(0)).is_none());
    assert!(data.collisions.get(entity(1)).is_none());
    assert_eq!(system.pool_len(), 2);
}

#[test]
fn a_pass_without_overlap_leaves_no_set() {
    let mut system = CollisionsSystem::new();
    let mut data = frame(vec![circle(0, 1, 0, 0), circle(1, 1, 1, 0)], vec![boxed(2, 2, 2, 0, 0)]);
    system.run(&mut data);
    assert_eq!(data.collisions.len(), 3);
    data.circles = vec![circle(0, 1, 0, 0), circle(1, 1, 50, 0)];
    data.boxes = vec![boxed(2, 2, 2, 0, 90)];
    system.run(&mut data);
    assert_eq!(data.collisions.len(), 0);
    for id in 0..3 {
        assert!(data.collisions.get(entity(id)).is_none());
        assert!(data.collisions.iterate(entity(id)).is_empty());
    }
    assert_eq!(system.pool_len(), 3);
}

#[test]
fn last_frame_collisions_do_not_linger() {
    let mut system = CollisionsSystem::new();
    let mut data = frame(vec![circle(0, 1, 0, 0), circle(1, 1, 1, 0), circle(2, 1, 30, 0)], vec![]);
    system.run(&mut data);
    assert!(data.collisions.contains(entity(0), entity(1)));
    data.circles = vec![circle(0, 1, 0, 0), circle(1, 1, 29, 0), circle(2, 1, 30, 0)];
    system.run(&mut data);
    assert!(!data.collisions.contains(entity(0), entity(1)));
    assert!(!data.collisions.contains(entity(1), entity(0)));
    assert!(data.collisions.get(entity(0)).is_none());
    assert_eq!(data.collisions.iterate(entity(1)), vec![2]);
    assert_eq!(data.collisions.iterate(entity(2)), vec![1]);
}

#[test]
fn the_pool_serves_every_set_after_the_first_frame() {
    let mut system = CollisionsSystem::new();
    let mut data = frame(
        vec![circle(0, 1, 0, 0), circle(1, 1, 1, 0), circle(2, 1, 2, 0), circle(3, 1, 50, 0)],
        vec![boxed(4, 2, 2, 50, 0)],
    );
    system.run(&mut data);
    let existing = system.pool_len() + data.collisions.len();
    assert_eq!(existing, 5);
    for _ in 0..4 {
        system.run(&mut data);
        assert_eq!(data.collisions.len(), 5);
        assert_eq!(system.pool_len() + data.collisions.len(), existing);
    }
}

#[test]
fn the_pool_keeps_the_high_water_mark() {
    let mut system = CollisionsSystem::new();
    let mut data = frame(vec![circle(0, 1, 0, 0), circle(1, 1, 1, 0), circle(2, 1, 2, 0)], vec![]);
    system.run(&mut data);
    assert_eq!((system.pool_len(), data.collisions.len()), (0, 3));
    data.circles = vec![circle(0, 1, 0, 0), circle(1, 1, 1, 0)];
    system.run(&mut data);
    assert_eq!((system.pool_len(), data.collisions.len()), (1, 2));
    data.circles = vec![
        circle(0, 1, 0, 0),
        circle(1, 1, 1, 0),
        circle(2, 1, 2, 0),
        circle(3, 1, 3, 0),
        circle(4, 1, 4, 0),
    ];
    system.run(&mut data);
    assert_eq!((system.pool_len(), data.collisions.len()), (0, 5));
}

#[test]
fn acquire_takes_from_the_pool_first() {
    let mut system = CollisionsSystem::new();
    let mut data = frame(vec![circle(0, 1, 0, 0), circle(1, 1, 1, 0)], vec![]);
    system.run(&mut data);
    system.drain_all_attached_into_pool(&mut data.collisions);
    assert_eq!(system.pool_len(), 2);
    let first = system.acquire();
    assert!(first.is_empty());
    assert!(!first.contains(entity(0)));
    assert!(!first.contains(entity(1)));
    assert_eq!(system.pool_len(), 1);
    let second = system.acquire();
    assert!(second.is_empty());
    assert_eq!(system.pool_len(), 0);
    let fresh = system.acquire();
    assert!(fresh.is_empty());
    assert_eq!(system.pool_len(), 0);
}

#[test]
fn many_circles_in_a_row() {
    let count = 300_u32;
    let circles: Vec<CacheRow> = (0..count).map(|id| circle(id, 1, 2 * id as i32, 0)).collect();
    let mut system = CollisionsSystem::new();
    let mut data = frame(circles, vec![]);
    system.run(&mut data);
    assert_eq!(data.collisions.len(), count as usize);
    for id in 0..count {
        let mut expected = Vec::new();
        if id > 0 {
            expected.push(id - 1);
        }
        if id + 1 < count {
            expected.push(id + 1);
        }
        let mut found = data.collisions.iterate(entity(id));
        found.sort();
        assert_eq!(found, expected);
    }
}

#[test]
fn frames_are_checked_against_the_id_limit() {
    assert!(frame(vec![], vec![]).within_limits());
    assert!(frame(
        vec![circle(0, 1, 0, 0), circle(MAX_ENTITY_ID - 1, 1, 0, 0)],
        vec![boxed(MAX_ENTITY_ID - 1, 1, 1, 0, 0)],
    )
    .within_limits());
    assert!(!frame(vec![circle(0, 1, 0, 0), circle(MAX_ENTITY_ID, 1, 0, 0)], vec![]).within_limits());
    assert!(!frame(vec![circle(0, 1, 0, 0)], vec![boxed(u32::MAX, 1, 1, 0, 0)]).within_limits());
}

#[test]
fn the_largest_ids_collide() {
    let mut system = CollisionsSystem::new();
    let mut data = frame(
        vec![circle(MAX_ENTITY_ID - 1, 1, 0, 0)],
        vec![boxed(MAX_ENTITY_ID - 2, 1, 1, 0, 0)],
    );
    assert!(data.within_limits());
    system.run(&mut data);
    assert_eq!(data.collisions.iterate(entity(MAX_ENTITY_ID - 1)), vec![MAX_ENTITY_ID - 2]);
    assert_eq!(data.collisions.iterate(entity(MAX_ENTITY_ID - 2)), vec![MAX_ENTITY_ID - 1]);
}
