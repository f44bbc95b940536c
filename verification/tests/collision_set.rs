use sushi_cutters::components::colliders::{CollisionData, Collisions};
use sushi_cutters::components::storage::CollisionStorage;
use sushi_cutters::entity::{Entity, MAX_ENTITY_ID};
use sushi_cutters::systems::collisions::{acquire, add_collision};

#[test]
fn new_set_is_empty() {
    let set = Collisions::new();
    assert!(set.is_empty());
    assert_eq!(set.len(), 0);
    assert!(set.iterate().is_empty());
    assert!(!set.contains(Entity::new(0, 0)));
    assert!(!set.mask().contains(0));
}

#[test]
fn insert_records_the_source() {
    let mut set = Collisions::new();
    set.insert(Entity::new(4, 0), CollisionData);
    set.insert(Entity::new(9, 2), CollisionData);
    assert!(set.contains(Entity::new(4, 0)));
    assert!(set.contains(Entity::new(9, 2)));
    assert!(!set.contains(Entity::new(5, 0)));
    assert!(!set.contains(Entity::new(0, 0)));
    assert_eq!(set.len(), 2);
    assert!(!set.is_empty());
    assert_eq!(set.iterate(), vec![4, 9]);
    assert!(set.mask().contains(4));
    assert!(set.mask().contains(9));
    assert!(!set.mask().contains(5));
}

#[test]
fn inserting_twice_keeps_one_entry() {
    let mut set = Collisions::new();
    set.insert(Entity::new(7, 0), CollisionData);
    set.insert(Entity::new(7, 0), CollisionData);
    assert_eq!(set.len(), 1);
    assert_eq!(set.iterate(), vec![7]);
    set.insert(Entity::new(2, 0), CollisionData);
    set.insert(Entity::new(7, 3), CollisionData);
    set.insert(Entity::new(2, 0), CollisionData);
    assert_eq!(set.len(), 2);
    assert_eq!(set.iterate(), vec![7, 2]);
}

#[test]
fn membership_goes_by_id() {
    let mut set = Collisions::new();
    set.insert(Entity::new(3, 1), CollisionData);
    assert!(set.contains(Entity::new(3, 1)));
    assert!(set.contains(Entity::new(3, 8)));
}

#[test]
fn largest_id_is_accepted() {
    let mut set = Collisions::new();
    set.insert(Entity::new(MAX_ENTITY_ID - 1, 0), CollisionData);
    set.insert(Entity::new(0, 0), CollisionData);
    assert!(set.contains(Entity::new(MAX_ENTITY_ID - 1, 0)));
    assert!(set.contains(Entity::new(0, 0)));
    assert!(!set.contains(Entity::new(MAX_ENTITY_ID - 2, 0)));
    assert_eq!(set.iterate(), vec![MAX_ENTITY_ID - 1, 0]);
}

#[test]
fn reset_empties_the_set() {
    let mut set = Collisions::new();
    set.insert(Entity::new(1, 0), CollisionData);
    set.insert(Entity::new(2, 0), CollisionData);
    set.reset();
    assert!(set.is_empty());
    assert!(!set.contains(Entity::new(1, 0)));
    assert!(!set.mask().contains(2));
    assert!(set.iterate().is_empty());
    set.insert(Entity::new(2, 0), CollisionData);
    assert_eq!(set.iterate(), vec![2]);
    assert!(!set.contains(Entity::new(1, 0)));
}

#[test]
fn storage_starts_empty() {
    let storage = CollisionStorage::new();
    assert_eq!(storage.len(), 0);
    assert!(storage.get(Entity::new(0, 0)).is_none());
    assert!(storage.mask(Entity::new(3, 0)).is_none());
    assert!(storage.iterate(Entity::new(3, 0)).is_empty());
    assert!(!storage.contains(Entity::new(3, 0), Entity::new(4, 0)));
}

#[test]
fn storage_insert_and_remove() {
    let mut storage = CollisionStorage::new();
    let mut set = Collisions::new();
    set.insert(Entity::new(5, 0), CollisionData);
    assert!(storage.insert(Entity::new(2, 0), set).is_none());
    assert_eq!(storage.len(), 1);
    assert!(storage.contains(Entity::new(2, 0), Entity::new(5, 0)));
    assert!(!storage.contains(Entity::new(5, 0), Entity::new(2, 0)));
    assert!(storage.mask(Entity::new(2, 0)).unwrap().contains(5));

    let previous = storage.insert(Entity::new(2, 0), Collisions::new()).unwrap();
    assert_eq!(previous.iterate(), vec![5]);
    assert_eq!(storage.len(), 1);
    assert!(storage.get(Entity::new(2, 0)).unwrap().is_empty());

    assert!(storage.remove(Entity::new(9, 0)).is_none());
    assert!(storage.remove(Entity::new(1, 0)).is_none());
    assert_eq!(storage.len(), 1);
    assert!(storage.remove(Entity::new(2, 0)).is_some());
    assert_eq!(storage.len(), 0);
    assert!(storage.remove(Entity::new(2, 0)).is_none());
}

#[test]
fn record_needs_an_attached_set() {
    let mut storage = CollisionStorage::new();
    assert!(!storage.record(Entity::new(1, 0), Entity::new(2, 0)));
    assert_eq!(storage.len(), 0);
    storage.insert(Entity::new(1, 0), Collisions::new());
    assert!(!storage.record(Entity::new(0, 0), Entity::new(2, 0)));
    assert!(storage.record(Entity::new(1, 0), Entity::new(2, 0)));
    assert!(storage.record(Entity::new(1, 0), Entity::new(2, 0)));
    assert!(storage.record(Entity::new(1, 0), Entity::new(3, 0)));
    assert_eq!(storage.iterate(Entity::new(1, 0)), vec![2, 3]);
    assert_eq!(storage.len(), 1);
}

#[test]
fn drain_into_moves_every_set_to_the_pool() {
    let mut storage = CollisionStorage::new();
    let mut pool = vec![Collisions::new()];
    storage.insert(Entity::new(1, 0), Collisions::new());
    storage.insert(Entity::new(6, 0), Collisions::new());
    storage.record(Entity::new(6, 0), Entity::new(1, 0));
    storage.drain_into(&mut pool);
    assert_eq!(pool.len(), 3);
    assert_eq!(storage.len(), 0);
    assert!(storage.get(Entity::new(1, 0)).is_none());
    assert!(storage.get(Entity::new(6, 0)).is_none());
    assert!(pool[1].iterate().is_empty());
    assert_eq!(pool[2].iterate(), vec![1]);
}

#[test]
fn drain_into_keeps_the_order_of_the_ids() {
    let mut storage = CollisionStorage::new();
    let mut pool = Vec::new();
    for target in [9_u32, 3, 6] {
        storage.insert(Entity::new(target, 0), Collisions::new());
        storage.record(Entity::new(target, 0), Entity::new(target + 100, 0));
    }
    storage.drain_into(&mut pool);
    let drained: Vec<Vec<u32>> = pool.iter().map(|set| set.iterate()).collect();
    assert_eq!(drained, vec![vec![103], vec![106], vec![109]]);
}

#[test]
fn default_values_are_empty() {
    assert!(Collisions::default().is_empty());
    assert_eq!(CollisionStorage::default().len(), 0);
    assert_eq!(sushi_cutters::systems::collisions::CollisionsSystem::default().pool_len(), 0);
    assert_eq!(sushi_cutters::systems::collisions::STARTING_CAPACITY, 500);
}

#[test]
fn add_collision_attaches_a_set_on_demand() {
    let mut pool = Vec::new();
    let mut storage = CollisionStorage::new();
    add_collision(&mut pool, &mut storage, Entity::new(1, 0), Entity::new(2, 0));
    assert!(storage.contains(Entity::new(2, 0), Entity::new(1, 0)));
    assert!(!storage.contains(Entity::new(1, 0), Entity::new(2, 0)));
    assert_eq!(storage.len(), 1);
    add_collision(&mut pool, &mut storage, Entity::new(3, 0), Entity::new(2, 0));
    add_collision(&mut pool, &mut storage, Entity::new(1, 0), Entity::new(2, 0));
    assert_eq!(storage.iterate(Entity::new(2, 0)), vec![1, 3]);
    assert_eq!(storage.len(), 1);
}

#[test]
fn add_collision_resets_the_pooled_set() {
    let mut used = Collisions::new();
    used.insert(Entity::new(40, 0), CollisionData);
    let mut pool = vec![used];
    let mut storage = CollisionStorage::new();
    add_collision(&mut pool, &mut storage, Entity::new(1, 0), Entity::new(2, 0));
    assert!(pool.is_empty());
    assert_eq!(storage.iterate(Entity::new(2, 0)), vec![1]);
    assert!(!storage.contains(Entity::new(2, 0), Entity::new(40, 0)));
    add_collision(&mut pool, &mut storage, Entity::new(2, 0), Entity::new(1, 0));
    assert!(pool.is_empty());
    assert_eq!(storage.len(), 2);
}

#[test]
fn acquire_resets_what_it_takes() {
    let mut used = Collisions::new();
    used.insert(Entity::new(8, 0), CollisionData);
    let mut pool = vec![Collisions::new(), used];
    let set = acquire(&mut pool);
    assert!(set.is_empty());
    assert!(!set.contains(Entity::new(8, 0)));
    assert_eq!(pool.len(), 1);
    acquire(&mut pool);
    assert!(pool.is_empty());
    let fresh = acquire(&mut pool);
    assert!(fresh.is_empty());
    assert!(pool.is_empty());
}

#[test]
fn entity_accessors() {
    let entity = Entity::new(12, 3);
    assert_eq!(entity.id(), 12);
    assert_eq!(entity.generation(), 3);
    assert_eq!(entity, Entity { id: 12, generation: 3 });
    assert_ne!(entity, Entity::new(12, 4));
}
