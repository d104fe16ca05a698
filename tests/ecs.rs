use thrust::entity::{Entities, Entity};
use thrust::game::{Key, ThrusterLink};
use thrust::hierarchy::Hierarchy;
use thrust::storage::{join, ComponentEvent, Storage};

#[test]
fn created_entities_are_distinct_and_live() {
    let mut world = Entities::new();
    let a = world.create();
    let b = world.create();
    assert_ne!(a, b);
    assert!(world.is_alive(a));
    assert!(world.is_alive(b));
}

#[test]
fn deletion_waits_for_maintenance() {
    let mut world = Entities::new();
    let a = world.create();
    let b = world.create();
    assert!(world.delete(a));
    assert!(world.is_alive(a));
    let removed = world.maintain();
    assert_eq!(removed, vec![a]);
    assert!(!world.is_alive(a));
    assert!(world.is_alive(b));
}

#[test]
fn deleting_a_dead_entity_is_refused() {
    let mut world = Entities::new();
    let a = world.create();
    world.delete(a);
    world.maintain();
    assert!(!world.delete(a));
    assert!(world.maintain().is_empty());
}

#[test]
fn deleting_twice_removes_once() {
    let mut world = Entities::new();
    let a = world.create();
    assert!(world.delete(a));
    assert!(world.delete(a));
    assert_eq!(world.maintain(), vec![a]);
}

#[test]
fn recycled_slot_gets_a_new_generation() {
    let mut world = Entities::new();
    let a = world.create();
    world.delete(a);
    world.maintain();
    let b = world.create();
    assert_eq!(b.index, a.index);
    assert_ne!(b.generation, a.generation);
    assert_ne!(a, b);
    assert!(world.is_alive(b));
    assert!(!world.is_alive(a));
}

#[test]
fn storage_insert_get_remove() {
    let e = Entity { index: 3, generation: 0 };
    let mut s: Storage<u32> = Storage::new();
    assert!(s.get(e).is_none());
    assert!(!s.insert(e, 7));
    assert_eq!(s.get(e), Some(&7));
    assert!(s.insert(e, 8));
    assert_eq!(s.get(e), Some(&8));
    assert!(s.remove(e));
    assert!(!s.contains(e));
    assert!(!s.remove(e));
    let log = s.take_changes();
    assert_eq!(
        log,
        vec![
            ComponentEvent::Inserted(e),
            ComponentEvent::Modified(e),
            ComponentEvent::Removed(e)
        ]
    );
    assert!(s.take_changes().is_empty());
}

#[test]
fn storage_ignores_stale_generation() {
    let old = Entity { index: 1, generation: 0 };
    let new = Entity { index: 1, generation: 1 };
    let mut s: Storage<u32> = Storage::new();
    s.insert(old, 5);
    assert!(s.get(new).is_none());
    s.insert(new, 6);
    assert!(s.get(old).is_none());
    assert_eq!(s.get(new), Some(&6));
}

#[test]
fn storage_remove_all_logs_each_removal() {
    let a = Entity { index: 0, generation: 0 };
    let b = Entity { index: 1, generation: 0 };
    let c = Entity { index: 2, generation: 0 };
    let mut s: Storage<u32> = Storage::new();
    s.insert(a, 1);
    s.insert(b, 2);
    s.take_changes();
    s.remove_all(&vec![a, c]);
    assert!(!s.contains(a));
    assert!(s.contains(b));
    assert_eq!(s.take_changes(), vec![ComponentEvent::Removed(a)]);
}

#[test]
fn entities_lists_each_once_in_slot_order() {
    let mut s: Storage<u32> = Storage::new();
    let a = Entity { index: 4, generation: 2 };
    let b = Entity { index: 0, generation: 0 };
    s.insert(a, 1);
    s.insert(b, 2);
    assert_eq!(s.entities(), vec![b, a]);
}

#[test]
fn join_yields_entities_with_both_components() {
    let mut world = Entities::new();
    let a = world.create();
    let b = world.create();
    let c = world.create();
    let mut masses: Storage<u32> = Storage::new();
    let mut positions: Storage<(i32, i32)> = Storage::new();
    masses.insert(a, 8);
    masses.insert(b, 10);
    positions.insert(b, (1, 2));
    positions.insert(c, (3, 4));
    assert_eq!(join(&masses, &positions), vec![b]);
    positions.insert(a, (0, 0));
    assert_eq!(join(&masses, &positions), vec![a, b]);
}

fn link(ship: Entity) -> ThrusterLink {
    ThrusterLink { ship, key: Key::Up }
}

#[test]
fn attached_thruster_is_listed_under_its_ship() {
    let mut world = Entities::new();
    let ship = world.create();
    let thruster = world.create();
    let mut links: Storage<ThrusterLink> = Storage::new();
    let mut index = Hierarchy::new();
    links.insert(thruster, link(ship));
    let changes = links.take_changes();
    let orphans = index.maintain(&links, &changes, &vec![]);
    assert!(orphans.is_empty());
    assert_eq!(index.children(ship), vec![thruster]);
    assert_eq!(index.parent(thruster), Some(ship));
}

#[test]
fn removed_thruster_leaves_the_index() {
    let mut world = Entities::new();
    let ship = world.create();
    let thruster = world.create();
    let mut links: Storage<ThrusterLink> = Storage::new();
    let mut index = Hierarchy::new();
    links.insert(thruster, link(ship));
    let changes = links.take_changes();
    index.maintain(&links, &changes, &vec![]);
    world.delete(thruster);
    let gone = world.maintain();
    links.remove_all(&gone);
    let changes = links.take_changes();
    index.maintain(&links, &changes, &gone);
    assert!(index.children(ship).is_empty());
    assert_eq!(index.parent(thruster), None);
}

#[test]
fn removed_ship_orphans_its_thrusters() {
    let mut world = Entities::new();
    let ship = world.create();
    let t1 = world.create();
    let t2 = world.create();
    let mut links: Storage<ThrusterLink> = Storage::new();
    let mut index = Hierarchy::new();
    links.insert(t1, link(ship));
    links.insert(t2, link(ship));
    let changes = links.take_changes();
    index.maintain(&links, &changes, &vec![]);
    assert_eq!(index.children(ship), vec![t1, t2]);
    world.delete(ship);
    let gone = world.maintain();
    links.remove_all(&gone);
    let changes = links.take_changes();
    let orphans = index.maintain(&links, &changes, &gone);
    assert_eq!(orphans, vec![t1, t2]);
    assert!(index.children(ship).is_empty());
}

#[test]
fn reparented_thruster_moves_between_ships() {
    let mut world = Entities::new();
    let s1 = world.create();
    let s2 = world.create();
    let t = world.create();
    let mut links: Storage<ThrusterLink> = Storage::new();
    let mut index = Hierarchy::new();
    links.insert(t, link(s1));
    let changes = links.take_changes();
    index.maintain(&links, &changes, &vec![]);
    links.insert(t, link(s2));
    let changes = links.take_changes();
    index.maintain(&links, &changes, &vec![]);
    assert!(index.children(s1).is_empty());
    assert_eq!(index.children(s2), vec![t]);
}

#[test]
fn unreported_change_is_not_seen() {
    let mut world = Entities::new();
    let ship = world.create();
    let t = world.create();
    let mut links: Storage<ThrusterLink> = Storage::new();
    let mut index = Hierarchy::new();
    links.insert(t, link(ship));
    index.maintain(&links, &vec![], &vec![]);
    assert!(index.children(ship).is_empty());
}
