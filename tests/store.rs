use shared_canvas::entity::{Create, Entity, Eraser, Paint};
use shared_canvas::store::EntityStore;

fn ent(id: usize, color: i32) -> Entity {
    Entity::new(id, 1.5f32.to_bits(), 2.5f32.to_bits(), 8.0f32.to_bits(), color)
}

#[test]
fn insert_then_get() {
    let mut s = EntityStore::new();
    assert!(s.is_empty());
    s.insert(ent(3, 0xff0000));
    assert_eq!(s.get(3), Some(ent(3, 0xff0000)));
    assert_eq!(s.get(4), None);
    assert_eq!(s.len(), 1);
    assert!(s.contains_key(3));
}

#[test]
fn insert_same_id_replaces() {
    let mut s = EntityStore::new();
    s.insert(ent(5, 1));
    s.insert(ent(5, 2));
    assert_eq!(s.len(), 1);
    assert_eq!(s.get(5), Some(ent(5, 2)));
}

#[test]
fn snapshot_lists_each_entity_once() {
    let mut s = EntityStore::new();
    for id in 0..10 {
        s.insert(ent(id, id as i32));
    }
    let mut snap = s.snapshot();
    snap.sort_by_key(|e| e.id);
    let expected: Vec<Entity> = (0..10).map(|id| ent(id, id as i32)).collect();
    assert_eq!(snap, expected);
}

#[test]
fn replace_all_drops_previous_content() {
    let mut s = EntityStore::new();
    s.insert(ent(99, 0));
    s.replace_all(&vec![ent(1, 10), ent(2, 20)]);
    assert_eq!(s.len(), 2);
    assert_eq!(s.get(99), None);
    assert_eq!(s.get(1), Some(ent(1, 10)));
    assert_eq!(s.get(2), Some(ent(2, 20)));
}

#[test]
fn replace_all_later_duplicate_wins() {
    let mut s = EntityStore::new();
    s.replace_all(&vec![ent(1, 10), ent(1, 11)]);
    assert_eq!(s.len(), 1);
    assert_eq!(s.get(1), Some(ent(1, 11)));
}

#[test]
fn remove_and_clear() {
    let mut s = EntityStore::new();
    s.insert(ent(1, 1));
    s.insert(ent(2, 2));
    assert_eq!(s.remove(1), Some((1, ent(1, 1))));
    assert_eq!(s.remove(1), None);
    s.clear();
    assert!(s.is_empty());
}

#[test]
fn spawn_on_empty_store_starts_at_zero() {
    let mut s = EntityStore::new();
    let r = 24.0f32.to_bits();
    assert_eq!(Entity::spawn(1, 2, r, 0x00ff00, &mut s), Some(0));
    assert_eq!(Entity::spawn(3, 4, r, 0x00ff00, &mut s), Some(1));
    assert_eq!(s.get(1), Some(Entity::new(1, 3, 4, r, 0x00ff00)));
}

#[test]
fn spawn_after_removal_takes_fresh_id() {
    let mut s = EntityStore::new();
    Entity::spawn(0, 0, 0, 1, &mut s);
    Entity::spawn(0, 0, 0, 2, &mut s);
    s.remove(0);
    assert_eq!(Entity::spawn(9, 9, 0, 3, &mut s), Some(2));
    assert_eq!(s.len(), 2);
    assert_eq!(s.get(1).unwrap().color, 2);
    assert_eq!(s.get(2).unwrap().color, 3);
}

#[test]
fn spawn_never_overwrites_existing_id() {
    let mut s = EntityStore::new();
    s.insert(ent(1, 7));
    let id = Entity::spawn(0, 0, 0, 9, &mut s).unwrap();
    assert_ne!(id, 1);
    assert_eq!(s.get(1), Some(ent(1, 7)));
    assert_eq!(s.len(), 2);
}

#[test]
fn spawn_when_largest_id_is_taken_uses_smallest_free() {
    let mut s = EntityStore::new();
    s.insert(ent(usize::MAX, 1));
    s.insert(ent(0, 2));
    assert_eq!(Entity::spawn(0, 0, 0, 3, &mut s), Some(1));
    assert_eq!(s.get(0), Some(ent(0, 2)));
}

#[test]
fn snapshot_length_matches_store() {
    let mut s = EntityStore::new();
    s.insert(ent(4, 1));
    s.insert(ent(9, 1));
    assert_eq!(s.snapshot().len(), s.len());
}

#[test]
fn erase_only_inside_area() {
    let mut s = EntityStore::new();
    let mut e = ent(4, 7);
    s.insert(e);
    assert_eq!(e.erase(false, &mut s), None);
    assert!(s.contains_key(4));
    assert_eq!(e.erase(true, &mut s), Some((4, ent(4, 7))));
    assert!(!s.contains_key(4));
    assert_eq!(e.erase(true, &mut s), None);
}

#[test]
fn destroy_removes() {
    let mut s = EntityStore::new();
    let mut e = ent(6, 7);
    s.insert(e);
    assert_eq!(e.destroy(&mut s), Some((6, ent(6, 7))));
    assert_eq!(e.destroy(&mut s), None);
}

#[test]
fn colorize_sets_color_only() {
    let mut e = ent(1, 0);
    e.colorize(0x123456);
    assert_eq!(e, ent(1, 0x123456));
}
