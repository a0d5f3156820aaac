use shared_canvas::codec::frame_message;
use shared_canvas::entity::Entity;
use shared_canvas::message::Message;
use shared_canvas::client::ClientState;

fn ent(id: usize, color: i32) -> Entity {
    Entity::new(id, 3.0f32.to_bits(), 4.0f32.to_bits(), 2.0f32.to_bits(), color)
}

#[test]
fn new_entity_twice_keeps_second() {
    let mut c = ClientState::new();
    assert_eq!(c.apply_message(Message::NewEntity(ent(5, 1))), None);
    assert_eq!(c.apply_message(Message::NewEntity(ent(5, 2))), None);
    assert_eq!(c.entities.len(), 1);
    assert_eq!(c.entities.get(5), Some(ent(5, 2)));
}

#[test]
fn all_entities_replaces_store() {
    let mut c = ClientState::new();
    c.entities.insert(ent(99, 0));
    c.apply_message(Message::AllEntities(vec![ent(1, 1), ent(2, 2)]));
    let mut snap = c.entities.snapshot();
    snap.sort_by_key(|e| e.id);
    assert_eq!(snap, vec![ent(1, 1), ent(2, 2)]);
}

#[test]
fn request_from_server_is_answered_with_snapshot() {
    let mut c = ClientState::new();
    c.entities.insert(ent(4, 4));
    let reply = c.apply_message(Message::RequestAllEntities);
    assert_eq!(reply, Some(Message::AllEntities(vec![ent(4, 4)])));
}

#[test]
fn initial_request_until_sent() {
    let mut c = ClientState::new();
    assert_eq!(c.on_would_block(), Some(Message::RequestAllEntities));
    assert_eq!(c.on_would_block(), Some(Message::RequestAllEntities));
    c.request_sent();
    assert_eq!(c.on_would_block(), None);
}

#[test]
fn initial_request_not_owed_after_bytes() {
    let mut c = ClientState::new();
    let framed = frame_message(b"x").unwrap();
    assert_eq!(c.on_bytes(&framed), vec![b"x".to_vec()]);
    assert_eq!(c.on_would_block(), None);
}

#[test]
fn sent_entity_is_not_resent() {
    let mut c = ClientState::new();
    c.entities.insert(ent(1, 1));
    c.entities.insert(ent(2, 2));
    let mut first = c.outbound_pending();
    first.sort_by_key(|e| e.id);
    assert_eq!(first, vec![ent(1, 1), ent(2, 2)]);
    c.mark_sent(1);
    c.prune_sent();
    assert_eq!(c.outbound_pending(), vec![ent(2, 2)]);
    c.mark_sent(2);
    c.prune_sent();
    assert!(c.outbound_pending().is_empty());
}

#[test]
fn removed_and_reinserted_entity_is_sent_again() {
    let mut c = ClientState::new();
    c.entities.insert(ent(1, 1));
    c.mark_sent(1);
    c.entities.remove(1);
    c.prune_sent();
    c.entities.insert(ent(1, 3));
    assert_eq!(c.outbound_pending(), vec![ent(1, 3)]);
}

#[test]
fn sent_id_still_in_store_survives_pruning() {
    let mut c = ClientState::new();
    c.insert_local(ent(1, 1));
    c.mark_sent(1);
    c.prune_sent();
    c.insert_local(ent(1, 2));
    assert!(c.outbound_pending().is_empty());
}

#[test]
fn local_insert_keeps_sent_ids() {
    let mut c = ClientState::new();
    c.insert_local(ent(1, 1));
    c.mark_sent(1);
    c.insert_local(ent(2, 2));
    assert_eq!(c.outbound_pending(), vec![ent(2, 2)]);
}
