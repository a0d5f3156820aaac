use shared_canvas::codec::frame_message;
use shared_canvas::entity::Entity;
use shared_canvas::message::{Message, Outgoing};
use shared_canvas::server::ServerState;

fn ent(id: usize, color: i32) -> Entity {
    Entity::new(id, 10.0f32.to_bits(), 20.0f32.to_bits(), 4.0f32.to_bits(), color)
}

fn connect(s: &mut ServerState, addr: &str) -> (u64, Vec<Outgoing>) {
    s.accept(addr.to_string()).unwrap()
}

#[test]
fn accept_with_empty_store_sends_nothing() {
    let mut s = ServerState::new();
    let (id, out) = connect(&mut s, "10.0.0.1:5000");
    assert_eq!(id, 0);
    assert!(out.is_empty());
    assert_eq!(s.peer_addresses(), vec!["10.0.0.1:5000".to_string()]);
}

#[test]
fn accept_with_entities_sends_snapshot_to_newcomer() {
    let mut s = ServerState::new();
    s.ingest_local_entity(ent(1, 5));
    let (id, out) = connect(&mut s, "a");
    assert_eq!(out, vec![Outgoing { to: id, message: Message::AllEntities(vec![ent(1, 5)]) }]);
}

#[test]
fn ids_are_never_reused() {
    let mut s = ServerState::new();
    let (a, _) = connect(&mut s, "a");
    s.drop_peer(a);
    let (b, _) = connect(&mut s, "b");
    assert_ne!(a, b);
}

#[test]
fn local_entity_is_stored_and_broadcast() {
    let mut s = ServerState::new();
    let (a, _) = connect(&mut s, "a");
    let (b, _) = connect(&mut s, "b");
    let out = s.ingest_local_entity(ent(7, 1));
    assert_eq!(
        out,
        vec![
            Outgoing { to: a, message: Message::NewEntity(ent(7, 1)) },
            Outgoing { to: b, message: Message::NewEntity(ent(7, 1)) },
        ]
    );
    assert_eq!(s.entities.get(7), Some(ent(7, 1)));
}

#[test]
fn relay_skips_sender() {
    let mut s = ServerState::new();
    let (a, _) = connect(&mut s, "A");
    let (b, _) = connect(&mut s, "B");
    let (c, _) = connect(&mut s, "C");
    let out = s.handle_client_message(a, Message::NewEntity(ent(2, 9)));
    let targets: Vec<u64> = out.iter().map(|o| o.to).collect();
    assert_eq!(targets, vec![b, c]);
    assert!(out.iter().all(|o| o.message == Message::NewEntity(ent(2, 9))));
    assert_eq!(s.entities.get(2), Some(ent(2, 9)));
}

#[test]
fn request_all_is_answered_to_requester_only() {
    let mut s = ServerState::new();
    let (_a, _) = connect(&mut s, "A");
    let (b, _) = connect(&mut s, "B");
    s.ingest_local_entity(ent(3, 3));
    let out = s.handle_client_message(b, Message::RequestAllEntities);
    assert_eq!(out, vec![Outgoing { to: b, message: Message::AllEntities(vec![ent(3, 3)]) }]);
}

#[test]
fn request_all_from_unknown_peer_is_ignored() {
    let mut s = ServerState::new();
    connect(&mut s, "A");
    assert!(s.handle_client_message(42, Message::RequestAllEntities).is_empty());
}

#[test]
fn snapshot_from_peer_is_ignored() {
    let mut s = ServerState::new();
    let (a, _) = connect(&mut s, "A");
    s.ingest_local_entity(ent(1, 1));
    let out = s.handle_client_message(a, Message::AllEntities(vec![ent(8, 8)]));
    assert!(out.is_empty());
    assert_eq!(s.entities.len(), 1);
    assert_eq!(s.entities.get(8), None);
}

#[test]
fn disconnected_peer_leaves_after_removal_pass() {
    let mut s = ServerState::new();
    let (a, _) = connect(&mut s, "A");
    let (b, _) = connect(&mut s, "B");
    s.mark_for_removal(a);
    assert_eq!(s.peer_addresses(), vec!["A".to_string(), "B".to_string()]);
    s.removal_pass();
    assert_eq!(s.peer_addresses(), vec!["B".to_string()]);
    let out = s.ingest_local_entity(ent(1, 1));
    assert_eq!(out.len(), 1);
    assert_eq!(out[0].to, b);
    let out = s.handle_client_message(b, Message::NewEntity(ent(2, 2)));
    assert!(out.is_empty());
}

#[test]
fn dropped_peer_gets_no_broadcast() {
    let mut s = ServerState::new();
    let (a, _) = connect(&mut s, "A");
    let (b, _) = connect(&mut s, "B");
    s.drop_peer(b);
    let out = s.ingest_local_entity(ent(1, 1));
    assert_eq!(out, vec![Outgoing { to: a, message: Message::NewEntity(ent(1, 1)) }]);
}

#[test]
fn receive_decodes_per_peer() {
    let mut s = ServerState::new();
    let (a, _) = connect(&mut s, "A");
    let (b, _) = connect(&mut s, "B");
    let fa = frame_message(b"from-a").unwrap();
    let fb = frame_message(b"from-b").unwrap();
    assert!(s.receive(a, &fa[0..3]).is_empty());
    assert_eq!(s.receive(b, &fb), vec![b"from-b".to_vec()]);
    assert_eq!(s.receive(a, &fa[3..]), vec![b"from-a".to_vec()]);
    assert!(s.receive(99, &fa).is_empty());
}
