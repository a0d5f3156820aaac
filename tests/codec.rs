use shared_canvas::codec::{frame_message, MessageHandler, MAX_BUFFER_SIZE};

#[test]
fn frame_has_little_endian_length_prefix() {
    let framed = frame_message(&[7, 8, 9]).unwrap();
    assert_eq!(framed, vec![3, 0, 0, 0, 7, 8, 9]);
}

#[test]
fn frame_of_large_payload_spells_length_in_four_bytes() {
    let payload = vec![1u8; 0x0102_03];
    let framed = frame_message(&payload).unwrap();
    assert_eq!(&framed[0..4], &[0x03, 0x02, 0x01, 0x00]);
    assert_eq!(framed.len(), payload.len() + 4);
}

#[test]
fn frame_of_empty_payload() {
    assert_eq!(frame_message(&[]).unwrap(), vec![0, 0, 0, 0]);
}

#[test]
fn round_trip_in_one_chunk() {
    let framed = frame_message(b"{\"id\":1}").unwrap();
    let mut h = MessageHandler::new();
    let frames = h.receive(&framed);
    assert_eq!(frames, vec![b"{\"id\":1}".to_vec()]);
    assert_eq!(h.next_frame(), None);
}

#[test]
fn round_trip_byte_at_a_time() {
    let payload = b"RequestAllEntities payload".to_vec();
    let framed = frame_message(&payload).unwrap();
    let mut h = MessageHandler::new();
    let mut got = Vec::new();
    for (i, b) in framed.iter().enumerate() {
        let frames = h.receive(&[*b]);
        if i + 1 < framed.len() {
            assert!(frames.is_empty());
        }
        got.extend(frames);
    }
    assert_eq!(got, vec![payload]);
}

#[test]
fn round_trip_with_empty_and_uneven_chunks() {
    let payload: Vec<u8> = (0..50u8).collect();
    let framed = frame_message(&payload).unwrap();
    let mut h = MessageHandler::new();
    assert!(h.receive(&[]).is_empty());
    assert!(h.receive(&framed[0..3]).is_empty());
    assert!(h.receive(&framed[3..10]).is_empty());
    assert!(h.receive(&[]).is_empty());
    assert_eq!(h.receive(&framed[10..]), vec![payload]);
}

#[test]
fn several_frames_in_one_chunk_come_out_in_order() {
    let mut bytes = frame_message(b"a").unwrap();
    bytes.extend(frame_message(b"bc").unwrap());
    bytes.extend(frame_message(b"").unwrap());
    bytes.extend(&frame_message(b"def").unwrap()[0..5]);
    let mut h = MessageHandler::new();
    let frames = h.receive(&bytes);
    assert_eq!(frames, vec![b"a".to_vec(), b"bc".to_vec(), Vec::new()]);
    assert_eq!(h.receive(b"ef"), vec![b"def".to_vec()]);
}

#[test]
fn partial_frame_yields_nothing_then_completes() {
    let framed = frame_message(b"hello").unwrap();
    let mut h = MessageHandler::new();
    h.extend_buffer(&framed[0..2]);
    assert_eq!(h.next_frame(), None);
    assert_eq!(h.next_frame(), None);
    h.extend_buffer(&framed[2..6]);
    assert_eq!(h.next_frame(), None);
    assert_eq!(h.next_frame(), None);
    h.extend_buffer(&framed[6..]);
    assert_eq!(h.next_frame(), Some(b"hello".to_vec()));
    assert_eq!(h.next_frame(), None);
}

#[test]
fn oversized_length_clears_and_resyncs() {
    let mut h = MessageHandler::new();
    let too_big = (MAX_BUFFER_SIZE as u32 + 1).to_le_bytes();
    let mut bytes = too_big.to_vec();
    bytes.extend_from_slice(b"garbage");
    assert!(h.receive(&bytes).is_empty());
    assert!(!h.check_buffer_size());
    let framed = frame_message(b"fresh").unwrap();
    assert_eq!(h.receive(&framed), vec![b"fresh".to_vec()]);
}

#[test]
fn length_at_ceiling_is_accepted() {
    let payload = vec![5u8; MAX_BUFFER_SIZE];
    let framed = frame_message(&payload).unwrap();
    let mut h = MessageHandler::new();
    let frames = h.receive(&framed);
    assert_eq!(frames.len(), 1);
    assert_eq!(frames[0], payload);
}

#[test]
fn buffer_over_ceiling_is_cleared() {
    let mut h = MessageHandler::new();
    h.extend_buffer(&vec![0u8; MAX_BUFFER_SIZE + 1]);
    assert!(h.check_buffer_size());
    assert!(!h.check_buffer_size());
    assert_eq!(h.next_frame(), None);
}

#[test]
fn buffer_at_ceiling_is_kept() {
    let mut h = MessageHandler::new();
    h.extend_buffer(&vec![1u8; MAX_BUFFER_SIZE]);
    assert!(!h.check_buffer_size());
}
