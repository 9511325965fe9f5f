use chat_core::codec::{decode, encode, Message};

fn msg(origin: u64, seq: u64, topic: &[u8], data: &[u8]) -> Message {
    Message { origin, seq, topic: topic.to_vec(), data: data.to_vec() }
}

#[test]
fn encode_exact_layout() {
    let m = msg(1, 2, b"t", b"x");
    let frame = encode(&m);
    let mut expected = Vec::new();
    expected.extend_from_slice(&[0, 0, 0, 0, 0, 0, 0, 1]); // origin
    expected.extend_from_slice(&[0, 0, 0, 0, 0, 0, 0, 2]); // sequence
    expected.extend_from_slice(&[0, 0, 0, 0, 0, 0, 0, 1]); // topic length
    expected.extend_from_slice(b"t");
    expected.extend_from_slice(b"x");
    assert_eq!(frame, expected);
}

#[test]
fn round_trip_preserves_payload_bytes() {
    let m = msg(0xDEAD_BEEF_0102_0304, 77, b"chat", b"hello, world \xf0\x9f\x8e\x89");
    let frame = encode(&m);
    let back = decode(&frame).expect("a well-formed frame decodes");
    assert_eq!(back.origin, m.origin);
    assert_eq!(back.seq, m.seq);
    assert_eq!(back.topic, m.topic);
    assert_eq!(back.data, m.data);
}

#[test]
fn round_trip_empty_topic_and_payload() {
    let m = msg(0, 0, b"", b"");
    let frame = encode(&m);
    assert_eq!(frame.len(), 24);
    let back = decode(&frame).expect("an empty message still decodes");
    assert_eq!(back.topic, Vec::<u8>::new());
    assert_eq!(back.data, Vec::<u8>::new());
}

#[test]
fn decode_rejects_short_frame() {
    assert!(decode(&vec![]).is_none());
    assert!(decode(&vec![0u8; 23]).is_none());
}

#[test]
fn decode_rejects_topic_length_past_end() {
    let m = msg(1, 1, b"chat", b"hi");
    let mut frame = encode(&m);
    // claim a topic longer than the frame holds
    frame[23] = 0xFF;
    assert!(decode(&frame).is_none());
}

#[test]
fn decode_accepts_minimal_valid_frame() {
    let frame = vec![0u8; 24];
    let back = decode(&frame).expect("an all-zero header is a valid empty message");
    assert_eq!(back.origin, 0);
    assert_eq!(back.seq, 0);
    assert!(back.topic.is_empty());
    assert!(back.data.is_empty());
}
