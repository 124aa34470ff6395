//! Wire codec behavior: exact bytes, round trips, and typed rejections.

use docsync::{BloomFilter, Change, ChangeHash, Have, Message, ReadMessageError};

fn h(n: u8) -> ChangeHash {
    let mut b = [0u8; 32];
    b[0] = n;
    ChangeHash(b)
}

fn ch(id: u8, deps: Vec<ChangeHash>) -> Change {
    Change { hash: h(id), deps, payload: vec![id, 0xaa] }
}

#[test]
fn encode_empty_message_exact_bytes() {
    let m = Message { heads: vec![], need: vec![], have: vec![], changes: vec![] };
    assert_eq!(m.encode(), vec![0x42, 0, 0, 0, 0]);
}

#[test]
fn encode_one_head_exact_bytes() {
    let m = Message { heads: vec![h(7)], need: vec![], have: vec![], changes: vec![] };
    let mut expected = vec![0x42, 1];
    expected.extend_from_slice(&h(7).0);
    expected.extend_from_slice(&[0, 0, 0]);
    assert_eq!(m.encode(), expected);
}

#[test]
fn message_round_trip() {
    let bloom = BloomFilter::from_hashes(&[h(1), h(2)]);
    let m = Message {
        heads: vec![h(1), h(2)],
        need: vec![h(9)],
        have: vec![Have { last_sync: vec![h(1)], bloom }],
        changes: vec![ch(2, vec![h(1)]), ch(3, vec![h(1), h(2)])],
    };
    let copy = m.clone();
    let bytes = m.encode();
    let back = Message::decode(&bytes).expect("decoding an encoding must succeed");
    assert_eq!(back, copy);
}

#[test]
fn message_round_trip_reset_shape() {
    let m = Message {
        heads: vec![h(4)],
        need: vec![],
        have: vec![Have::default()],
        changes: vec![],
    };
    let copy = m.clone();
    let back = Message::decode(&m.encode()).unwrap();
    assert_eq!(back, copy);
}

#[test]
fn decode_rejects_wrong_type() {
    let r = Message::decode(&[0x41]);
    assert_eq!(
        r,
        Err(ReadMessageError::WrongType { expected_one_of: vec![0x42], found: 0x41 })
    );
}

#[test]
fn decode_rejects_empty_input() {
    assert_eq!(Message::decode(&[]), Err(ReadMessageError::NotEnoughInput));
}

#[test]
fn decode_rejects_truncated_heads() {
    // Announces five heads but carries none of their bytes.
    assert_eq!(Message::decode(&[0x42, 5]), Err(ReadMessageError::NotEnoughInput));
}

#[test]
fn decode_rejects_malformed_bloom() {
    // One have: no last_sync, a three-byte bloom declaring nine bits
    // but carrying no bit bytes.
    let bytes = vec![0x42, 0, 0, 1, 0, 3, 0, 0, 9, 0];
    assert_eq!(Message::decode(&bytes), Err(ReadMessageError::MalformedBloom));
}

#[test]
fn decode_rejects_malformed_change() {
    // One change blob of three bytes: far too short for a 32-byte hash.
    let bytes = vec![0x42, 0, 0, 0, 1, 3, 1, 2, 3];
    assert_eq!(Message::decode(&bytes), Err(ReadMessageError::MalformedChange));
}

#[test]
fn change_round_trip() {
    let c = ch(5, vec![h(1), h(2)]);
    let copy = c.clone();
    let back = Change::from_bytes(&c.raw_bytes()).unwrap();
    assert_eq!(back, copy);
}

#[test]
fn decode_ignores_trailing_bytes() {
    let m = Message { heads: vec![], need: vec![], have: vec![], changes: vec![] };
    let mut bytes = m.encode();
    bytes.push(0xff);
    let back = Message::decode(&bytes).unwrap();
    assert_eq!(back.heads.len(), 0);
    assert_eq!(back.changes.len(), 0);
}
