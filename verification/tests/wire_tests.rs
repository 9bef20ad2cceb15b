use minkowski_kv::event::{Event, Operation};
use minkowski_kv::protocol::ProtocolMessage;
use minkowski_kv::spacetime::SpacetimeCoord;
use minkowski_kv::wire::{decode_event, decode_message, encode_event, encode_message, WireError};

fn coord(t: u128, x: f64, y: f64, z: f64) -> SpacetimeCoord {
    SpacetimeCoord { t, x_bits: x.to_bits(), y_bits: y.to_bits(), z_bits: z.to_bits() }
}

fn sample_event() -> Event {
    Event::with_id(
        [0x11u8; 16],
        vec![[2u8; 32], [1u8; 32]],
        coord(0x0102, 1.5, -2.0, 0.0),
        Operation::Put("ab".to_string(), vec![7, 8, 9]),
    )
}

fn sample_bytes() -> Vec<u8> {
    let mut b: Vec<u8> = vec![0];
    b.extend_from_slice(&[0x11u8; 16]);
    b.extend_from_slice(&[2, 0, 0, 0, 0, 0, 0, 0]);
    b.extend_from_slice(&[1u8; 32]);
    b.extend_from_slice(&[2u8; 32]);
    b.extend_from_slice(&[2, 1, 0, 0, 0, 0, 0, 0, 0, 0, 0, 0, 0, 0, 0, 0]);
    b.extend_from_slice(&[0, 0, 0, 0, 0, 0, 0xf8, 0x3f]);
    b.extend_from_slice(&[0, 0, 0, 0, 0, 0, 0, 0xc0]);
    b.extend_from_slice(&[0, 0, 0, 0, 0, 0, 0, 0]);
    b.push(0);
    b.extend_from_slice(&[2, 0, 0, 0, 0, 0, 0, 0]);
    b.extend_from_slice(b"ab");
    b.extend_from_slice(&[3, 0, 0, 0, 0, 0, 0, 0]);
    b.extend_from_slice(&[7, 8, 9]);
    b
}

fn expect_gossip(r: Result<ProtocolMessage, WireError>) -> Event {
    match r {
        Ok(ProtocolMessage::Gossip(e)) => e,
        other => panic!("not a gossip: {:?}", other),
    }
}

#[test]
fn gossip_is_encoded_field_by_field() {
    let bytes = encode_message(&ProtocolMessage::Gossip(sample_event()));
    assert_eq!(bytes, sample_bytes());
    assert_eq!(encode_event(&sample_event()), sample_bytes()[1..].to_vec());
}

#[test]
fn hello_is_a_tag_and_three_doubles() {
    let msg = ProtocolMessage::Hello { coords: (1.0f64.to_bits(), 2.5f64.to_bits(), (-0.0f64).to_bits()) };
    let bytes = encode_message(&msg);
    let mut expected: Vec<u8> = vec![1];
    expected.extend_from_slice(&1.0f64.to_le_bytes());
    expected.extend_from_slice(&2.5f64.to_le_bytes());
    expected.extend_from_slice(&(-0.0f64).to_le_bytes());
    assert_eq!(bytes, expected);
    assert_eq!(bytes.len(), 25);
    match decode_message(&bytes) {
        Ok(ProtocolMessage::Hello { coords }) => {
            assert_eq!(f64::from_bits(coords.0), 1.0);
            assert_eq!(f64::from_bits(coords.1), 2.5);
            assert_eq!(coords.2, (-0.0f64).to_bits());
        }
        other => panic!("not a hello: {:?}", other),
    }
}

#[test]
fn payload_tags_are_put_delete_merge_genesis() {
    let ops = vec![
        (Operation::Put("k".to_string(), vec![]), vec![0u8, 1, 0, 0, 0, 0, 0, 0, 0, b'k', 0, 0, 0, 0, 0, 0, 0, 0]),
        (Operation::Delete("k".to_string()), vec![1u8, 1, 0, 0, 0, 0, 0, 0, 0, b'k']),
        (Operation::Merge, vec![2u8]),
        (Operation::Genesis, vec![3u8]),
    ];
    for (op, tail) in ops {
        let e = Event::with_id([0u8; 16], Vec::new(), SpacetimeCoord::origin(), op);
        let bytes = encode_event(&e);
        assert_eq!(bytes.len(), 16 + 8 + 16 + 24 + tail.len());
        assert_eq!(bytes[64..].to_vec(), tail);
    }
}

#[test]
fn a_decoded_event_has_the_hash_that_was_sent() {
    let sent = sample_event();
    let back = expect_gossip(decode_message(&encode_message(&ProtocolMessage::Gossip(sent.clone()))));
    assert_eq!(back.hash(), sent.hash());
    assert_eq!(back.id(), sent.id());
    assert_eq!(back.parents().to_vec(), sent.parents().to_vec());
    assert_eq!(back.coords(), sent.coords());
    match back.payload() {
        Operation::Put(k, v) => {
            assert_eq!(k, "ab");
            assert_eq!(*v, vec![7, 8, 9]);
        }
        _ => panic!("the operation changed"),
    }
    let direct = decode_event(&encode_event(&sent)).unwrap();
    assert_eq!(direct.hash(), sent.hash());
}

#[test]
fn every_kind_of_event_survives_the_round_trip() {
    let events = vec![
        Event::new(Vec::new(), SpacetimeCoord::origin(), Operation::Genesis),
        Event::new(vec![[9u8; 32]], coord(u128::MAX, f64::MAX, f64::MIN, f64::NAN), Operation::Merge),
        Event::new(vec![[3u8; 32], [1u8; 32], [2u8; 32]], coord(1, 1e-300, 0.0, -0.0), Operation::Delete("schl\u{fc}ssel".to_string())),
        Event::new(Vec::new(), coord(5, 0.0, 0.0, 0.0), Operation::Put(String::new(), Vec::new())),
        Event::new(Vec::new(), coord(5, 0.0, 0.0, 0.0), Operation::Put("\u{1f680}".to_string(), vec![0u8; 1000])),
    ];
    for sent in events {
        let bytes = encode_message(&ProtocolMessage::Gossip(sent.clone()));
        let back = expect_gossip(decode_message(&bytes));
        assert_eq!(back.hash(), sent.hash());
        assert_eq!(back.id(), sent.id());
        assert_eq!(back.parents().to_vec(), sent.parents().to_vec());
        assert_eq!(back.coords(), sent.coords());
        assert_eq!(encode_message(&ProtocolMessage::Gossip(back)), bytes);
    }
}

#[test]
fn parents_out_of_order_are_taken_as_a_set() {
    let mut bytes = sample_bytes();
    bytes[25..57].copy_from_slice(&[2u8; 32]);
    bytes[57..89].copy_from_slice(&[1u8; 32]);
    let e = expect_gossip(decode_message(&bytes));
    assert_eq!(e.parents().to_vec(), vec![[1u8; 32], [2u8; 32]]);
    assert_eq!(e.hash(), sample_event().hash());

    bytes[57..89].copy_from_slice(&[2u8; 32]);
    let twice = expect_gossip(decode_message(&bytes));
    assert_eq!(twice.parents().to_vec(), vec![[2u8; 32]]);
}

#[test]
fn bytes_behind_a_message_are_passed_over() {
    let mut bytes = sample_bytes();
    bytes.extend_from_slice(&[0xde, 0xad]);
    let e = expect_gossip(decode_message(&bytes));
    assert_eq!(e.hash(), sample_event().hash());
}

#[test]
fn malformed_bytes_are_refused() {
    assert_eq!(decode_message(&[]).err(), Some(WireError::Malformed));
    assert_eq!(decode_message(&[2]).err(), Some(WireError::Malformed));
    assert_eq!(decode_message(&[0xff, 0, 0]).err(), Some(WireError::Malformed));
    assert_eq!(decode_message(&[1]).err(), Some(WireError::Malformed));
    assert_eq!(decode_message(&[1u8; 24]).err(), Some(WireError::Malformed));
    assert_eq!(decode_event(&[]).err(), Some(WireError::Malformed));

    let whole = sample_bytes();
    for cut in 0..whole.len() {
        assert_eq!(decode_message(&whole[..cut]).err(), Some(WireError::Malformed), "cut at {}", cut);
    }
    assert!(decode_message(&whole).is_ok());
}

#[test]
fn an_unknown_payload_tag_is_refused() {
    let mut bytes = sample_bytes();
    bytes[129] = 4;
    assert_eq!(decode_message(&bytes).err(), Some(WireError::Malformed));
}

#[test]
fn a_key_that_is_not_utf8_is_refused() {
    let mut bytes = sample_bytes();
    assert_eq!(&bytes[138..140], b"ab");
    bytes[138] = 0xff;
    assert_eq!(decode_message(&bytes).err(), Some(WireError::Malformed));
    bytes[138] = 0xc3;
    bytes[139] = 0xbc;
    match expect_gossip(decode_message(&bytes)).payload() {
        Operation::Put(k, _) => assert_eq!(k, "\u{fc}"),
        _ => panic!("the operation changed"),
    }
}

#[test]
fn a_count_beyond_the_bytes_is_refused() {
    let mut bytes = sample_bytes();
    bytes[17..25].copy_from_slice(&u64::MAX.to_le_bytes());
    assert_eq!(decode_message(&bytes).err(), Some(WireError::Malformed));
    let mut bytes = sample_bytes();
    bytes[17..25].copy_from_slice(&3u64.to_le_bytes());
    assert_eq!(decode_message(&bytes).err(), Some(WireError::Malformed));
    let mut bytes = sample_bytes();
    bytes[130..138].copy_from_slice(&u64::MAX.to_le_bytes());
    assert_eq!(decode_message(&bytes).err(), Some(WireError::Malformed));
}
