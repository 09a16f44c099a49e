use toy_hashgraph::common::bytes_to_hex;
use toy_hashgraph::event::{Event, Initial};

#[test]
fn initial_event_round_trips_through_bytes() {
    let event = Event::Initial(Initial::new(9, 77));
    let bytes = event.as_bytes();
    assert_eq!(bytes.len(), 17);
    assert_eq!(bytes[0], 0);

    let (decoded, consumed) = Event::from_bytes(&bytes).expect("well-formed bytes must decode");
    assert_eq!(consumed, 17);
    assert_eq!(decoded.as_bytes(), bytes);
    assert_eq!(decoded.timestamp(), 77);
    match decoded {
        Event::Initial(initial) => {
            assert_eq!(initial.peer, 9);
            assert_eq!(initial.timestamp, 77);
        }
        Event::Default(_) => panic!("expected an initial event"),
    }
}

#[test]
fn default_event_round_trips_through_bytes() {
    let sp = vec![3u8; 32];
    let op = vec![4u8; 32];
    let event = Event::Default(toy_hashgraph::event::Default::new(5, vec![10, 20, 30], sp.clone(), op.clone()));
    let bytes = event.as_bytes();
    assert_eq!(bytes.len(), 81 + 3);
    assert_eq!(bytes[0], 1);

    let (decoded, consumed) = Event::from_bytes(&bytes).expect("well-formed bytes must decode");
    assert_eq!(consumed, bytes.len());
    assert_eq!(decoded.as_bytes(), bytes);
    match decoded {
        Event::Default(default) => {
            assert_eq!(default.timestamp, 5);
            assert_eq!(default.transactions, vec![10, 20, 30]);
            assert_eq!(default.self_parent, sp);
            assert_eq!(default.other_parent, op);
        }
        Event::Initial(_) => panic!("expected a default event"),
    }
}

#[test]
fn event_streams_decode_back_to_the_same_events() {
    let e1 = Event::Initial(Initial::new(1, 0));
    let e2 = Event::Default(toy_hashgraph::event::Default::new(3, vec![7, 7], e1.hash(), e1.hash()));
    let e3 = Event::Initial(Initial::new(2, 0));

    let mut stream = Vec::new();
    stream.extend_from_slice(&e1.as_bytes());
    stream.extend_from_slice(&e2.as_bytes());
    stream.extend_from_slice(&e3.as_bytes());

    let decoded = Event::events_from_bytes(&stream).expect("stream of encodings must decode");
    assert_eq!(decoded.len(), 3);
    assert_eq!(decoded[0].as_bytes(), e1.as_bytes());
    assert_eq!(decoded[1].as_bytes(), e2.as_bytes());
    assert_eq!(decoded[2].as_bytes(), e3.as_bytes());

    let empty: &[u8] = &[];
    assert_eq!(Event::events_from_bytes(empty).unwrap().len(), 0);
}

#[test]
fn malformed_event_bytes_are_rejected() {
    // Unknown variant byte.
    assert!(Event::from_bytes(&[9u8; 17]).is_none());
    // Truncated initial event.
    assert!(Event::from_bytes(&[0u8; 16]).is_none());
    // Truncated default event: claims 4 transaction bytes, holds none.
    let mut bytes = vec![1u8];
    bytes.extend_from_slice(&5u64.to_le_bytes());
    bytes.extend_from_slice(&4u64.to_le_bytes());
    assert!(Event::from_bytes(&bytes).is_none());
    // A stream whose tail is garbage is rejected wholesale.
    let good = Event::Initial(Initial::new(1, 0)).as_bytes();
    let mut stream = good.clone();
    stream.push(9);
    assert!(Event::events_from_bytes(&stream).is_none());
}

#[test]
fn hashes_depend_only_on_canonical_bytes() {
    let event = Event::Initial(Initial::new(4, 2));
    let again = Event::Initial(Initial::new(4, 2));
    // Re-encoding and re-hashing the same content yields the same value.
    assert_eq!(event.as_bytes(), again.as_bytes());
    assert_eq!(event.hash(), again.hash());
    assert_eq!(event.hash(), event.hash());
    assert_eq!(event.hash().len(), 32);

    // Distinct events yield distinct hashes.
    let other = Event::Initial(Initial::new(4, 3));
    assert_ne!(event.hash(), other.hash());
}

#[test]
fn hex_rendering_is_lowercase_and_fixed_width() {
    assert_eq!(bytes_to_hex(&[]), "");
    assert_eq!(bytes_to_hex(&[0x00, 0xff, 0x1a]), "00ff1a");
    assert_eq!(bytes_to_hex(&[0x0f]), "0f");
}
