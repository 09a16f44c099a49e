use ed25519_dalek::ed25519::signature::Signer;

use toy_hashgraph::{Hashgraph, HashgraphError};

fn key_pair(seed: u8) -> (Vec<u8>, Vec<u8>) {
    let signing = ed25519_dalek::SigningKey::from_bytes(&[seed; 32]);
    let verifying = signing.verifying_key().to_bytes().to_vec();
    ([seed; 32].to_vec(), verifying)
}

fn two_peers() -> (Hashgraph, Hashgraph) {
    let (sk1, vk1) = key_pair(7);
    let (sk2, vk2) = key_pair(8);
    let keys = vec![(1u64, vk1), (2u64, vk2)];
    let a = Hashgraph::new(1, 0, sk1, keys.clone()).expect("valid keys");
    let b = Hashgraph::new(2, 0, sk2, keys).expect("valid keys");
    (a, b)
}

#[test]
fn send_output_verifies_and_extends_the_receiver() {
    let (a, mut b) = two_peers();

    b.append_transaction(&[1, 2, 3]);
    b.append_transaction(&[4]);
    assert_eq!(b.pending_transactions, vec![1, 2, 3, 4]);

    let message = a.send();
    assert_eq!(&message[0..8], &1u64.to_le_bytes());
    assert!(message.len() > 72);

    b.receive(&message, 10).expect("a genuine payload verifies");

    // b now holds its own initial event, a's initial event, and the
    // new event it appended.
    assert_eq!(b.graph.events.len(), 3);
    assert!(b.pending_transactions.is_empty());

    let tip = b.graph.latest_event(2).expect("b's chain has a tip");
    assert_eq!(tip.timestamp(), 10);
    match tip {
        toy_hashgraph::event::Event::Default(ev) => {
            assert_eq!(ev.transactions, vec![1, 2, 3, 4]);
        }
        toy_hashgraph::event::Event::Initial(_) => panic!("the new tip is a default event"),
    }
}

#[test]
fn tampered_payloads_fail_verification() {
    let (a, mut b) = two_peers();
    let message = a.send();

    // A flipped payload byte invalidates the signature.
    let mut flipped = message.clone();
    let last = flipped.len() - 1;
    flipped[last] ^= 0x01;
    assert_eq!(b.receive(&flipped, 10), Err(HashgraphError::InvalidSignature));

    // A flipped signature byte does too.
    let mut bad_sig = message.clone();
    bad_sig[8] ^= 0x01;
    assert_eq!(b.receive(&bad_sig, 10), Err(HashgraphError::InvalidSignature));

    // The graph is untouched by rejected payloads.
    assert_eq!(b.graph.events.len(), 1);

    // The untampered message still goes through.
    assert!(b.receive(&message, 10).is_ok());
}

#[test]
fn receive_rejects_short_unknown_and_malformed_input() {
    let (a, mut b) = two_peers();
    let message = a.send();

    assert_eq!(b.receive(&message[0..72], 10), Err(HashgraphError::PayloadTooShort));
    assert_eq!(b.receive(&[], 10), Err(HashgraphError::PayloadTooShort));

    // A sender id with no registered key.
    let mut unknown = message.clone();
    unknown[0] = 99;
    assert_eq!(b.receive(&unknown, 10), Err(HashgraphError::UnknownSender));

    // A correctly signed payload that is not an event stream.
    let garbage = vec![9u8, 9, 9];
    let signer = ed25519_dalek::SigningKey::from_bytes(&[7; 32]);
    let signature = signer.sign(&garbage).to_bytes();
    let mut crafted = Vec::new();
    crafted.extend_from_slice(&1u64.to_le_bytes());
    crafted.extend_from_slice(&signature);
    crafted.extend_from_slice(&garbage);
    assert_eq!(b.receive(&crafted, 10), Err(HashgraphError::MalformedPayload));

    assert_eq!(b.graph.events.len(), 1);
}

#[test]
fn construction_rejects_bad_keys() {
    let (sk1, vk1) = key_pair(7);

    // A private key of the wrong length.
    assert_eq!(
        Hashgraph::new(1, 0, vec![0u8; 31], vec![(1, vk1.clone())]).err(),
        Some(HashgraphError::InvalidKeyLength)
    );

    // A public key of the wrong length.
    assert_eq!(
        Hashgraph::new(1, 0, sk1.clone(), vec![(1, vec![0u8; 33])]).err(),
        Some(HashgraphError::InvalidKeyLength)
    );

    // 32 bytes that decode to no curve point: y = 2 has no square x.
    let mut not_a_point = vec![0u8; 32];
    not_a_point[0] = 2;
    assert_eq!(
        Hashgraph::new(1, 0, sk1.clone(), vec![(1, vk1.clone()), (2, not_a_point)]).err(),
        Some(HashgraphError::InvalidPublicKey)
    );

    // The well-formed inputs construct a peer with the right shape.
    let hg = Hashgraph::new(3, 42, sk1, vec![(3, vk1)]).expect("valid keys");
    assert_eq!(hg.id, 3);
    assert_eq!(hg.graph.total_peers, 1);
    assert_eq!(hg.graph.events.len(), 1);
    assert!(hg.pending_transactions.is_empty());
}

#[test]
fn gossip_back_and_forth_converges() {
    let (mut a, mut b) = two_peers();

    a.append_transaction(&[0xaa]);
    let m1 = b.send();
    a.receive(&m1, 1).expect("b's gossip verifies");
    assert_eq!(a.graph.events.len(), 3);
    assert!(a.pending_transactions.is_empty());

    let m2 = a.send();
    b.receive(&m2, 2).expect("a's gossip verifies");
    // b holds the three events a had, plus its own new event.
    assert_eq!(b.graph.events.len(), 4);

    // Both peers agree on a's events.
    let a_tip = a.graph.latest_event(1).expect("a has a tip").hash();
    let b_view_of_a = b.graph.latest_event(1).expect("b sees a's tip").hash();
    assert_eq!(a_tip, b_view_of_a);
}
