use toy_hashgraph::common::bytes_to_hex;
use toy_hashgraph::event::{Event, Initial};
use toy_hashgraph::graph::Graph;
use toy_hashgraph::Hashgraph;

#[test]
fn event_json_matches_the_stable_projection() {
    let initial = Event::Initial(Initial::new(9, 3));
    assert_eq!(
        initial.as_json(),
        "{\"kind\":\"initial\",\"timestamp\":3,\"peer\":9}"
    );

    let default = Event::Default(toy_hashgraph::event::Default::new(
        12,
        vec![0xab, 0x01],
        vec![1u8; 32],
        vec![2u8; 32],
    ));
    let expected = format!(
        "{{\"kind\":\"default\",\"timestamp\":12,\"transactions\":\"ab01\",\"self_parent\":\"{}\",\"other_parent\":\"{}\"}}",
        "01".repeat(32),
        "02".repeat(32),
    );
    assert_eq!(default.as_json(), expected);
}

#[test]
fn graph_json_lists_events_under_their_hex_hashes() {
    let graph = Graph::new(9, 3, 4);
    let initial = Event::Initial(Initial::new(9, 3));
    let hex_hash = bytes_to_hex(&initial.hash());
    let expected = format!(
        "{{\"total_peers\":4,\"events\":{{\"{}\":{{\"kind\":\"initial\",\"timestamp\":3,\"peer\":9}}}}}}",
        hex_hash
    );
    assert_eq!(graph.as_json(), expected);
}

#[test]
fn peer_json_nests_the_graph_projection() {
    let signing = ed25519_dalek::SigningKey::from_bytes(&[5; 32]);
    let verifying = signing.verifying_key().to_bytes().to_vec();
    let mut hg = Hashgraph::new(1, 0, [5u8; 32].to_vec(), vec![(1, verifying)])
        .expect("valid keys");
    hg.append_transaction(&[0xff, 0x00]);

    let initial = Event::Initial(Initial::new(1, 0));
    let hex_hash = bytes_to_hex(&initial.hash());
    let expected = format!(
        "{{\"id\":1,\"transactions\":\"ff00\",\"graph\":{{\"total_peers\":1,\"events\":{{\"{}\":{{\"kind\":\"initial\",\"timestamp\":0,\"peer\":1}}}}}}}}",
        hex_hash
    );
    assert_eq!(hg.as_json(), expected);
}
