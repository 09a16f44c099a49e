use std::collections::HashMap;

use toy_hashgraph::event::{Event, Initial};

type EventHash = Vec<u8>;
use toy_hashgraph::graph::Graph;

const ALICE: u64 = 1;
const BOB: u64 = 2;
const CATHY: u64 = 3;
const DAVE: u64 = 4;

/// Build the hashgraph from Figure 1 in the paper and
/// return it together with a mapping from labels (A1, B3, ...)
/// to their corresponding event hashes.
fn build_figure1_graph() -> (Graph, HashMap<&'static str, EventHash>) {
    let mut graph = Graph::new(ALICE, 0, 4);
    let mut labels: HashMap<&'static str, EventHash> = HashMap::new();

    // Initial events
    let a1 = Event::Initial(Initial::new(ALICE, 0));
    let a1_hash = a1.hash();
    labels.insert("A1", a1_hash.clone());

    let b1 = Event::Initial(Initial::new(BOB, 0));
    let b1_hash = b1.hash();
    graph.insert_event(b1);
    labels.insert("B1", b1_hash.clone());

    let c1 = Event::Initial(Initial::new(CATHY, 0));
    let c1_hash = c1.hash();
    graph.insert_event(c1);
    labels.insert("C1", c1_hash.clone());

    let d1 = Event::Initial(Initial::new(DAVE, 0));
    let d1_hash = d1.hash();
    graph.insert_event(d1);
    labels.insert("D1", d1_hash.clone());

    // Non-initial events, following the description in the doc:
    //
    // Dave sent D1 to Cathy -> C2
    let c2 = Event::Default(toy_hashgraph::event::Default::new(1, Vec::new(), c1_hash.clone(), d1_hash.clone()));
    let c2_hash = c2.hash();
    graph.insert_event(c2);
    labels.insert("C2", c2_hash.clone());

    // Cathy sent C2 to Dave -> D2
    let d2 = Event::Default(toy_hashgraph::event::Default::new(1, Vec::new(), d1_hash.clone(), c2_hash.clone()));
    let d2_hash = d2.hash();
    graph.insert_event(d2);
    labels.insert("D2", d2_hash.clone());

    // Bob sent B1 to Alice -> A2
    let a2 = Event::Default(toy_hashgraph::event::Default::new(1, Vec::new(), a1_hash.clone(), b1_hash.clone()));
    let a2_hash = a2.hash();
    graph.insert_event(a2);
    labels.insert("A2", a2_hash.clone());

    // Bob sent B1 to Cathy -> C3
    let c3 = Event::Default(toy_hashgraph::event::Default::new(2, Vec::new(), c2_hash.clone(), b1_hash.clone()));
    let c3_hash = c3.hash();
    graph.insert_event(c3);
    labels.insert("C3", c3_hash.clone());

    // Alice sent A1 to Bob -> B2
    let b2 = Event::Default(toy_hashgraph::event::Default::new(1, Vec::new(), b1_hash.clone(), a1_hash.clone()));
    let b2_hash = b2.hash();
    graph.insert_event(b2);
    labels.insert("B2", b2_hash.clone());

    // Alice sent A2 to Bob -> B3
    let b3 = Event::Default(toy_hashgraph::event::Default::new(2, Vec::new(), b2_hash.clone(), a2_hash.clone()));
    let b3_hash = b3.hash();
    graph.insert_event(b3);
    labels.insert("B3", b3_hash.clone());

    // Cathy sent C3 to Bob -> B4
    let b4 = Event::Default(toy_hashgraph::event::Default::new(3, Vec::new(), b3_hash.clone(), c3_hash.clone()));
    let b4_hash = b4.hash();
    graph.insert_event(b4);
    labels.insert("B4", b4_hash.clone());

    // Dave sent D2 to Bob -> B5
    let b5 = Event::Default(toy_hashgraph::event::Default::new(4, Vec::new(), b4_hash.clone(), d2_hash.clone()));
    let b5_hash = b5.hash();
    graph.insert_event(b5);
    labels.insert("B5", b5_hash.clone());

    // Graph should now contain A1 (from new) plus the 11 events added above.
    assert_eq!(graph.events.len(), 12);

    (graph, labels)
}

#[test]
fn graph_new_and_supermajority() {
    let graph = Graph::new(ALICE, 0, 4);

    // new() should create a single initial event
    assert_eq!(graph.events.len(), 1);

    // For 4 peers, supermajority means at least 3.
    assert!(!graph.is_supermajority(0));
    assert!(!graph.is_supermajority(1));
    assert!(!graph.is_supermajority(2));
    assert!(graph.is_supermajority(3));
    assert!(graph.is_supermajority(4));
}

#[test]
fn creators_and_latest_events_match_figure1() {
    let (graph, labels) = build_figure1_graph();

    // Creator for each labeled event
    let expected_creators = [
        ("A1", ALICE),
        ("A2", ALICE),
        ("B1", BOB),
        ("B2", BOB),
        ("B3", BOB),
        ("B4", BOB),
        ("B5", BOB),
        ("C1", CATHY),
        ("C2", CATHY),
        ("C3", CATHY),
        ("D1", DAVE),
        ("D2", DAVE),
    ];

    for (label, peer) in expected_creators {
        let hash = labels.get(label).expect("missing event label");
        assert_eq!(graph.creator(hash), peer, "creator of {}", label);
    }

    // Latest events by peer correspond to the top of each column
    let latest_alice = graph.latest_event(ALICE).unwrap().hash();
    let latest_bob = graph.latest_event(BOB).unwrap().hash();
    let latest_cathy = graph.latest_event(CATHY).unwrap().hash();
    let latest_dave = graph.latest_event(DAVE).unwrap().hash();

    assert_eq!(latest_alice, *labels.get("A2").unwrap());
    assert_eq!(latest_bob, *labels.get("B5").unwrap());
    assert_eq!(latest_cathy, *labels.get("C3").unwrap());
    assert_eq!(latest_dave, *labels.get("D2").unwrap());
}

#[test]
fn ancestor_and_self_ancestor_relations_follow_figure1() {
    let (graph, labels) = build_figure1_graph();

    let a1 = labels["A1"].clone();
    let a2 = labels["A2"].clone();
    let b1 = labels["B1"].clone();
    let b2 = labels["B2"].clone();
    let b5 = labels["B5"].clone();
    let c1 = labels["C1"].clone();
    let c3 = labels["C3"].clone();
    let d1 = labels["D1"].clone();
    let d2 = labels["D2"].clone();

    // Self-ancestor chains on each peer
    assert!(graph.is_self_ancestor(&a1, &a2));
    assert!(graph.is_strict_self_ancestor(&a1, &a2));
    assert!(!graph.is_self_ancestor(&a2, &a1));

    assert!(graph.is_self_ancestor(&b1, &b5));
    assert!(graph.is_strict_self_ancestor(&b2, &b5));
    assert!(!graph.is_self_ancestor(&b5, &b1));

    assert!(graph.is_self_ancestor(&c1, &c3));
    assert!(graph.is_self_ancestor(&d1, &d2));

    // General ancestor relationships from the figure
    assert!(graph.is_ancestor(&b1, &b5));
    assert!(graph.is_strict_ancestor(&b1, &b5));
    assert!(graph.is_ancestor(&c1, &b5));
    assert!(graph.is_ancestor(&d1, &b5));

    // Negative cases: no cross-column ancestry where there is no path
    assert!(!graph.is_ancestor(&a2, &c1));
    assert!(!graph.is_ancestor(&c1, &a1));
    assert!(!graph.is_ancestor(&d2, &b1));
}

#[test]
fn no_forks_and_no_seen_dishonesty_in_figure1_graph() {
    let (graph, labels) = build_figure1_graph();

    // In the example all peers are honest, so there should be no forks.
    let same_peer_pairs = [
        ("A1", "A2"),
        ("B1", "B2"),
        ("B3", "B4"),
        ("C1", "C3"),
        ("D1", "D2"),
    ];

    for (x_label, y_label) in same_peer_pairs {
        let x = labels[x_label].clone();
        let y = labels[y_label].clone();
        assert!(
            !graph.is_fork(&x, &y),
            "unexpected fork between {} and {}",
            x_label,
            y_label
        );
    }

    // Because there are no forks, no event should be able to see dishonesty.
    let peers = [ALICE, BOB, CATHY, DAVE];
    for (label, hash) in labels.iter() {
        for peer in peers {
            assert!(
                !graph.can_see_dishonesty(hash, peer),
                "event {} should not see dishonesty for peer {}",
                label,
                peer
            );
        }
    }
}

#[test]
fn sees_and_strongly_sees_match_paper_examples() {
    let (graph, labels) = build_figure1_graph();

    let a1 = labels["A1"].clone();
    let b1 = labels["B1"].clone();
    let c1 = labels["C1"].clone();
    let d1 = labels["D1"].clone();
    let b4 = labels["B4"].clone();
    let b5 = labels["B5"].clone();
    let c2 = labels["C2"].clone();
    let c3 = labels["C3"].clone();
    let d2 = labels["D2"].clone();

    // With no forks, "sees" is equivalent to "is_ancestor" in this example.
    assert_eq!(graph.sees(&b1, &b4), graph.is_ancestor(&b1, &b4));
    assert_eq!(graph.sees(&c1, &b5), graph.is_ancestor(&c1, &b5));

    // Paper examples for strongly seeing (x ≪ y: y strongly sees x).
    // B4 strongly sees B1 and D1, but not A1 or C1.
    assert!(graph.strongly_sees(&b1, &b4), "B4 should strongly see B1");
    assert!(graph.strongly_sees(&d1, &b4), "B4 should strongly see D1");
    assert!(
        !graph.strongly_sees(&a1, &b4),
        "B4 should not strongly see A1"
    );
    assert!(
        !graph.strongly_sees(&c1, &b4),
        "B4 should not strongly see C1"
    );

    // B5 strongly sees C1 using intermediaries B5, C2, D2.
    assert!(graph.strongly_sees(&c1, &b5), "B5 should strongly see C1");

    // Sanity check that the intermediaries mentioned in the paper are ancestors of B4/B5.
    assert!(graph.is_ancestor(&c2, &b5));
    assert!(graph.is_ancestor(&c3, &b4));
    assert!(graph.is_ancestor(&d2, &b5));
}

#[test]
fn round_zero_for_initial_events() {
    let (graph, labels) = build_figure1_graph();

    // The paper states that all initial events are in round 0.
    // We only test initial events here to avoid relying on any
    // particular implementation strategy for later rounds.
    let initials = ["A1", "B1", "C1", "D1"];
    for label in initials {
        let hash = labels[label].clone();
        assert_eq!(graph.round(&hash), 0, "round of {} should be 0", label);
    }
}

#[test]
fn rounds_for_all_figure1_events_follow_paper_description() {
    let (graph, labels) = build_figure1_graph();

    // From the paper's description of Figure 1:
    // - All initial events (A1, B1, C1, D1) are in round 0.
    // - Every other event remains in round 0 except B5.
    // - B5 strongly sees B1, C1, and D1 on a supermajority of peers,
    //   so B5 advances to round 1.

    let round0_events = [
        "A1", "B1", "C1", "D1", // initial events
        "A2", "B2", "B3", "B4", "C2", "C3", "D2",
    ];

    for label in round0_events {
        let hash = labels[label].clone();
        assert_eq!(
            graph.round(&hash),
            0,
            "event {} should remain in round 0 according to Figure 1",
            label
        );
    }

    let b5 = labels["B5"].clone();
    assert_eq!(
        graph.round(&b5),
        1,
        "B5 should advance to round 1 according to Figure 1"
    );
}

#[test]
fn witnesses_correspond_to_first_events_in_each_round() {
    let (graph, labels) = build_figure1_graph();

    // Round 0 witnesses are the initial events A1, B1, C1, D1.
    let mut expected_round0 = vec![
        labels["A1"].clone(),
        labels["B1"].clone(),
        labels["C1"].clone(),
        labels["D1"].clone(),
    ];
    let mut actual_round0 = graph.witnesses(0);

    expected_round0.sort();
    actual_round0.sort();

    assert_eq!(
        actual_round0, expected_round0,
        "round 0 witnesses should be A1, B1, C1, and D1"
    );

    // From the paper's Figure 1, B5 is the only event that advances to round 1,
    // so it is the unique witness in that round.
    let mut expected_round1 = vec![labels["B5"].clone()];
    let mut actual_round1 = graph.witnesses(1);

    expected_round1.sort();
    actual_round1.sort();

    assert_eq!(
        actual_round1, expected_round1,
        "round 1 should have B5 as its sole witness"
    );

    // There should be no witnesses beyond round 1 in this small example.
    assert!(
        graph.witnesses(2).is_empty(),
        "no events should inhabit rounds beyond 1 in Figure 1 graph"
    );
}

#[test]
fn no_fame_or_consensus_is_reached_in_figure1_graph() {
    let (graph, labels) = build_figure1_graph();

    // Fame voting for the round 0 witnesses starts with the sole round 1
    // witness B5 and stalls immediately: round 2 has no witnesses, and the
    // coin round is deliberately omitted, so nothing is decided famous.
    assert!(graph.famous_witnesses(0).is_empty());
    assert!(graph.unique_famous_witnesses(0).is_empty());

    for (label, hash) in labels.iter() {
        assert_eq!(
            graph.round_received(hash),
            None,
            "event {} should not have reached consensus",
            label
        );
        assert_eq!(
            graph.consensus_timestamp(hash),
            None,
            "event {} should not have a consensus timestamp",
            label
        );
    }

    let a1 = labels["A1"].clone();
    let b5 = labels["B5"].clone();
    assert_eq!(graph.consensus_ordering(a1, b5), None);
}

#[test]
fn all_figure1_hashes_are_distinct() {
    let (_, labels) = build_figure1_graph();

    let entries: Vec<(&str, EventHash)> = labels.iter().map(|(l, h)| (*l, h.clone())).collect();
    for i in 0..entries.len() {
        for j in 0..entries.len() {
            if i != j {
                assert_ne!(
                    entries[i].1, entries[j].1,
                    "events {} and {} should not collide",
                    entries[i].0, entries[j].0
                );
            }
        }
    }
}
