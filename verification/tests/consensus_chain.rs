use std::cmp::Ordering;

use toy_hashgraph::event::{Event, Initial};

type EventHash = Vec<u8>;
use toy_hashgraph::graph::Graph;

/// A single peer gossiping with itself: each event references its
/// predecessor as both parents. With one peer every single event is a
/// supermajority, so rounds advance at every step and fame is decided
/// quickly — a small graph in which consensus is actually reached.
fn build_single_peer_chain() -> (Graph, Vec<EventHash>) {
    let mut graph = Graph::new(1, 0, 1);
    let a1 = Event::Initial(Initial::new(1, 0));
    let mut hashes = vec![a1.hash()];

    let timestamps = [5u64, 9, 12];
    for ts in timestamps {
        let prev = hashes.last().unwrap().clone();
        let next = Event::Default(toy_hashgraph::event::Default::new(ts, Vec::new(), prev.clone(), prev));
        hashes.push(next.hash());
        graph.insert_event(next);
    }
    (graph, hashes)
}

#[test]
fn single_peer_rounds_advance_every_event() {
    let (graph, hashes) = build_single_peer_chain();
    for (i, h) in hashes.iter().enumerate() {
        assert_eq!(graph.round(h), i as u64, "event {} should be in round {}", i, i);
    }
    for (r, h) in hashes.iter().enumerate() {
        assert_eq!(graph.witnesses(r as u64), vec![h.clone()]);
    }
}

#[test]
fn single_peer_witnesses_become_famous_and_unique() {
    let (graph, hashes) = build_single_peer_chain();

    // The witnesses of rounds 0 and 1 have two rounds of voters above
    // them, enough to be decided famous; the last two do not.
    assert_eq!(graph.famous_witnesses(0), vec![hashes[0].clone()]);
    assert_eq!(graph.famous_witnesses(1), vec![hashes[1].clone()]);
    assert!(graph.famous_witnesses(2).is_empty());
    assert!(graph.famous_witnesses(3).is_empty());

    assert_eq!(graph.unique_famous_witnesses(0), vec![hashes[0].clone()]);
    assert_eq!(graph.unique_famous_witnesses(1), vec![hashes[1].clone()]);
    assert!(graph.unique_famous_witnesses(2).is_empty());
}

#[test]
fn single_peer_round_received_and_consensus_timestamp() {
    let (graph, hashes) = build_single_peer_chain();

    // The initial event is an ancestor of the round 0 unique famous
    // witness (itself), so it is received in round 0 at its own time.
    assert_eq!(graph.round_received(&hashes[0]), Some(0));
    assert_eq!(graph.consensus_timestamp(&hashes[0]), Some(0));

    // The second event is received in round 1; its representative
    // timestamp is its own.
    assert_eq!(graph.round_received(&hashes[1]), Some(1));
    assert_eq!(graph.consensus_timestamp(&hashes[1]), Some(5));

    // The last two events have no famous witness round above them yet.
    assert_eq!(graph.round_received(&hashes[2]), None);
    assert_eq!(graph.round_received(&hashes[3]), None);
    assert_eq!(graph.consensus_timestamp(&hashes[2]), None);
}

#[test]
fn single_peer_consensus_ordering_follows_round_received() {
    let (graph, hashes) = build_single_peer_chain();

    assert_eq!(
        graph.consensus_ordering(hashes[0].clone(), hashes[1].clone()),
        Some(Ordering::Less)
    );
    assert_eq!(
        graph.consensus_ordering(hashes[1].clone(), hashes[0].clone()),
        Some(Ordering::Greater)
    );
    assert_eq!(
        graph.consensus_ordering(hashes[0].clone(), hashes[0].clone()),
        Some(Ordering::Equal)
    );
    // An undecided event has no consensus order.
    assert_eq!(graph.consensus_ordering(hashes[0].clone(), hashes[2].clone()), None);
}

#[test]
fn get_event_returns_the_stored_event() {
    let (graph, hashes) = build_single_peer_chain();
    let ev = graph.get_event(&hashes[1]);
    assert_eq!(ev.hash(), hashes[1]);
    assert_eq!(ev.timestamp(), 5);
    assert_eq!(graph.event_count(), 4);
}

#[test]
fn inserting_the_same_event_twice_is_idempotent() {
    let mut graph = Graph::new(1, 0, 2);
    let before = graph.events.len();
    let dup = Event::Initial(Initial::new(1, 0));
    graph.insert_event(dup);
    assert_eq!(graph.events.len(), before, "re-inserting the initial event changes nothing");

    let e = Event::Default(toy_hashgraph::event::Default::new(
        1,
        vec![1, 2],
        vec![7u8; 32],
        vec![8u8; 32],
    ));
    graph.insert_event(e.clone());
    graph.insert_event(e);
    assert_eq!(graph.events.len(), before + 1);
}

/// Two graphs holding the same events, received in different orders,
/// agree on every consensus query.
#[test]
fn peers_with_the_same_events_agree_on_consensus() {
    let (forward, hashes) = build_single_peer_chain();

    let mut backward = Graph::new(1, 0, 1);
    let mut events = Vec::new();
    for h in &hashes[1..] {
        match forward.get_event(h) {
            Event::Default(ev) => events.push(Event::Default(toy_hashgraph::event::Default::new(
                ev.timestamp,
                ev.transactions.clone(),
                ev.self_parent.clone(),
                ev.other_parent.clone(),
            ))),
            Event::Initial(_) => unreachable!(),
        }
    }
    for ev in events.into_iter().rev() {
        backward.insert_event(ev);
    }
    assert_eq!(backward.events.len(), forward.events.len());

    for a in &hashes {
        assert_eq!(forward.round(a), backward.round(a));
        assert_eq!(forward.round_received(a), backward.round_received(a));
        assert_eq!(forward.consensus_timestamp(a), backward.consensus_timestamp(a));
        for b in &hashes {
            assert_eq!(
                forward.consensus_ordering(a.clone(), b.clone()),
                backward.consensus_ordering(a.clone(), b.clone()),
                "consensus order must not depend on insertion order"
            );
        }
    }
}

/// A forking peer is detected: two events on diverging chains form a
/// fork, and any event that has both as ancestors sees the dishonesty.
#[test]
fn forks_and_dishonesty_are_detected() {
    let mut graph = Graph::new(1, 0, 1);
    let a1 = Event::Initial(Initial::new(1, 0));
    let a1_hash = a1.hash();

    // Two events by peer 1 that both extend the initial event: a fork.
    let f1 = Event::Default(toy_hashgraph::event::Default::new(
        1,
        Vec::new(),
        a1_hash.clone(),
        a1_hash.clone(),
    ));
    let f2 = Event::Default(toy_hashgraph::event::Default::new(
        2,
        Vec::new(),
        a1_hash.clone(),
        a1_hash.clone(),
    ));
    let f1_hash = f1.hash();
    let f2_hash = f2.hash();
    graph.insert_event(f1);
    graph.insert_event(f2);

    assert!(graph.is_fork(&f1_hash, &f2_hash));
    assert!(graph.is_fork(&f2_hash, &f1_hash));
    assert!(!graph.is_fork(&f1_hash, &f1_hash));
    assert!(!graph.is_fork(&a1_hash, &f1_hash));

    // An event descending from both fork branches sees the dishonesty.
    let observer = Event::Default(toy_hashgraph::event::Default::new(
        3,
        Vec::new(),
        f1_hash.clone(),
        f2_hash.clone(),
    ));
    let observer_hash = observer.hash();
    graph.insert_event(observer);

    assert!(graph.can_see_dishonesty(&observer_hash, 1));
    assert!(!graph.can_see_dishonesty(&f1_hash, 1));

    // The observer has the initial event as an ancestor but no longer
    // sees it, because its creator equivocated.
    assert!(graph.is_ancestor(&a1_hash, &observer_hash));
    assert!(!graph.sees(&a1_hash, &observer_hash));
    assert!(graph.sees(&a1_hash, &f1_hash));
}

/// Supermajority thresholds for seven peers: true exactly above 2/3.
#[test]
fn supermajority_for_seven_peers() {
    let graph = Graph::new(1, 0, 7);
    for k in 0..=4usize {
        assert!(!graph.is_supermajority(k), "{} of 7 is no supermajority", k);
    }
    for k in 5..=7usize {
        assert!(graph.is_supermajority(k), "{} of 7 is a supermajority", k);
    }
}
