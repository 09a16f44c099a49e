use vstd::prelude::*;

use crate::common;
use crate::event::{self, Event, EventModel};

verus! {

/// The mathematical form of a graph: the fixed peer count and the
/// stored (hash, event) entries in insertion order.
pub struct GraphModel {
    pub total_peers: nat,
    pub entries: Seq<(Seq<u8>, EventModel)>,
}

/// First-match lookup of a key in a sequence of entries.
pub open spec fn lookup_entries(entries: Seq<(Seq<u8>, EventModel)>, h: Seq<u8>) -> Option<
    EventModel,
>
    decreases entries.len(),
{
    if entries.len() == 0 {
        None
    } else if entries[0].0 == h {
        Some(entries[0].1)
    } else {
        lookup_entries(entries.skip(1), h)
    }
}

impl GraphModel {
    /// The event stored under a hash, if any.
    pub open spec fn lookup(self, h: Seq<u8>) -> Option<EventModel> {
        lookup_entries(self.entries, h)
    }

    /// Whether an event is stored under the hash.
    pub open spec fn contains(self, h: Seq<u8>) -> bool {
        self.lookup(h) is Some
    }

    /// The recursion budget for walks over the graph: the number of
    /// stored events bounds every simple parent path.
    pub open spec fn fuel(self) -> nat {
        self.entries.len()
    }

    /// Whether `count` is strictly more than two thirds of the peers.
    pub open spec fn supermajority(self, count: int) -> bool {
        3 * count > 2 * self.total_peers
    }

    /// Well-formedness of the stored entries: keys are distinct, and
    /// each entry stores a well-formed event under its own content
    /// hash.
    pub open spec fn inv(self) -> bool {
        &&& forall|i: int, j: int|
            0 <= i < self.entries.len() && 0 <= j < self.entries.len() && i != j
                ==> (#[trigger] self.entries[i]).0 != (#[trigger] self.entries[j]).0
        &&& forall|i: int|
            0 <= i < self.entries.len() ==> {
                &&& (#[trigger] self.entries[i]).0 == event::event_hash(self.entries[i].1)
                &&& self.entries[i].0.len() == 32
                &&& event::event_wf(self.entries[i].1)
            }
    }
}

/// The peer that created the event stored under `h`: the `peer` field
/// of the Initial event that the self-parent chain reaches. The walk is
/// budgeted by `fuel`; a chain that leaves the graph or does not ground
/// within the budget has no creator.
pub open spec fn chain_creator_within(g: GraphModel, h: Seq<u8>, fuel: nat) -> Option<u64>
    decreases fuel,
{
    match g.lookup(h) {
        None => None,
        Some(EventModel::Initial { peer, .. }) => Some(peer),
        Some(EventModel::Default { self_parent, .. }) => if fuel == 0 {
            None
        } else {
            chain_creator_within(g, self_parent, (fuel - 1) as nat)
        },
    }
}

/// The creator of the event stored under `h`, when its self-parent
/// chain grounds in an Initial event within the graph.
pub open spec fn creator_opt(g: GraphModel, h: Seq<u8>) -> Option<u64> {
    chain_creator_within(g, h, g.fuel())
}

/// Whether no stored Default event references `h` as its self-parent:
/// the event under `h` is the tip of its creator's chain.
pub open spec fn is_tip(g: GraphModel, h: Seq<u8>) -> bool {
    forall|j: int|
        0 <= j < g.entries.len() ==> (match (#[trigger] g.entries[j]).1 {
            EventModel::Default { self_parent, .. } => self_parent != h,
            EventModel::Initial { .. } => true,
        })
}

/// The first stored index holding an event by `peer` that is the tip of
/// its chain, scanning from position `i`.
pub open spec fn latest_index_from(g: GraphModel, peer: u64, i: int) -> Option<int>
    decreases g.entries.len() - i,
{
    if i < 0 || i >= g.entries.len() {
        None
    } else if creator_opt(g, g.entries[i].0) == Some(peer) && is_tip(g, g.entries[i].0) {
        Some(i)
    } else {
        latest_index_from(g, peer, i + 1)
    }
}

/// The entries extended by one event keyed by its hash; storing an
/// already-present hash is a no-op.
pub open spec fn insert_model(g: GraphModel, e: EventModel) -> GraphModel {
    if g.contains(event::event_hash(e)) {
        g
    } else {
        GraphModel { total_peers: g.total_peers, entries: g.entries.push((event::event_hash(e), e)) }
    }
}

/// The graph after inserting each event of a sequence in turn.
pub open spec fn insert_all_model(g: GraphModel, events: Seq<EventModel>) -> GraphModel
    decreases events.len(),
{
    if events.len() == 0 {
        g
    } else {
        insert_all_model(insert_model(g, events[0]), events.skip(1))
    }
}

/// The concatenated canonical binary forms of the stored events, in
/// storage order: the gossip payload of the graph.
pub open spec fn events_bytes_spec(g: GraphModel) -> Seq<u8> {
    event::encode_all(g.entries.map(|i: int, p: (Seq<u8>, EventModel)| p.1))
}

/// A peer's append-only DAG of events, keyed by content hash, plus the
/// fixed number of participating peers that sets the supermajority
/// threshold.
pub struct Graph {
    pub total_peers: usize,
    pub events: Vec<(common::Hash, Event)>,
}

impl View for Graph {
    type V = GraphModel;

    open spec fn view(&self) -> GraphModel {
        GraphModel {
            total_peers: self.total_peers as nat,
            entries: self.events@.map(|i: int, p: (common::Hash, Event)| (p.0@, p.1@)),
        }
    }
}

impl Graph {
    /// Builds a graph over `total_peers` peers holding the single
    /// Initial event of peer `id` at `timestamp`.
    pub fn new(id: u64, timestamp: u64, total_peers: usize) -> (r: Graph)
        ensures
            r@.inv(),
            r@.total_peers == total_peers,
            r@.entries.len() == 1,
            r@.entries[0].1 == (EventModel::Initial { timestamp, peer: id }),
            r@.entries[0].0 == event::event_hash(EventModel::Initial { timestamp, peer: id }),
    {
        let initial_event = Event::Initial(event::Initial::new(id, timestamp));
        let h = initial_event.hash();
        let mut events: Vec<(common::Hash, Event)> = Vec::new();
        events.push((h, initial_event));
        let r = Graph { total_peers, events };
        proof {
            assert(r@.entries =~= seq![(h@, EventModel::Initial { timestamp, peer: id })]);
        }
        r
    }

    /// The number of events stored in the graph.
    pub fn event_count(&self) -> (r: usize)
        ensures
            r == self@.entries.len(),
    {
        self.events.len()
    }

    /// Whether `count` is strictly more than two thirds of the total
    /// number of peers.
    pub fn is_supermajority(&self, count: usize) -> (r: bool)
        ensures
            r == self@.supermajority(count as int),
    {
        3 * (count as u128) > 2 * (self.total_peers as u128)
    }

    /// The event stored under `event_hash`, if any.
    pub fn get_event_opt(&self, event_hash: &common::Hash) -> (r: Option<&Event>)
        ensures
            (match r {
                Some(ev) => self@.lookup(event_hash@) == Some(ev@),
                None => self@.lookup(event_hash@) is None,
            }),
    {
        let ghost g = self@;
        let n = self.events.len();
        let mut i: usize = 0;
        proof {
            assert(g.entries.skip(0) =~= g.entries);
        }
        loop
            invariant
                0 <= i <= n,
                n == self.events@.len(),
                g == self@,
                g.entries.len() == n,
                lookup_entries(g.entries, event_hash@) == lookup_entries(
                    g.entries.skip(i as int),
                    event_hash@,
                ),
            decreases n - i,
        {
            if i >= n {
                assert(g.entries.skip(i as int).len() == 0);
                return None;
            }
            assert(g.entries.skip(i as int)[0] == g.entries[i as int]);
            if common::bytes_eq(&self.events[i].0, event_hash) {
                return Some(&self.events[i].1);
            }
            proof {
                assert(g.entries.skip(i as int).skip(1) =~= g.entries.skip(i + 1));
            }
            i += 1;
        }
    }

    /// The event stored under `event_hash`, which the caller must know
    /// to be present.
    pub fn get_event(&self, event_hash: &common::Hash) -> (r: &Event)
        requires
            self@.contains(event_hash@),
        ensures
            self@.lookup(event_hash@) == Some(r@),
    {
        match self.get_event_opt(event_hash) {
            Some(ev) => ev,
            None => unreached(),
        }
    }

    /// Stores `event` under its content hash; a hash already present
    /// is left untouched.
    pub fn insert_event(&mut self, event: Event)
        requires
            old(self)@.inv(),
            event::event_wf(event@),
        ensures
            final(self)@ == insert_model(old(self)@, event@),
            final(self)@.inv(),
            final(self).total_peers == old(self).total_peers,
    {
        let h = event.hash();
        match self.get_event_opt(&h) {
            Some(_) => {
                proof {
                    assert(insert_model(old(self)@, event@) == old(self)@);
                }
            },
            None => {
                let ghost old_entries = self@.entries;
                self.events.push((h, event));
                proof {
                    let g = old(self)@;
                    assert(self@.entries =~= old_entries.push((h@, event@)));
                    assert(final(self)@ == insert_model(g, event@));
                    lemma_absent_key_everywhere(g, h@);
                    assert forall|i: int, j: int|
                        0 <= i < self@.entries.len() && 0 <= j < self@.entries.len() && i != j
                            implies (#[trigger] self@.entries[i]).0 != (#[trigger] self@.entries[j]).0 by {
                        if i < g.entries.len() && j < g.entries.len() {
                            assert(g.entries[i].0 != g.entries[j].0);
                        }
                    }
                }
            },
        }
    }

    /// Inserts each event of `events` in turn.
    pub fn update(&mut self, events: Vec<Event>)
        requires
            old(self)@.inv(),
            forall|i: int| 0 <= i < events@.len() ==> event::event_wf((#[trigger] events@[i])@),
        ensures
            final(self)@ == insert_all_model(old(self)@, event::views_of(events@)),
            final(self)@.inv(),
            final(self).total_peers == old(self).total_peers,
    {
        let ghost models = event::views_of(events@);
        let n = events.len();
        let mut i: usize = 0;
        proof {
            assert(models.skip(0) =~= models);
        }
        while i < n
            invariant
                0 <= i <= n,
                n == events@.len(),
                self@.inv(),
                self.total_peers == old(self).total_peers,
                models == event::views_of(events@),
                forall|k: int| 0 <= k < events@.len() ==> event::event_wf((#[trigger] events@[k])@),
                insert_all_model(old(self)@, models) == insert_all_model(
                    self@,
                    models.skip(i as int),
                ),
            decreases n - i,
        {
            let ev = events[i].duplicate();
            proof {
                assert(event::event_wf(events@[i as int]@));
                assert(ev@ == models[i as int]);
                assert(models.skip(i as int)[0] == models[i as int]);
                assert(models.skip(i as int).skip(1) =~= models.skip(i + 1));
            }
            self.insert_event(ev);
            i += 1;
        }
        proof {
            assert(models.skip(n as int).len() == 0);
        }
    }

    /// The concatenated canonical binary forms of all stored events:
    /// the gossip payload of this graph.
    pub fn events_as_bytes(&self) -> (r: Vec<u8>)
        ensures
            r@ == events_bytes_spec(self@),
    {
        let ghost g = self@;
        let ghost models = g.entries.map(|i: int, p: (Seq<u8>, EventModel)| p.1);
        let n = self.events.len();
        let mut buffer: Vec<u8> = Vec::new();
        let mut i: usize = 0;
        proof {
            assert(event::encode_all(models.take(0)) =~= Seq::<u8>::empty());
            assert(buffer@ =~= Seq::<u8>::empty());
        }
        while i < n
            invariant
                0 <= i <= n,
                n == self.events@.len(),
                g == self@,
                models == g.entries.map(|k: int, p: (Seq<u8>, EventModel)| p.1),
                models.len() == n,
                buffer@ == event::encode_all(models.take(i as int)),
            decreases n - i,
        {
            let bytes = self.events[i].1.as_bytes();
            common::push_bytes(&mut buffer, &bytes);
            proof {
                assert(models[i as int] == self.events@[i as int].1@);
                lemma_encode_all_snoc(models, i as int);
            }
            i += 1;
        }
        proof {
            assert(models.take(n as int) =~= models);
        }
        buffer
    }

    /// The creator of the event stored under `event_hash`, if its
    /// self-parent chain grounds in an Initial event of the graph.
    pub fn creator_checked(&self, event_hash: &common::Hash) -> (r: Option<u64>)
        ensures
            r == creator_opt(self@, event_hash@),
    {
        let ghost g = self@;
        let mut current: &common::Hash = event_hash;
        let mut fuel = self.events.len();
        loop
            invariant
                g == self@,
                fuel <= g.fuel(),
                chain_creator_within(g, event_hash@, g.fuel()) == chain_creator_within(
                    g,
                    current@,
                    fuel as nat,
                ),
            decreases fuel,
        {
            match self.get_event_opt(current) {
                None => {
                    return None;
                },
                Some(Event::Initial(ev)) => {
                    return Some(ev.peer);
                },
                Some(Event::Default(ev)) => {
                    if fuel == 0 {
                        return None;
                    }
                    current = &ev.self_parent;
                    fuel = fuel - 1;
                },
            }
        }
    }

    /// The creator of the event stored under `event_hash`, which the
    /// caller must know to have a grounded self-parent chain.
    pub fn creator(&self, event_hash: &common::Hash) -> (r: u64)
        requires
            creator_opt(self@, event_hash@) is Some,
        ensures
            Some(r) == creator_opt(self@, event_hash@),
    {
        match self.creator_checked(event_hash) {
            Some(peer) => peer,
            None => unreached(),
        }
    }

    /// The tip of `peer`'s chain: the first stored event created by
    /// `peer` that no stored event references as its self-parent. When
    /// the peer has forked there may be several tips; the first stored
    /// one is returned, and callers treat a fork as a protocol fault.
    pub fn latest_event(&self, peer: u64) -> (r: Option<&Event>)
        ensures
            (match r {
                Some(ev) => {
                    &&& latest_index_from(self@, peer, 0) is Some
                    &&& ev@ == self@.entries[latest_index_from(self@, peer, 0).unwrap()].1
                },
                None => latest_index_from(self@, peer, 0) is None,
            }),
    {
        let ghost g = self@;
        let n = self.events.len();
        let mut i: usize = 0;
        loop
            invariant
                0 <= i <= n,
                n == self.events@.len(),
                g == self@,
                latest_index_from(g, peer, 0) == latest_index_from(g, peer, i as int),
            decreases n - i,
        {
            if i >= n {
                return None;
            }
            let matches_peer = match self.creator_checked(&self.events[i].0) {
                Some(p) => p == peer,
                None => false,
            };
            if matches_peer && self.is_tip_at(i) {
                return Some(&self.events[i].1);
            }
            i += 1;
        }
    }

    /// Whether no stored Default event references the hash stored at
    /// index `i` as its self-parent.
    fn is_tip_at(&self, i: usize) -> (r: bool)
        requires
            i < self@.entries.len(),
        ensures
            r == is_tip(self@, self@.entries[i as int].0),
    {
        let ghost g = self@;
        let ghost h = g.entries[i as int].0;
        let n = self.events.len();
        let mut j: usize = 0;
        while j < n
            invariant
                0 <= j <= n,
                n == self.events@.len(),
                g == self@,
                i < n,
                h == g.entries[i as int].0,
                forall|k: int|
                    0 <= k < j ==> (match (#[trigger] g.entries[k]).1 {
                        EventModel::Default { self_parent, .. } => self_parent != h,
                        EventModel::Initial { .. } => true,
                    }),
            decreases n - j,
        {
            match &self.events[j].1 {
                Event::Default(ev) => {
                    if common::bytes_eq(&ev.self_parent, &self.events[i].0) {
                        proof {
                            assert(g.entries[j as int].1 == self.events@[j as int].1@);
                            assert(g.entries[j as int].1 matches EventModel::Default {
                                self_parent,
                                ..
                            } && self_parent == h);
                        }
                        return false;
                    }
                },
                Event::Initial(_) => {},
            }
            j += 1;
        }
        true
    }
}

/// A stored hash has an index: first-match lookup succeeds exactly on
/// the keys that appear among the entries.
pub proof fn lemma_contains_index(g: GraphModel, h: Seq<u8>)
    requires
        g.contains(h),
    ensures
        exists|i: int|
            0 <= i < g.entries.len() && (#[trigger] g.entries[i]).0 == h && g.entries[i].1
                == g.lookup(h).unwrap(),
{
    lemma_contains_index_entries(g.entries, h);
}

proof fn lemma_contains_index_entries(entries: Seq<(Seq<u8>, EventModel)>, h: Seq<u8>)
    requires
        lookup_entries(entries, h) is Some,
    ensures
        exists|i: int|
            0 <= i < entries.len() && (#[trigger] entries[i]).0 == h && entries[i].1
                == lookup_entries(entries, h).unwrap(),
    decreases entries.len(),
{
    if entries[0].0 == h {
        assert(entries[0].0 == h && entries[0].1 == lookup_entries(entries, h).unwrap());
    } else {
        lemma_contains_index_entries(entries.skip(1), h);
        let j = choose|j: int|
            0 <= j < entries.skip(1).len() && (#[trigger] entries.skip(1)[j]).0 == h
                && entries.skip(1)[j].1 == lookup_entries(entries.skip(1), h).unwrap();
        assert(entries[j + 1] == entries.skip(1)[j]);
    }
}

/// Under distinct keys, lookup at a stored key finds that entry.
pub proof fn lemma_index_lookup(g: GraphModel, i: int)
    requires
        g.inv(),
        0 <= i < g.entries.len(),
    ensures
        g.lookup(g.entries[i].0) == Some(g.entries[i].1),
{
    lemma_index_lookup_entries(g.entries, i);
}

proof fn lemma_index_lookup_entries(entries: Seq<(Seq<u8>, EventModel)>, i: int)
    requires
        0 <= i < entries.len(),
        forall|p: int, q: int|
            0 <= p < entries.len() && 0 <= q < entries.len() && p != q ==> (#[trigger] entries[p]).0
                != (#[trigger] entries[q]).0,
    ensures
        lookup_entries(entries, entries[i].0) == Some(entries[i].1),
    decreases entries.len(),
{
    if i == 0 {
    } else {
        assert(entries[0].0 != entries[i].0);
        assert forall|p: int, q: int|
            0 <= p < entries.skip(1).len() && 0 <= q < entries.skip(1).len() && p != q implies (
        #[trigger] entries.skip(1)[p]).0 != (#[trigger] entries.skip(1)[q]).0 by {
            assert(entries.skip(1)[p] == entries[p + 1]);
            assert(entries.skip(1)[q] == entries[q + 1]);
        }
        assert(entries.skip(1)[i - 1] == entries[i]);
        lemma_index_lookup_entries(entries.skip(1), i - 1);
    }
}

/// A key that first-match lookup does not find appears in no entry.
proof fn lemma_absent_key_everywhere(g: GraphModel, h: Seq<u8>)
    requires
        !g.contains(h),
    ensures
        forall|i: int| 0 <= i < g.entries.len() ==> (#[trigger] g.entries[i]).0 != h,
{
    lemma_absent_key_everywhere_entries(g.entries, h);
}

/// A key that first-match lookup does not find appears in no entry.
proof fn lemma_absent_key_everywhere_entries(entries: Seq<(Seq<u8>, EventModel)>, h: Seq<u8>)
    requires
        lookup_entries(entries, h) is None,
    ensures
        forall|i: int| 0 <= i < entries.len() ==> (#[trigger] entries[i]).0 != h,
    decreases entries.len(),
{
    if entries.len() > 0 {
        lemma_absent_key_everywhere_entries(entries.skip(1), h);
        assert forall|i: int| 0 <= i < entries.len() implies (#[trigger] entries[i]).0 != h by {
            if i > 0 {
                assert(entries.skip(1)[i - 1] == entries[i]);
            }
        }
    }
}

/// Encoding one more event appends its canonical bytes.
proof fn lemma_encode_all_snoc(models: Seq<EventModel>, i: int)
    requires
        0 <= i < models.len(),
    ensures
        event::encode_all(models.take(i + 1)) == event::encode_all(models.take(i)) + event::encode(
            models[i],
        ),
    decreases i,
{
    if i == 0 {
        assert(models.take(1) =~= seq![models[0]]);
        assert(models.take(1)[0] == models[0]);
        assert(models.take(1).skip(1) =~= Seq::<EventModel>::empty());
        assert(event::encode_all(Seq::<EventModel>::empty()) =~= Seq::<u8>::empty());
        assert(event::encode_all(models.take(0)) =~= Seq::<u8>::empty());
        assert(event::encode_all(models.take(1)) =~= event::encode(models.take(1)[0])
            + event::encode_all(models.take(1).skip(1)));
        assert(event::encode_all(models.take(1)) =~= event::encode(models[0]));
    } else {
        lemma_encode_all_snoc(models.skip(1), i - 1);
        assert(models.take(i).skip(1) =~= models.skip(1).take(i - 1));
        assert(models.take(i + 1).skip(1) =~= models.skip(1).take(i));
        assert(models.skip(1)[i - 1] == models[i]);
        assert(event::encode_all(models.take(i + 1)) == event::encode(models[0])
            + event::encode_all(models.skip(1).take(i)));
        assert(event::encode_all(models.take(i)) == event::encode(models[0]) + event::encode_all(
            models.skip(1).take(i - 1),
        ));
        assert(event::encode(models[0]) + (event::encode_all(models.skip(1).take(i - 1))
            + event::encode(models[i])) =~= (event::encode(models[0]) + event::encode_all(
            models.skip(1).take(i - 1),
        )) + event::encode(models[i]));
    }
}

} // verus!
