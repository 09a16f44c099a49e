use vstd::prelude::*;
use vstd::bytes::{spec_u64_to_le_bytes, spec_u64_from_le_bytes, lemma_auto_spec_u64_to_from_le_bytes};

use crate::common;
use crate::crypto;

verus! {

/// The mathematical form of an event: the root of a peer's chain, or a
/// later event holding transactions and two parent hashes.
pub enum EventModel {
    Initial { timestamp: u64, peer: u64 },
    Default {
        timestamp: u64,
        transactions: Seq<u8>,
        self_parent: Seq<u8>,
        other_parent: Seq<u8>,
    },
}

/// The root event of a peer's chain.
#[derive(Clone)]
pub struct Initial {
    pub timestamp: u64,
    pub peer: u64,
}

/// Every event after the root: it carries transactions and references
/// the creator's previous event and another peer's event by hash.
#[derive(Clone)]
pub struct Default {
    pub timestamp: u64,
    pub transactions: Vec<u8>,
    pub self_parent: common::Hash,
    pub other_parent: common::Hash,
}

/// An event of the gossip graph.
#[derive(Clone)]
pub enum Event {
    Initial(Initial),
    Default(Default),
}

impl View for Event {
    type V = EventModel;

    open spec fn view(&self) -> EventModel {
        match self {
            Event::Initial(ev) => EventModel::Initial { timestamp: ev.timestamp, peer: ev.peer },
            Event::Default(ev) => EventModel::Default {
                timestamp: ev.timestamp,
                transactions: ev.transactions@,
                self_parent: ev.self_parent@,
                other_parent: ev.other_parent@,
            },
        }
    }
}

/// A well-formed event has 32-byte parent hashes and a transaction
/// payload whose length fits the 64-bit length field of the encoding.
pub open spec fn event_wf(e: EventModel) -> bool {
    match e {
        EventModel::Initial { .. } => true,
        EventModel::Default { transactions, self_parent, other_parent, .. } => {
            &&& self_parent.len() == 32
            &&& other_parent.len() == 32
            &&& transactions.len() <= u64::MAX
        },
    }
}

/// The timestamp recorded in an event.
pub open spec fn model_timestamp(e: EventModel) -> u64 {
    match e {
        EventModel::Initial { timestamp, .. } => timestamp,
        EventModel::Default { timestamp, .. } => timestamp,
    }
}

/// The canonical binary form of an event: a variant byte, then the
/// little-endian fields; a Default event also carries its transaction
/// bytes framed by a 64-bit length, then the two parent hashes.
pub open spec fn encode(e: EventModel) -> Seq<u8> {
    match e {
        EventModel::Initial { timestamp, peer } => seq![0u8] + spec_u64_to_le_bytes(timestamp)
            + spec_u64_to_le_bytes(peer),
        EventModel::Default { timestamp, transactions, self_parent, other_parent } => seq![1u8]
            + spec_u64_to_le_bytes(timestamp) + spec_u64_to_le_bytes(transactions.len() as u64)
            + transactions + self_parent + other_parent,
    }
}

/// The SHA-256 digest of an event's canonical binary form, which serves
/// as the event's identity.
pub open spec fn event_hash(e: EventModel) -> Seq<u8> {
    crypto::sha256_of(encode(e))
}

/// Decodes one event from the front of a byte sequence, yielding the
/// event and the number of bytes consumed; malformed input (truncated
/// fields or an unknown variant byte) yields nothing.
pub open spec fn decode_event(s: Seq<u8>) -> Option<(EventModel, int)> {
    if s.len() < 1 {
        None
    } else if s[0] == 0 {
        if s.len() >= 17 {
            Some(
                (
                    EventModel::Initial {
                        timestamp: spec_u64_from_le_bytes(s.subrange(1, 9)),
                        peer: spec_u64_from_le_bytes(s.subrange(9, 17)),
                    },
                    17,
                ),
            )
        } else {
            None
        }
    } else if s[0] == 1 {
        if s.len() < 17 {
            None
        } else {
            let tx_len = spec_u64_from_le_bytes(s.subrange(9, 17)) as int;
            if s.len() >= 81 + tx_len {
                Some(
                    (
                        EventModel::Default {
                            timestamp: spec_u64_from_le_bytes(s.subrange(1, 9)),
                            transactions: s.subrange(17, 17 + tx_len),
                            self_parent: s.subrange(17 + tx_len, 49 + tx_len),
                            other_parent: s.subrange(49 + tx_len, 81 + tx_len),
                        },
                        81 + tx_len,
                    ),
                )
            } else {
                None
            }
        }
    } else {
        None
    }
}

/// Decodes a whole byte sequence as a back-to-back stream of events;
/// the stream is rejected outright if any event is malformed.
pub open spec fn decode_stream(s: Seq<u8>) -> Option<Seq<EventModel>>
    decreases s.len(),
{
    if s.len() == 0 {
        Some(Seq::<EventModel>::empty())
    } else {
        match decode_event(s) {
            None => None,
            Some((e, n)) => {
                if 1 <= n <= s.len() {
                    match decode_stream(s.skip(n)) {
                        None => None,
                        Some(rest) => Some(seq![e] + rest),
                    }
                } else {
                    None
                }
            },
        }
    }
}

/// The concatenation of the canonical binary forms of a sequence of
/// events, the payload format of gossip.
pub open spec fn encode_all(events: Seq<EventModel>) -> Seq<u8>
    decreases events.len(),
{
    if events.len() == 0 {
        Seq::<u8>::empty()
    } else {
        encode(events[0]) + encode_all(events.skip(1))
    }
}

/// The models of a sequence of events.
pub open spec fn views_of(events: Seq<Event>) -> Seq<EventModel> {
    events.map(|i: int, e: Event| e@)
}

impl Event {
    /// A copy of the event with the same model.
    pub fn duplicate(&self) -> (r: Event)
        ensures
            r@ == self@,
    {
        match self {
            Event::Initial(ev) => Event::Initial(
                Initial { timestamp: ev.timestamp, peer: ev.peer },
            ),
            Event::Default(ev) => Event::Default(
                Default {
                    timestamp: ev.timestamp,
                    transactions: common::clone_bytes(&ev.transactions),
                    self_parent: common::clone_bytes(&ev.self_parent),
                    other_parent: common::clone_bytes(&ev.other_parent),
                },
            ),
        }
    }
}

impl Initial {
    /// Builds the root event of `peer`'s chain at `timestamp`.
    pub fn new(peer: u64, timestamp: u64) -> (r: Initial)
        ensures
            r.peer == peer,
            r.timestamp == timestamp,
    {
        Initial { timestamp, peer }
    }
}

impl Default {
    /// Builds an event holding `transactions` that references the
    /// creator's previous event and another peer's event by hash.
    pub fn new(
        timestamp: u64,
        transactions: Vec<u8>,
        self_parent: common::Hash,
        other_parent: common::Hash,
    ) -> (r: Default)
        ensures
            r.timestamp == timestamp,
            r.transactions@ == transactions@,
            r.self_parent@ == self_parent@,
            r.other_parent@ == other_parent@,
    {
        Default { timestamp, transactions, self_parent, other_parent }
    }
}

impl Event {
    /// The variant byte that opens an event's canonical binary form.
    pub fn variant_id(&self) -> (r: u8)
        ensures
            r == (match self@ {
                EventModel::Initial { .. } => 0u8,
                EventModel::Default { .. } => 1u8,
            }),
    {
        match self {
            Event::Initial(_) => 0,
            Event::Default(_) => 1,
        }
    }

    /// The timestamp recorded in the event.
    pub fn timestamp(&self) -> (r: u64)
        ensures
            r == model_timestamp(self@),
    {
        match self {
            Event::Initial(ev) => ev.timestamp,
            Event::Default(ev) => ev.timestamp,
        }
    }

    /// Whether the event is well formed: parent hashes are 32 bytes.
    pub fn is_wf(&self) -> (r: bool)
        ensures
            r == event_wf(self@),
    {
        match self {
            Event::Initial(_) => true,
            Event::Default(ev) => {
                let tx_len = ev.transactions.len();
                proof {
                    assert(tx_len <= usize::MAX);
                    assert(ev.transactions@.len() <= u64::MAX);
                }
                ev.self_parent.len() == 32 && ev.other_parent.len() == 32
            },
        }
    }

    /// The canonical binary form of the event.
    pub fn as_bytes(&self) -> (r: Vec<u8>)
        ensures
            r@ == encode(self@),
    {
        proof {
            lemma_auto_spec_u64_to_from_le_bytes();
        }
        let mut buffer: Vec<u8> = Vec::new();
        match self {
            Event::Initial(ev) => {
                buffer.push(0u8);
                let ts = vstd::bytes::u64_to_le_bytes(ev.timestamp);
                common::push_bytes(&mut buffer, &ts);
                let peer = vstd::bytes::u64_to_le_bytes(ev.peer);
                common::push_bytes(&mut buffer, &peer);
                proof {
                    assert(buffer@ =~= encode(self@));
                }
            },
            Event::Default(ev) => {
                buffer.push(1u8);
                let ts = vstd::bytes::u64_to_le_bytes(ev.timestamp);
                common::push_bytes(&mut buffer, &ts);
                let tx_len = vstd::bytes::u64_to_le_bytes(ev.transactions.len() as u64);
                common::push_bytes(&mut buffer, &tx_len);
                common::push_bytes(&mut buffer, &ev.transactions);
                common::push_bytes(&mut buffer, &ev.self_parent);
                common::push_bytes(&mut buffer, &ev.other_parent);
                proof {
                    assert(buffer@ =~= encode(self@));
                }
            },
        }
        buffer
    }

    /// The SHA-256 hash of the event's canonical binary form: the
    /// event's identity in the graph.
    pub fn hash(&self) -> (r: common::Hash)
        ensures
            r@ == event_hash(self@),
            r@.len() == 32,
    {
        let bytes = self.as_bytes();
        crypto::sha256(&bytes)
    }

    /// Decodes one event from the front of `bytes`, returning it with
    /// the number of bytes consumed, or nothing on malformed input.
    pub fn from_bytes(bytes: &[u8]) -> (r: Option<(Event, usize)>)
        ensures
            (match r {
                Some((e, n)) => {
                    &&& decode_event(bytes@) is Some
                    &&& e@ == decode_event(bytes@).unwrap().0
                    &&& n as int == decode_event(bytes@).unwrap().1
                    &&& event_wf(e@)
                    &&& 17 <= n <= bytes@.len()
                },
                None => decode_event(bytes@) is None,
            }),
    {
        proof {
            lemma_auto_spec_u64_to_from_le_bytes();
        }
        let len = bytes.len();
        if len < 1 {
            return None;
        }
        let variant = *vstd::slice::slice_index_get(bytes, 0);
        if variant == 0 {
            if len < 17 {
                return None;
            }
            let timestamp = vstd::bytes::u64_from_le_bytes(vstd::slice::slice_subrange(bytes, 1, 9));
            let peer = vstd::bytes::u64_from_le_bytes(vstd::slice::slice_subrange(bytes, 9, 17));
            Some((Event::Initial(Initial { timestamp, peer }), 17))
        } else if variant == 1 {
            if len < 17 {
                return None;
            }
            let timestamp = vstd::bytes::u64_from_le_bytes(vstd::slice::slice_subrange(bytes, 1, 9));
            let tx_len = vstd::bytes::u64_from_le_bytes(vstd::slice::slice_subrange(bytes, 9, 17));
            if len < 81 {
                return None;
            }
            if tx_len > (len - 81) as u64 {
                return None;
            }
            let tx_len_usize = tx_len as usize;
            let tx_end = 17 + tx_len_usize;
            let transactions = vstd::slice::slice_to_vec(
                vstd::slice::slice_subrange(bytes, 17, tx_end),
            );
            let self_parent = vstd::slice::slice_to_vec(
                vstd::slice::slice_subrange(bytes, tx_end, tx_end + 32),
            );
            let other_parent = vstd::slice::slice_to_vec(
                vstd::slice::slice_subrange(bytes, tx_end + 32, tx_end + 64),
            );
            Some(
                (
                    Event::Default(Default { timestamp, transactions, self_parent, other_parent }),
                    81 + tx_len_usize,
                ),
            )
        } else {
            None
        }
    }

    /// Decodes a whole slice as a back-to-back stream of events, or
    /// nothing if any event in it is malformed.
    pub fn events_from_bytes(data: &[u8]) -> (r: Option<Vec<Event>>)
        ensures
            (match r {
                Some(events) => {
                    &&& decode_stream(data@) is Some
                    &&& views_of(events@) == decode_stream(data@).unwrap()
                    &&& forall|i: int|
                        0 <= i < events@.len() ==> event_wf(#[trigger] events@[i]@)
                },
                None => decode_stream(data@) is None,
            }),
    {
        let len = data.len();
        let mut events: Vec<Event> = Vec::new();
        let mut pos: usize = 0;
        proof {
            assert(data@.skip(0) =~= data@);
        }
        loop
            invariant
                0 <= pos <= len,
                len == data@.len(),
                forall|i: int| 0 <= i < events@.len() ==> event_wf(#[trigger] events@[i]@),
                (match decode_stream(data@.skip(pos as int)) {
                    Some(rest) => decode_stream(data@) == Some(views_of(events@) + rest),
                    None => decode_stream(data@) is None,
                }),
            decreases len - pos,
        {
            if pos >= len {
                proof {
                    assert(data@.skip(pos as int).len() == 0);
                    assert(views_of(events@) + Seq::<EventModel>::empty() =~= views_of(events@));
                }
                return Some(events);
            }
            let tail = vstd::slice::slice_subrange(data, pos, len);
            match Event::from_bytes(tail) {
                None => {
                    return None;
                },
                Some((event, consumed)) => {
                    let ghost prev_events = events@;
                    let ghost tail_seq = data@.skip(pos as int);
                    events.push(event);
                    proof {
                        assert(tail_seq.skip(consumed as int) =~= data@.skip(
                            pos + consumed as int,
                        ));
                        assert(views_of(events@) =~= views_of(prev_events) + seq![event@]);
                        match decode_stream(data@.skip(pos + consumed as int)) {
                            Some(rest) => {
                                assert(decode_stream(tail_seq) == Some(seq![event@] + rest));
                                assert(views_of(prev_events) + (seq![event@] + rest) =~= views_of(
                                    events@,
                                ) + rest);
                            },
                            None => {
                                assert(decode_stream(tail_seq) is None);
                            },
                        }
                    }
                    pos = pos + consumed;
                },
            }
        }
    }
}

/// Decoding starts over from the canonical binary form: decoding the
/// encoding of a well-formed event, with anything appended after it,
/// yields the event back and consumes exactly the encoding.
pub proof fn lemma_decode_encode(e: EventModel, rest: Seq<u8>)
    requires
        event_wf(e),
    ensures
        decode_event(encode(e) + rest) == Some((e, encode(e).len() as int)),
{
    lemma_auto_spec_u64_to_from_le_bytes();
    let s = encode(e) + rest;
    match e {
        EventModel::Initial { timestamp, peer } => {
            assert(s[0] == 0);
            assert(s.subrange(1, 9) =~= spec_u64_to_le_bytes(timestamp));
            assert(s.subrange(9, 17) =~= spec_u64_to_le_bytes(peer));
            assert(encode(e).len() == 17);
        },
        EventModel::Default { timestamp, transactions, self_parent, other_parent } => {
            let tx_len = transactions.len() as int;
            assert(s[0] == 1);
            assert(s.subrange(1, 9) =~= spec_u64_to_le_bytes(timestamp));
            assert(s.subrange(9, 17) =~= spec_u64_to_le_bytes(transactions.len() as u64));
            assert(spec_u64_from_le_bytes(s.subrange(9, 17)) == transactions.len() as u64);
            assert(encode(e).len() == 81 + tx_len);
            assert(s.len() >= 81 + tx_len);
            assert(s.subrange(17, 17 + tx_len) =~= transactions);
            assert(s.subrange(17 + tx_len, 49 + tx_len) =~= self_parent);
            assert(s.subrange(49 + tx_len, 81 + tx_len) =~= other_parent);
        },
    }
}

/// Codec round trip for streams: decoding the concatenation of the
/// encodings of well-formed events yields exactly those events.
pub proof fn lemma_decode_stream_concat(events: Seq<EventModel>)
    requires
        forall|i: int| 0 <= i < events.len() ==> event_wf(#[trigger] events[i]),
    ensures
        decode_stream(encode_all(events)) == Some(events),
    decreases events.len(),
{
    if events.len() == 0 {
        assert(encode_all(events).len() == 0);
        assert(decode_stream(encode_all(events)) == Some(Seq::<EventModel>::empty()));
        assert(events =~= Seq::<EventModel>::empty());
    } else {
        let e = events[0];
        let tail = events.skip(1);
        let s = encode_all(events);
        lemma_encode_len(e);
        lemma_decode_encode(e, encode_all(tail));
        assert(s == encode(e) + encode_all(tail));
        let n = encode(e).len() as int;
        assert(s.skip(n) =~= encode_all(tail));
        lemma_decode_stream_concat(tail);
        assert(decode_stream(s) == Some(seq![e] + tail));
        assert(seq![e] + tail =~= events);
    }
}

/// The canonical binary form of an event is at least 17 bytes.
pub proof fn lemma_encode_len(e: EventModel)
    ensures
        encode(e).len() >= 17,
        event_wf(e) ==> encode(e).len() == (match e {
            EventModel::Initial { .. } => 17,
            EventModel::Default { transactions, .. } => 81 + transactions.len(),
        }),
{
    lemma_auto_spec_u64_to_from_le_bytes();
}

/// An event's hash is a function of its canonical bytes alone: events
/// that encode alike hash alike.
pub proof fn lemma_hash_from_canonical_bytes(e1: EventModel, e2: EventModel)
    requires
        encode(e1) == encode(e2),
    ensures
        event_hash(e1) == event_hash(e2),
{
}

} // verus!
