pub mod agreement;
pub mod ancestry;
pub mod common;
pub mod consensus;
pub mod crypto;
pub mod depth;
pub mod event;
pub mod fame;
pub mod graph;
pub mod json;
pub mod laws;
pub mod rounds;

use vstd::prelude::*;

use vstd::bytes::{spec_u64_from_le_bytes, spec_u64_to_le_bytes, lemma_auto_spec_u64_to_from_le_bytes};

verus! {

/// The faults a peer reports: invalid construction input, and the
/// fatal conditions of the receive protocol.
#[derive(Clone, Copy, Debug, PartialEq, Eq, Structural)]
pub enum HashgraphError {
    /// A key that is not exactly 32 bytes.
    InvalidKeyLength,
    /// 32 bytes that do not decode to an Ed25519 public key.
    InvalidPublicKey,
    /// An incoming payload too short to hold a sender, a signature and
    /// at least one payload byte.
    PayloadTooShort,
    /// A sender id with no registered verifying key.
    UnknownSender,
    /// An Ed25519 signature that fails strict verification.
    InvalidSignature,
    /// A gossip payload that does not decode as a stream of events.
    MalformedPayload,
    /// A chain whose tip cannot be located after the merge.
    MissingChainTip,
}

/// The views of a list of (peer, key) pairs.
pub open spec fn key_views(keys: Seq<(u64, common::Key)>) -> Seq<(u64, Seq<u8>)> {
    keys.map(|i: int, p: (u64, common::Key)| (p.0, p.1@))
}

/// The first problem among a list of public keys: a wrong length, or
/// bytes that are no Ed25519 public key.
pub open spec fn first_key_problem(keys: Seq<(u64, Seq<u8>)>) -> Option<HashgraphError>
    decreases keys.len(),
{
    if keys.len() == 0 {
        None
    } else if keys[0].1.len() != 32 {
        Some(HashgraphError::InvalidKeyLength)
    } else if !crypto::ed25519_key_valid(keys[0].1) {
        Some(HashgraphError::InvalidPublicKey)
    } else {
        first_key_problem(keys.skip(1))
    }
}

/// The first key registered for `peer`, if any.
pub open spec fn verifier_lookup(keys: Seq<(u64, Seq<u8>)>, peer: u64) -> Option<Seq<u8>>
    decreases keys.len(),
{
    if keys.len() == 0 {
        None
    } else if keys[0].0 == peer {
        Some(keys[0].1)
    } else {
        verifier_lookup(keys.skip(1), peer)
    }
}

/// The graph after one receive step: the decoded events are merged,
/// and a new event is appended that references the tips of the local
/// and the sender's chains and carries the pending transactions.
/// Nothing when either tip cannot be located after the merge.
pub open spec fn receive_step(
    g: graph::GraphModel,
    id: u64,
    pending: Seq<u8>,
    sender: u64,
    events: Seq<event::EventModel>,
    timestamp: u64,
) -> Option<graph::GraphModel> {
    let merged = graph::insert_all_model(g, events);
    match (graph::latest_index_from(merged, id, 0), graph::latest_index_from(merged, sender, 0)) {
        (Some(i), Some(j)) => {
            let e = event::EventModel::Default {
                timestamp,
                transactions: pending,
                self_parent: event::event_hash(merged.entries[i].1),
                other_parent: event::event_hash(merged.entries[j].1),
            };
            Some(graph::insert_model(merged, e))
        },
        _ => None,
    }
}

/// A peer of the gossip network: its id, its graph, the transactions
/// buffered for its next event, its Ed25519 signing key, and the
/// verifying keys of all peers, each held as plain bytes.
pub struct Hashgraph {
    pub id: u64,
    pub graph: graph::Graph,
    pub pending_transactions: Vec<u8>,
    pub signer: common::Key,
    pub verifiers: Vec<(u64, common::Key)>,
}

impl Hashgraph {
    /// Well-formedness of a peer: a 32-byte signing key, 32-byte
    /// verifying keys, and a graph with distinct, content-addressed
    /// keys.
    pub open spec fn wf(self) -> bool {
        &&& self.signer@.len() == 32
        &&& self.graph@.inv()
        &&& forall|k: int|
            0 <= k < self.verifiers@.len() ==> (#[trigger] self.verifiers@[k]).1@.len() == 32
    }

    /// Builds a peer: its graph starts with its own Initial event at
    /// `timestamp`, and the peer count is the number of registered
    /// public keys. Keys of a wrong length, and bytes that are no
    /// Ed25519 public key, are rejected.
    pub fn new(
        id: u64,
        timestamp: u64,
        private_key: common::Key,
        public_keys: Vec<(u64, common::Key)>,
    ) -> (r: Result<Hashgraph, HashgraphError>)
        ensures
            (match r {
                Ok(hg) => {
                    &&& private_key@.len() == 32
                    &&& first_key_problem(key_views(public_keys@)) is None
                    &&& hg.wf()
                    &&& hg.id == id
                    &&& hg.signer@ == private_key@
                    &&& key_views(hg.verifiers@) == key_views(public_keys@)
                    &&& hg.pending_transactions@.len() == 0
                    &&& hg.graph@.total_peers == public_keys@.len()
                    &&& hg.graph@.entries.len() == 1
                    &&& hg.graph@.entries[0].1 == (event::EventModel::Initial {
                        timestamp,
                        peer: id,
                    })
                },
                Err(e) => {
                    if private_key@.len() != 32 {
                        e == HashgraphError::InvalidKeyLength
                    } else {
                        Some(e) == first_key_problem(key_views(public_keys@))
                    }
                },
            }),
    {
        let ghost keys = key_views(public_keys@);
        if private_key.len() != 32 {
            return Err(HashgraphError::InvalidKeyLength);
        }
        let n = public_keys.len();
        let mut k: usize = 0;
        proof {
            assert(keys.skip(0) =~= keys);
        }
        while k < n
            invariant
                0 <= k <= n,
                n == public_keys@.len(),
                keys == key_views(public_keys@),
                private_key@.len() == 32,
                first_key_problem(keys) == first_key_problem(keys.skip(k as int)),
                forall|t: int| 0 <= t < k ==> (#[trigger] keys[t]).1.len() == 32,
            decreases n - k,
        {
            proof {
                assert(keys.skip(k as int)[0] == keys[k as int]);
                assert(keys[k as int] == (public_keys@[k as int].0, public_keys@[k as int].1@));
            }
            if public_keys[k].1.len() != 32 {
                proof {
                    assert(keys.skip(k as int).len() > 0);
                    assert(keys.skip(k as int)[0].1.len() != 32);
                }
                return Err(HashgraphError::InvalidKeyLength);
            }
            if !crypto::ed25519_check_key(&public_keys[k].1) {
                proof {
                    assert(keys.skip(k as int).len() > 0);
                    assert(keys.skip(k as int)[0].1.len() == 32);
                    assert(!crypto::ed25519_key_valid(keys.skip(k as int)[0].1));
                }
                return Err(HashgraphError::InvalidPublicKey);
            }
            proof {
                assert(keys.skip(k as int).skip(1) =~= keys.skip(k + 1));
            }
            k += 1;
        }
        proof {
            assert(keys.skip(n as int).len() == 0);
        }
        let total_peers = public_keys.len();
        let hg = Hashgraph {
            id,
            graph: graph::Graph::new(id, timestamp, total_peers),
            pending_transactions: Vec::new(),
            signer: private_key,
            verifiers: public_keys,
        };
        proof {
            assert forall|t: int| 0 <= t < hg.verifiers@.len() implies (#[trigger] hg.verifiers@[t]).1@.len()
                == 32 by {
                assert(keys[t] == (hg.verifiers@[t].0, hg.verifiers@[t].1@));
            }
        }
        Ok(hg)
    }

    /// Buffers transaction bytes verbatim for the next event.
    pub fn append_transaction(&mut self, transaction: &[u8])
        ensures
            final(self).pending_transactions@ == old(self).pending_transactions@ + transaction@,
            final(self).id == old(self).id,
            final(self).graph == old(self).graph,
            final(self).signer == old(self).signer,
            final(self).verifiers == old(self).verifiers,
    {
        common::push_byte_slice(&mut self.pending_transactions, transaction);
    }

    /// Builds a signed gossip payload: the peer's id, an Ed25519
    /// signature over the graph's event bytes, and those bytes.
    pub fn send(&self) -> (r: Vec<u8>)
        requires
            self.wf(),
        ensures
            r@ == spec_u64_to_le_bytes(self.id) + crypto::ed25519_sign_of(
                self.signer@,
                graph::events_bytes_spec(self.graph@),
            ) + graph::events_bytes_spec(self.graph@),
    {
        let data = self.graph.events_as_bytes();
        let signature = crypto::ed25519_sign(&self.signer, &data);
        let mut buffer = vstd::bytes::u64_to_le_bytes(self.id);
        common::push_bytes(&mut buffer, &signature);
        common::push_bytes(&mut buffer, &data);
        buffer
    }

    /// Verifies and merges an incoming gossip payload, then extends
    /// the local chain with a new event holding the buffered
    /// transactions, timestamped `timestamp`, whose parents are the
    /// local and the sender's chain tips.
    pub fn receive(&mut self, data: &[u8], timestamp: u64) -> (r: Result<(), HashgraphError>)
        requires
            old(self).wf(),
        ensures
            final(self).id == old(self).id,
            final(self).signer == old(self).signer,
            final(self).verifiers == old(self).verifiers,
            final(self).wf(),
            (match r {
                Ok(()) => {
                    let sender = spec_u64_from_le_bytes(data@.subrange(0, 8));
                    let payload = data@.skip(72);
                    &&& data@.len() > 72
                    &&& verifier_lookup(key_views(old(self).verifiers@), sender) is Some
                    &&& crypto::ed25519_verifies(
                        verifier_lookup(key_views(old(self).verifiers@), sender).unwrap(),
                        payload,
                        data@.subrange(8, 72),
                    )
                    &&& event::decode_stream(payload) is Some
                    &&& Some(final(self).graph@) == receive_step(
                        old(self).graph@,
                        old(self).id,
                        old(self).pending_transactions@,
                        sender,
                        event::decode_stream(payload).unwrap(),
                        timestamp,
                    )
                    &&& final(self).pending_transactions@.len() == 0
                },
                Err(e) => {
                    let sender = spec_u64_from_le_bytes(data@.subrange(0, 8));
                    let payload = data@.skip(72);
                    match e {
                        HashgraphError::PayloadTooShort => data@.len() <= 72 && *final(self)
                            == *old(self),
                        HashgraphError::UnknownSender => {
                            &&& data@.len() > 72
                            &&& verifier_lookup(key_views(old(self).verifiers@), sender) is None
                            &&& *final(self) == *old(self)
                        },
                        HashgraphError::InvalidSignature => {
                            &&& data@.len() > 72
                            &&& verifier_lookup(key_views(old(self).verifiers@), sender) is Some
                            &&& !crypto::ed25519_verifies(
                                verifier_lookup(key_views(old(self).verifiers@), sender).unwrap(),
                                payload,
                                data@.subrange(8, 72),
                            )
                            &&& *final(self) == *old(self)
                        },
                        HashgraphError::MalformedPayload => {
                            &&& data@.len() > 72
                            &&& event::decode_stream(payload) is None
                            &&& *final(self) == *old(self)
                        },
                        HashgraphError::MissingChainTip => {
                            &&& data@.len() > 72
                            &&& event::decode_stream(payload) is Some
                            &&& receive_step(
                                old(self).graph@,
                                old(self).id,
                                old(self).pending_transactions@,
                                sender,
                                event::decode_stream(payload).unwrap(),
                                timestamp,
                            ) is None
                            &&& final(self).graph@ == graph::insert_all_model(
                                old(self).graph@,
                                event::decode_stream(payload).unwrap(),
                            )
                            &&& final(self).pending_transactions == old(self).pending_transactions
                        },
                        _ => false,
                    }
                },
            }),
    {
        proof {
            lemma_auto_spec_u64_to_from_le_bytes();
        }
        if data.len() <= 72 {
            return Err(HashgraphError::PayloadTooShort);
        }
        let sender = vstd::bytes::u64_from_le_bytes(vstd::slice::slice_subrange(data, 0, 8));
        let verifier = match self.lookup_verifier(sender) {
            Some(key) => key,
            None => {
                return Err(HashgraphError::UnknownSender);
            },
        };
        let signature = vstd::slice::slice_to_vec(vstd::slice::slice_subrange(data, 8, 72));
        let payload = vstd::slice::slice_to_vec(
            vstd::slice::slice_subrange(data, 72, data.len()),
        );
        if !crypto::ed25519_verify(&verifier, &payload, &signature) {
            return Err(HashgraphError::InvalidSignature);
        }
        let events = match event::Event::events_from_bytes(payload.as_slice()) {
            Some(events) => events,
            None => {
                return Err(HashgraphError::MalformedPayload);
            },
        };
        let ghost models = event::views_of(events@);
        self.graph.update(events);
        let self_parent = match self.graph.latest_event(self.id) {
            Some(ev) => ev.hash(),
            None => {
                return Err(HashgraphError::MissingChainTip);
            },
        };
        let other_parent = match self.graph.latest_event(sender) {
            Some(ev) => ev.hash(),
            None => {
                return Err(HashgraphError::MissingChainTip);
            },
        };
        let mut transactions: Vec<u8> = Vec::new();
        core::mem::swap(&mut transactions, &mut self.pending_transactions);
        let tx_len = transactions.len();
        proof {
            assert(tx_len <= usize::MAX);
        }
        let new_event = event::Event::Default(
            event::Default::new(timestamp, transactions, self_parent, other_parent),
        );
        proof {
            assert(event::event_wf(new_event@));
        }
        self.graph.insert_event(new_event);
        Ok(())
    }

    /// The verifying key registered for `peer`, if any.
    fn lookup_verifier(&self, peer: u64) -> (r: Option<common::Key>)
        requires
            self.wf(),
        ensures
            (match r {
                Some(key) => verifier_lookup(key_views(self.verifiers@), peer) == Some(key@)
                    && key@.len() == 32,
                None => verifier_lookup(key_views(self.verifiers@), peer) is None,
            }),
    {
        let ghost keys = key_views(self.verifiers@);
        let n = self.verifiers.len();
        let mut k: usize = 0;
        proof {
            assert(keys.skip(0) =~= keys);
        }
        while k < n
            invariant
                0 <= k <= n,
                n == self.verifiers@.len(),
                self.wf(),
                keys == key_views(self.verifiers@),
                verifier_lookup(keys, peer) == verifier_lookup(keys.skip(k as int), peer),
            decreases n - k,
        {
            proof {
                assert(keys.skip(k as int)[0] == keys[k as int]);
                assert(keys[k as int] == (self.verifiers@[k as int].0, self.verifiers@[k as int].1@));
            }
            if self.verifiers[k].0 == peer {
                return Some(common::clone_bytes(&self.verifiers[k].1));
            }
            proof {
                assert(keys.skip(k as int).skip(1) =~= keys.skip(k + 1));
            }
            k += 1;
        }
        proof {
            assert(keys.skip(n as int).len() == 0);
        }
        None
    }

    /// The stable JSON projection of the peer.
    pub fn as_json(&self) -> (r: String)
        ensures
            r@ == json::json_of_peer(self.id, self.pending_transactions@, self.graph@),
    {
        let mut s = String::new();
        s.append("{\"id\":");
        let idd = json::u64_to_dec(self.id);
        s.append(idd.as_str());
        s.append(",\"transactions\":\"");
        let tx = common::bytes_to_hex(self.pending_transactions.as_slice());
        s.append(tx.as_str());
        s.append("\",\"graph\":");
        let gj = self.graph.as_json();
        s.append(gj.as_str());
        s.append("}");
        proof {
            assert(s@ =~= json::json_of_peer(self.id, self.pending_transactions@, self.graph@));
        }
        s
    }
}

} // verus!
