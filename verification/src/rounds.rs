use vstd::prelude::*;

use crate::common;
use crate::event::{Event, EventModel};
use crate::graph::{creator_opt, Graph, GraphModel};
use crate::ancestry::strongly_sees_spec;

verus! {

/// The round of the event stored under `h`, budgeted by `fuel`:
/// an Initial event is in round 0; a Default event starts from the
/// larger parent round `i` and advances by one exactly when the events
/// of round `i` that it strongly sees span a supermajority of
/// creators. A walk that leaves the graph or exhausts the budget has
/// no round.
pub open spec fn round_within(g: GraphModel, h: Seq<u8>, fuel: nat) -> Option<nat>
    decreases fuel, 0int,
{
    match g.lookup(h) {
        None => None,
        Some(EventModel::Initial { .. }) => Some(0),
        Some(EventModel::Default { self_parent, other_parent, .. }) => {
            if fuel == 0 {
                None
            } else {
                let rs = round_within(g, self_parent, (fuel - 1) as nat);
                let ro = round_within(g, other_parent, (fuel - 1) as nat);
                match (rs, ro) {
                    (Some(a), Some(b)) => {
                        let i = if a >= b {
                            a
                        } else {
                            b
                        };
                        let voters = round_voter_creators(
                            g,
                            h,
                            i,
                            (fuel - 1) as nat,
                            g.entries.len() as int,
                        );
                        if g.supermajority(voters.len() as int) {
                            Some(i + 1)
                        } else {
                            Some(i)
                        }
                    },
                    _ => None,
                }
            }
        },
    }
}

/// The creators of the stored events among the first `k` entries that
/// `e` strongly sees and whose round, within the given budget, is `i`.
pub open spec fn round_voter_creators(g: GraphModel, e: Seq<u8>, i: nat, fuel: nat, k: int) -> Set<
    u64,
>
    decreases fuel, k,
{
    if k <= 0 || k > g.entries.len() {
        Set::<u64>::empty()
    } else {
        let prev = round_voter_creators(g, e, i, fuel, k - 1);
        let w = g.entries[k - 1].0;
        if strongly_sees_spec(g, w, e) && round_within(g, w, fuel) == Some(i) && creator_opt(g, w)
            is Some {
            prev.insert(creator_opt(g, w).unwrap())
        } else {
            prev
        }
    }
}

/// The round of the event stored under `h`, with one step of budget
/// per stored event: defined whenever every walk the round rule makes
/// grounds in the graph.
pub open spec fn round_opt(g: GraphModel, h: Seq<u8>) -> Option<nat> {
    round_within(g, h, g.fuel())
}

/// A round never exceeds the budget that produced it.
pub proof fn lemma_round_bound(g: GraphModel, h: Seq<u8>, fuel: nat)
    ensures
        (match round_within(g, h, fuel) {
            Some(v) => v <= fuel,
            None => true,
        }),
    decreases fuel,
{
    match g.lookup(h) {
        Some(EventModel::Default { self_parent, other_parent, .. }) => {
            if fuel > 0 {
                lemma_round_bound(g, self_parent, (fuel - 1) as nat);
                lemma_round_bound(g, other_parent, (fuel - 1) as nat);
            }
        },
        _ => {},
    }
}

/// Whether the event stored under `h` is a witness of round `r`: the
/// first event of its creator's chain to be in round `r`. Initial
/// events are the witnesses of round 0.
pub open spec fn is_witness_spec(g: GraphModel, h: Seq<u8>, r: nat) -> bool {
    &&& g.contains(h)
    &&& round_opt(g, h) == Some(r)
    &&& (match g.lookup(h).unwrap() {
        EventModel::Initial { .. } => r == 0,
        EventModel::Default { self_parent, .. } => round_opt(g, self_parent) != Some(r),
    })
}

/// The stored hashes among the first `k` entries whose event is a
/// witness of round `r`, in storage order.
pub open spec fn witness_keys_upto(g: GraphModel, r: nat, k: int) -> Seq<Seq<u8>>
    decreases k,
{
    if k <= 0 || k > g.entries.len() {
        Seq::<Seq<u8>>::empty()
    } else {
        let prev = witness_keys_upto(g, r, k - 1);
        let h = g.entries[k - 1].0;
        let ev = g.entries[k - 1].1;
        if round_opt(g, h) == Some(r) && (match ev {
            EventModel::Initial { .. } => r == 0,
            EventModel::Default { self_parent, .. } => round_opt(g, self_parent) != Some(r),
        }) {
            prev.push(h)
        } else {
            prev
        }
    }
}

/// Inserts a hash into a lexicographically ascending sequence, before
/// the first element not below it.
pub open spec fn insert_sorted_lex(s: Seq<Seq<u8>>, v: Seq<u8>) -> Seq<Seq<u8>>
    decreases s.len(),
{
    if s.len() == 0 {
        seq![v]
    } else if !common::lex_lt(s[0], v) {
        seq![v] + s
    } else {
        seq![s[0]] + insert_sorted_lex(s.skip(1), v)
    }
}

/// Insertion sort of the first `j` hashes into lexicographic order.
pub open spec fn sort_lex_upto(s: Seq<Seq<u8>>, j: int) -> Seq<Seq<u8>>
    decreases j,
{
    if j <= 0 || j > s.len() {
        Seq::<Seq<u8>>::empty()
    } else {
        insert_sorted_lex(sort_lex_upto(s, j - 1), s[j - 1])
    }
}

/// The lexicographic rearrangement of a sequence of hashes.
pub open spec fn sort_lex(s: Seq<Seq<u8>>) -> Seq<Seq<u8>> {
    sort_lex_upto(s, s.len() as int)
}

/// The hashes of the witnesses of round `r`, in ascending hash order:
/// a canonical order that does not depend on how the events were
/// stored.
pub open spec fn witnesses_spec(g: GraphModel, r: nat) -> Seq<Seq<u8>> {
    sort_lex(witness_keys_upto(g, r, g.entries.len() as int))
}

/// The views of a sequence of hashes.
pub open spec fn hash_views(hashes: Seq<common::Hash>) -> Seq<Seq<u8>> {
    hashes.map(|i: int, h: common::Hash| h@)
}

impl Graph {
    /// The round of the event stored under `event_hash`, within the
    /// given step budget.
    fn round_fueled(&self, event_hash: &common::Hash, fuel: usize) -> (r: Option<u64>)
        requires
            self@.inv(),
        ensures
            (match r {
                Some(v) => round_within(self@, event_hash@, fuel as nat) == Some(v as nat) && v
                    <= fuel,
                None => round_within(self@, event_hash@, fuel as nat) is None,
            }),
        decreases fuel,
    {
        let ghost g = self@;
        match self.get_event_opt(event_hash) {
            None => None,
            Some(Event::Initial(_)) => Some(0),
            Some(Event::Default(ev)) => {
                if fuel == 0 {
                    return None;
                }
                let rs = match self.round_fueled(&ev.self_parent, fuel - 1) {
                    Some(a) => a,
                    None => {
                        return None;
                    },
                };
                let ro = match self.round_fueled(&ev.other_parent, fuel - 1) {
                    Some(b) => b,
                    None => {
                        return None;
                    },
                };
                let i = if rs >= ro {
                    rs
                } else {
                    ro
                };
                let n = self.events.len();
                let mut creators: Vec<u64> = Vec::new();
                let mut k: usize = 0;
                proof {
                    assert(creators@.to_set() =~= round_voter_creators(
                        g,
                        event_hash@,
                        i as nat,
                        (fuel - 1) as nat,
                        0,
                    ));
                }
                while k < n
                    invariant
                        0 <= k <= n,
                        n == self.events@.len(),
                        g == self@,
                        g.inv(),
                        fuel >= 1,
                        creators@.no_duplicates(),
                        creators@.to_set() == round_voter_creators(
                            g,
                            event_hash@,
                            i as nat,
                            (fuel - 1) as nat,
                            k as int,
                        ),
                    decreases n - k,
                {
                    let w = &self.events[k].0;
                    proof {
                        assert(g.entries[k as int].0 == self.events@[k as int].0@);
                    }
                    if self.strongly_sees(w, event_hash) {
                        let keep = match self.round_fueled(w, fuel - 1) {
                            Some(v) => v == i,
                            None => false,
                        };
                        if keep {
                            match self.creator_checked(w) {
                                Some(p) => {
                                    if !common::contains_u64(&creators, p) {
                                        let ghost prev = creators@;
                                        creators.push(p);
                                        proof {
                                            broadcast use vstd::seq_lib::lemma_seq_contains_after_push;

                                            assert forall|a: int, b: int|
                                                0 <= a < creators@.len() && 0 <= b
                                                    < creators@.len() && a != b implies creators@[a]
                                                != creators@[b] by {
                                                if a == prev.len() && b < prev.len() {
                                                    if creators@[a] == creators@[b] {
                                                        assert(prev[b] == p);
                                                        assert(prev.contains(p));
                                                    }
                                                } else if b == prev.len() && a < prev.len() {
                                                    if creators@[a] == creators@[b] {
                                                        assert(prev[a] == p);
                                                        assert(prev.contains(p));
                                                    }
                                                }
                                            }
                                            assert(creators@.to_set() =~= prev.to_set().insert(p));
                                        }
                                    }
                                },
                                None => {},
                            }
                        }
                    }
                    proof {
                        assert(round_voter_creators(
                            g,
                            event_hash@,
                            i as nat,
                            (fuel - 1) as nat,
                            k + 1,
                        ) =~= creators@.to_set());
                    }
                    k += 1;
                }
                proof {
                    creators@.unique_seq_to_set();
                }
                if self.is_supermajority(creators.len()) {
                    Some(i + 1)
                } else {
                    Some(i)
                }
            },
        }
    }

    /// The round of the event stored under `event_hash`, which the
    /// caller must know to be defined: Initial events are in round 0,
    /// and later events advance by the strongly-seeing supermajority
    /// rule.
    pub fn round(&self, event_hash: &common::Hash) -> (r: u64)
        requires
            self@.inv(),
            round_opt(self@, event_hash@) is Some,
        ensures
            Some(r as nat) == round_opt(self@, event_hash@),
    {
        let fuel = self.events.len();
        match self.round_fueled(event_hash, fuel) {
            Some(v) => v,
            None => unreached(),
        }
    }

    /// The round of the event stored under `event_hash`, or nothing
    /// where the round rule's walks do not ground in the graph.
    pub fn round_checked(&self, event_hash: &common::Hash) -> (r: Option<u64>)
        requires
            self@.inv(),
        ensures
            (match r {
                Some(v) => round_opt(self@, event_hash@) == Some(v as nat),
                None => round_opt(self@, event_hash@) is None,
            }),
    {
        let fuel = self.events.len();
        self.round_fueled(event_hash, fuel)
    }

    /// The hashes of the witnesses of round `round`: the first event
    /// of each creator's chain to be in that round, in ascending hash
    /// order.
    pub fn witnesses(&self, round: u64) -> (r: Vec<common::Hash>)
        requires
            self@.inv(),
        ensures
            hash_views(r@) == witnesses_spec(self@, round as nat),
    {
        let keys = self.witness_keys(round);
        let ghost kv = hash_views(keys@);
        let n = keys.len();
        let mut out: Vec<common::Hash> = Vec::new();
        let mut k: usize = 0;
        while k < n
            invariant
                0 <= k <= n,
                n == keys@.len(),
                kv == hash_views(keys@),
                hash_views(out@) == sort_lex_upto(kv, k as int),
            decreases n - k,
        {
            proof {
                assert(kv[k as int] == keys@[k as int]@);
            }
            insert_sorted_hash(&mut out, common::clone_bytes(&keys[k]));
            k += 1;
        }
        out
    }

    /// The hashes of the witnesses of round `round`, in storage order.
    fn witness_keys(&self, round: u64) -> (r: Vec<common::Hash>)
        requires
            self@.inv(),
        ensures
            hash_views(r@) == witness_keys_upto(self@, round as nat, self@.entries.len() as int),
    {
        let ghost g = self@;
        let n = self.events.len();
        let mut out: Vec<common::Hash> = Vec::new();
        let mut k: usize = 0;
        proof {
            assert(hash_views(out@) =~= witness_keys_upto(g, round as nat, 0));
        }
        while k < n
            invariant
                0 <= k <= n,
                n == self.events@.len(),
                g == self@,
                g.inv(),
                hash_views(out@) == witness_keys_upto(g, round as nat, k as int),
            decreases n - k,
        {
            proof {
                assert(g.entries[k as int].0 == self.events@[k as int].0@);
                assert(g.entries[k as int].1 == self.events@[k as int].1@);
            }
            let rh = self.round_checked(&self.events[k].0);
            let round_matches = match rh {
                Some(v) => v == round,
                None => false,
            };
            if round_matches {
                let keep = match &self.events[k].1 {
                    Event::Initial(_) => round == 0,
                    Event::Default(ev) => {
                        let rsp = self.round_checked(&ev.self_parent);
                        match rsp {
                            Some(v) => v != round,
                            None => true,
                        }
                    },
                };
                if keep {
                    let ghost prev = out@;
                    out.push(common::clone_bytes(&self.events[k].0));
                    proof {
                        assert(hash_views(out@) =~= hash_views(prev).push(
                            g.entries[k as int].0,
                        ));
                    }
                }
            }
            proof {
                assert(witness_keys_upto(g, round as nat, k + 1) =~= hash_views(out@));
            }
            k += 1;
        }
        out
    }
}

/// The first position of a lexicographically ascending vector whose
/// element is not below `x`.
fn sorted_position_lex(v: &Vec<common::Hash>, x: &common::Hash) -> (r: usize)
    ensures
        r <= v@.len(),
        forall|k: int| 0 <= k < r ==> common::lex_lt((#[trigger] v@[k])@, x@),
        r < v@.len() ==> !common::lex_lt(v@[r as int]@, x@),
{
    let n = v.len();
    let mut pos: usize = 0;
    while pos < n
        invariant
            0 <= pos <= n,
            n == v@.len(),
            forall|k: int| 0 <= k < pos ==> common::lex_lt((#[trigger] v@[k])@, x@),
        decreases n - pos,
    {
        if !common::bytes_lex_lt(&v[pos], x) {
            return pos;
        }
        pos += 1;
    }
    pos
}

/// Inserts `x` into the ascending vector `v` as `insert_sorted_lex`
/// does.
fn insert_sorted_hash(v: &mut Vec<common::Hash>, x: common::Hash)
    ensures
        hash_views(final(v)@) == insert_sorted_lex(hash_views(old(v)@), x@),
{
    let pos = sorted_position_lex(v, &x);
    let ghost s = hash_views(v@);
    v.insert(pos, x);
    proof {
        lemma_insert_sorted_lex_at(s, x@, pos as int);
        assert(hash_views(v@) =~= s.take(pos as int) + seq![x@] + s.skip(pos as int));
    }
}

/// Inserting before the first element not below `x` realizes the
/// specification of sorted insertion.
proof fn lemma_insert_sorted_lex_at(s: Seq<Seq<u8>>, x: Seq<u8>, pos: int)
    requires
        0 <= pos <= s.len(),
        forall|k: int| 0 <= k < pos ==> common::lex_lt(#[trigger] s[k], x),
        pos < s.len() ==> !common::lex_lt(s[pos], x),
    ensures
        insert_sorted_lex(s, x) == s.take(pos) + seq![x] + s.skip(pos),
    decreases pos,
{
    if s.len() == 0 {
        assert(s.take(0) + seq![x] + s.skip(0) =~= seq![x]);
    } else if pos == 0 {
        assert(s.take(0) + seq![x] + s.skip(0) =~= seq![x] + s);
    } else {
        assert(common::lex_lt(s[0], x));
        assert forall|k: int| 0 <= k < pos - 1 implies common::lex_lt(#[trigger] s.skip(1)[k], x) by {
            assert(s.skip(1)[k] == s[k + 1]);
        }
        assert(pos - 1 < s.skip(1).len() ==> !common::lex_lt(s.skip(1)[pos - 1], x));
        lemma_insert_sorted_lex_at(s.skip(1), x, pos - 1);
        assert(seq![s[0]] + (s.skip(1).take(pos - 1) + seq![x] + s.skip(1).skip(pos - 1)) =~= s.take(
            pos,
        ) + seq![x] + s.skip(pos));
    }
}

} // verus!
