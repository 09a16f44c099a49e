use vstd::prelude::*;

use core::cmp::Ordering;

use crate::common;
use crate::event::{Event, EventModel, model_timestamp};
use crate::graph::{Graph, GraphModel};
use crate::ancestry::is_ancestor_spec;
use crate::rounds::{hash_views, lemma_round_bound, round_opt, witness_keys_upto};
use crate::fame::unique_famous_witnesses_spec;

verus! {

/// Whether round `r` decides the event under `e`: the round has unique
/// famous witnesses and every one of them has `e` as an ancestor.
pub open spec fn round_decides_spec(g: GraphModel, e: Seq<u8>, r: nat) -> bool {
    &&& unique_famous_witnesses_spec(g, r).len() > 0
    &&& forall|k: int|
        0 <= k < unique_famous_witnesses_spec(g, r).len() ==> is_ancestor_spec(
            g,
            e,
            #[trigger] unique_famous_witnesses_spec(g, r)[k],
        )
}

/// The first round at or above `r` that decides the event under `e`.
/// No round above the graph's budget holds witnesses, so the search
/// ends there.
pub open spec fn received_from(g: GraphModel, e: Seq<u8>, r: nat) -> Option<nat>
    decreases g.fuel() + 1 - r,
{
    if r > g.fuel() {
        None
    } else if round_decides_spec(g, e, r) {
        Some(r)
    } else {
        received_from(g, e, r + 1)
    }
}

/// The round in which the event under `e` is received: the smallest
/// round, at or above its own, whose unique famous witnesses all
/// descend from it; nothing while no such round exists.
pub open spec fn round_received_spec(g: GraphModel, e: Seq<u8>) -> Option<nat> {
    match round_opt(g, e) {
        None => None,
        Some(r0) => received_from(g, e, r0),
    }
}

/// The representative timestamp that one unique famous witness assigns
/// to the event under `e`: walking down the witness's self-parent
/// chain, the timestamp of the last chain event that still has `e` as
/// an ancestor; the walk stops once it has moved past that stretch or
/// reached the chain's Initial event.
pub open spec fn rep_timestamp_within(
    g: GraphModel,
    e: Seq<u8>,
    cur: Seq<u8>,
    last: Option<u64>,
    fuel: nat,
) -> Option<u64>
    decreases fuel,
{
    match g.lookup(cur) {
        None => None,
        Some(ev) => {
            let last2 = if is_ancestor_spec(g, e, cur) {
                Some(model_timestamp(ev))
            } else {
                last
            };
            match ev {
                EventModel::Initial { .. } => match last2 {
                    Some(t) => Some(t),
                    None => Some(model_timestamp(ev)),
                },
                EventModel::Default { self_parent, .. } => {
                    if !is_ancestor_spec(g, e, cur) && last2 is Some {
                        last2
                    } else if fuel == 0 {
                        None
                    } else {
                        rep_timestamp_within(g, e, self_parent, last2, (fuel - 1) as nat)
                    }
                },
            }
        },
    }
}

/// The representative timestamps of the first `j` witnesses of a
/// list, or nothing if any walk leaves the graph.
pub open spec fn rep_timestamps_upto(g: GraphModel, e: Seq<u8>, ws: Seq<Seq<u8>>, j: int) -> Option<
    Seq<u64>,
>
    decreases j,
{
    if j <= 0 || j > ws.len() {
        Some(Seq::<u64>::empty())
    } else {
        match rep_timestamps_upto(g, e, ws, j - 1) {
            None => None,
            Some(s) => match rep_timestamp_within(g, e, ws[j - 1], None, g.fuel()) {
                None => None,
                Some(t) => Some(s.push(t)),
            },
        }
    }
}

/// Inserts a value into an ascending sequence, before the first
/// element it does not exceed.
pub open spec fn insert_sorted(s: Seq<u64>, v: u64) -> Seq<u64>
    decreases s.len(),
{
    if s.len() == 0 {
        seq![v]
    } else if v <= s[0] {
        seq![v] + s
    } else {
        seq![s[0]] + insert_sorted(s.skip(1), v)
    }
}

/// Insertion sort of the first `j` elements.
pub open spec fn sort_upto(s: Seq<u64>, j: int) -> Seq<u64>
    decreases j,
{
    if j <= 0 || j > s.len() {
        Seq::<u64>::empty()
    } else {
        insert_sorted(sort_upto(s, j - 1), s[j - 1])
    }
}

/// The ascending rearrangement of a sequence of timestamps.
pub open spec fn sorted_of(s: Seq<u64>) -> Seq<u64> {
    sort_upto(s, s.len() as int)
}

/// The consensus timestamp of the event under `e`: the lower median of
/// the representative timestamps that the unique famous witnesses of
/// its received round assign to it.
pub open spec fn consensus_timestamp_spec(g: GraphModel, e: Seq<u8>) -> Option<u64> {
    match round_received_spec(g, e) {
        None => None,
        Some(r) => {
            let ufws = unique_famous_witnesses_spec(g, r);
            match rep_timestamps_upto(g, e, ufws, ufws.len() as int) {
                None => None,
                Some(ts) => if ts.len() == 0 {
                    None
                } else {
                    Some(sorted_of(ts)[(ts.len() - 1) as int / 2])
                },
            }
        },
    }
}

/// The consensus order of the events under `a` and `b`: by received
/// round, then consensus timestamp, then the hash bytes; nothing while
/// either event is undecided.
pub open spec fn consensus_ordering_spec(g: GraphModel, a: Seq<u8>, b: Seq<u8>) -> Option<
    Ordering,
> {
    match (round_received_spec(g, a), round_received_spec(g, b)) {
        (Some(ra), Some(rb)) => match (consensus_timestamp_spec(g, a), consensus_timestamp_spec(
            g,
            b,
        )) {
            (Some(ta), Some(tb)) => Some(
                if ra < rb {
                    Ordering::Less
                } else if ra > rb {
                    Ordering::Greater
                } else if ta < tb {
                    Ordering::Less
                } else if ta > tb {
                    Ordering::Greater
                } else if common::lex_lt(a, b) {
                    Ordering::Less
                } else if common::lex_lt(b, a) {
                    Ordering::Greater
                } else {
                    Ordering::Equal
                },
            ),
            _ => None,
        },
        _ => None,
    }
}

impl Graph {
    /// Whether round `round` decides the event under `event_hash`.
    fn round_decides(&self, event_hash: &common::Hash, round: u64) -> (r: bool)
        requires
            self@.inv(),
        ensures
            r == round_decides_spec(self@, event_hash@, round as nat),
    {
        let ghost g = self@;
        let ufws = self.unique_famous_witnesses(round);
        let ghost uv = hash_views(ufws@);
        let un = ufws.len();
        let mut ok = un > 0;
        let mut k: usize = 0;
        while k < un
            invariant
                0 <= k <= un,
                un == ufws@.len(),
                g == self@,
                g.inv(),
                uv == hash_views(ufws@),
                uv == unique_famous_witnesses_spec(g, round as nat),
                ok == (un > 0 && forall|t: int|
                    0 <= t < k ==> is_ancestor_spec(g, event_hash@, #[trigger] uv[t])),
            decreases un - k,
        {
            proof {
                assert(uv[k as int] == ufws@[k as int]@);
            }
            if !self.is_ancestor(event_hash, &ufws[k]) {
                ok = false;
            }
            k += 1;
        }
        ok
    }

    /// The round in which the event under `event_hash` is received:
    /// the smallest round, at or above its own, whose unique famous
    /// witnesses all have it as an ancestor; nothing while consensus
    /// on it has not been reached.
    pub fn round_received(&self, event_hash: &common::Hash) -> (r: Option<u64>)
        requires
            self@.inv(),
        ensures
            (match r {
                Some(v) => round_received_spec(self@, event_hash@) == Some(v as nat),
                None => round_received_spec(self@, event_hash@) is None,
            }),
    {
        let ghost g = self@;
        let r0 = match self.round_checked(event_hash) {
            Some(v) => v,
            None => {
                return None;
            },
        };
        let fuel = self.events.len();
        let mut r: u128 = r0 as u128;
        loop
            invariant
                g == self@,
                g.inv(),
                fuel == g.fuel(),
                round_received_spec(g, event_hash@) == received_from(g, event_hash@, r as nat),
            decreases fuel as int + 1 - r,
        {
            if r > fuel as u128 {
                return None;
            }
            proof {
                assert(r as u64 as nat == r as nat);
            }
            if self.round_decides(event_hash, r as u64) {
                return Some(r as u64);
            }
            r = r + 1;
        }
    }

    /// The representative timestamp that the witness under `witness`
    /// assigns to the event under `e`.
    fn representative_timestamp(&self, e: &common::Hash, witness: &common::Hash) -> (r: Option<
        u64,
    >)
        requires
            self@.inv(),
        ensures
            r == rep_timestamp_within(self@, e@, witness@, None, self@.fuel()),
    {
        let ghost g = self@;
        let mut current: &common::Hash = witness;
        let mut last: Option<u64> = None;
        let mut fuel = self.events.len();
        loop
            invariant
                g == self@,
                g.inv(),
                rep_timestamp_within(g, e@, witness@, None, g.fuel()) == rep_timestamp_within(
                    g,
                    e@,
                    current@,
                    last,
                    fuel as nat,
                ),
            decreases fuel,
        {
            let ev = match self.get_event_opt(current) {
                Some(ev) => ev,
                None => {
                    return None;
                },
            };
            let reaches = self.is_ancestor(e, current);
            let last2: Option<u64> = if reaches {
                Some(ev.timestamp())
            } else {
                last
            };
            match ev {
                Event::Initial(_) => {
                    return match last2 {
                        Some(t) => Some(t),
                        None => Some(ev.timestamp()),
                    };
                },
                Event::Default(dev) => {
                    if !reaches && last2.is_some() {
                        return last2;
                    }
                    if fuel == 0 {
                        return None;
                    }
                    current = &dev.self_parent;
                    last = last2;
                    fuel = fuel - 1;
                },
            }
        }
    }

    /// The consensus timestamp of the event under `event_hash`: the
    /// lower median of the representative timestamps of the unique
    /// famous witnesses of its received round; nothing while the event
    /// is undecided.
    pub fn consensus_timestamp(&self, event_hash: &common::Hash) -> (r: Option<u64>)
        requires
            self@.inv(),
        ensures
            r == consensus_timestamp_spec(self@, event_hash@),
    {
        let ghost g = self@;
        let round = match self.round_received(event_hash) {
            Some(v) => v,
            None => {
                return None;
            },
        };
        let ufws = self.unique_famous_witnesses(round);
        let ghost uv = hash_views(ufws@);
        let un = ufws.len();
        let mut ts: Vec<u64> = Vec::new();
        let mut j: usize = 0;
        while j < un
            invariant
                0 <= j <= un,
                un == ufws@.len(),
                g == self@,
                g.inv(),
                uv == hash_views(ufws@),
                round_received_spec(g, event_hash@) == Some(round as nat),
                uv == unique_famous_witnesses_spec(g, round as nat),
                rep_timestamps_upto(g, event_hash@, uv, j as int) == Some(ts@),
            decreases un - j,
        {
            proof {
                assert(uv[j as int] == ufws@[j as int]@);
            }
            match self.representative_timestamp(event_hash, &ufws[j]) {
                Some(t) => {
                    ts.push(t);
                },
                None => {
                    proof {
                        lemma_rep_timestamps_none(g, event_hash@, uv, j + 1, un as int);
                    }
                    return None;
                },
            }
            j += 1;
        }
        let tn = ts.len();
        if tn == 0 {
            return None;
        }
        let mut sorted: Vec<u64> = Vec::new();
        let mut k: usize = 0;
        while k < tn
            invariant
                0 <= k <= tn,
                tn == ts@.len(),
                sorted@.len() == k,
                sorted@ == sort_upto(ts@, k as int),
            decreases tn - k,
        {
            insert_sorted_vec(&mut sorted, ts[k]);
            k += 1;
        }
        Some(sorted[(tn - 1) / 2])
    }

    /// The consensus order of the events under `a` and `b`: by
    /// received round, then consensus timestamp, then hash bytes;
    /// nothing while either event is undecided.
    pub fn consensus_ordering(&self, a: common::Hash, b: common::Hash) -> (r: Option<Ordering>)
        requires
            self@.inv(),
        ensures
            r == consensus_ordering_spec(self@, a@, b@),
    {
        let ra = match self.round_received(&a) {
            Some(v) => v,
            None => {
                return None;
            },
        };
        let rb = match self.round_received(&b) {
            Some(v) => v,
            None => {
                return None;
            },
        };
        let ta = match self.consensus_timestamp(&a) {
            Some(v) => v,
            None => {
                return None;
            },
        };
        let tb = match self.consensus_timestamp(&b) {
            Some(v) => v,
            None => {
                return None;
            },
        };
        Some(
            if ra < rb {
                Ordering::Less
            } else if ra > rb {
                Ordering::Greater
            } else if ta < tb {
                Ordering::Less
            } else if ta > tb {
                Ordering::Greater
            } else if common::bytes_lex_lt(&a, &b) {
                Ordering::Less
            } else if common::bytes_lex_lt(&b, &a) {
                Ordering::Greater
            } else {
                Ordering::Equal
            },
        )
    }
}

/// A failed walk poisons every longer prefix of the timestamp list.
proof fn lemma_rep_timestamps_none(g: GraphModel, e: Seq<u8>, ws: Seq<Seq<u8>>, j: int, m: int)
    requires
        0 < j <= m <= ws.len(),
        rep_timestamps_upto(g, e, ws, j) is None,
    ensures
        rep_timestamps_upto(g, e, ws, m) is None,
    decreases m - j,
{
    if j < m {
        lemma_rep_timestamps_none(g, e, ws, j + 1, m);
    }
}

/// The first position of an ascending vector whose element is not
/// below `x`.
fn sorted_position(v: &Vec<u64>, x: u64) -> (r: usize)
    ensures
        r <= v@.len(),
        forall|k: int| 0 <= k < r ==> v@[k] < x,
        r < v@.len() ==> x <= v@[r as int],
{
    let n = v.len();
    let mut pos: usize = 0;
    while pos < n
        invariant
            0 <= pos <= n,
            n == v@.len(),
            forall|k: int| 0 <= k < pos ==> v@[k] < x,
        decreases n - pos,
    {
        if x <= v[pos] {
            return pos;
        }
        pos += 1;
    }
    pos
}

/// Inserts `x` into the ascending vector `v` as `insert_sorted` does.
fn insert_sorted_vec(v: &mut Vec<u64>, x: u64)
    ensures
        final(v)@ == insert_sorted(old(v)@, x),
        final(v)@.len() == old(v)@.len() + 1,
{
    let pos = sorted_position(v, x);
    let ghost s = v@;
    v.insert(pos, x);
    proof {
        lemma_insert_sorted_at(s, x, pos as int);
        assert(v@ =~= s.take(pos as int) + seq![x] + s.skip(pos as int));
    }
}

/// Inserting before the first element not below `x` realizes the
/// specification of sorted insertion.
proof fn lemma_insert_sorted_at(s: Seq<u64>, x: u64, pos: int)
    requires
        0 <= pos <= s.len(),
        forall|k: int| 0 <= k < pos ==> s[k] < x,
        pos < s.len() ==> x <= s[pos],
    ensures
        insert_sorted(s, x) == s.take(pos) + seq![x] + s.skip(pos),
    decreases pos,
{
    if s.len() == 0 {
        assert(s.take(0) + seq![x] + s.skip(0) =~= seq![x]);
    } else if pos == 0 {
        assert(s.take(0) + seq![x] + s.skip(0) =~= seq![x] + s);
    } else {
        assert(s[0] < x);
        assert forall|k: int| 0 <= k < pos - 1 implies s.skip(1)[k] < x by {
            assert(s.skip(1)[k] == s[k + 1]);
        }
        assert(pos - 1 < s.skip(1).len() ==> x <= s.skip(1)[pos - 1]);
        lemma_insert_sorted_at(s.skip(1), x, pos - 1);
        assert(seq![s[0]] + (s.skip(1).take(pos - 1) + seq![x] + s.skip(1).skip(pos - 1)) =~= s.take(
            pos,
        ) + seq![x] + s.skip(pos));
    }
}

} // verus!
