use vstd::prelude::*;

use crate::ancestry::{
    ancestor_within, is_ancestor_spec, is_fork_spec, seer_creators_upto, sees_dishonesty_spec,
    sees_spec, self_ancestor_within, strongly_sees_spec,
};
use crate::rounds::{insert_sorted_lex, round_voter_creators, round_within, sort_lex_upto, witness_keys_upto};
use crate::graph::{
    chain_creator_within, creator_opt, lemma_contains_index, lemma_index_lookup, GraphModel,
};

verus! {

/// Two graphs hold the same events: the same peer count, and the same
/// event stored under every hash — regardless of storage order.
pub open spec fn same_events(g1: GraphModel, g2: GraphModel) -> bool {
    &&& g1.total_peers == g2.total_peers
    &&& forall|h: Seq<u8>| #[trigger] g1.lookup(h) == g2.lookup(h)
}

/// Graphs with the same events store the same number of them.
pub proof fn lemma_same_events_len(g1: GraphModel, g2: GraphModel)
    requires
        g1.inv(),
        g2.inv(),
        same_events(g1, g2),
    ensures
        g1.entries.len() == g2.entries.len(),
        g1.fuel() == g2.fuel(),
{
    broadcast use vstd::set::group_set_axioms;

    let keys1 = g1.entries.map(|i: int, p: (Seq<u8>, crate::event::EventModel)| p.0);
    let keys2 = g2.entries.map(|i: int, p: (Seq<u8>, crate::event::EventModel)| p.0);
    assert(keys1.no_duplicates());
    assert(keys2.no_duplicates());
    assert(keys1.to_set() =~= keys2.to_set()) by {
        assert forall|h: Seq<u8>| keys1.to_set().contains(h) implies keys2.to_set().contains(
            h,
        ) by {
            lemma_key_set_is_contains(g1, h);
            lemma_key_set_is_contains(g2, h);
        }
        assert forall|h: Seq<u8>| keys2.to_set().contains(h) implies keys1.to_set().contains(
            h,
        ) by {
            lemma_key_set_is_contains(g1, h);
            lemma_key_set_is_contains(g2, h);
        }
    }
    keys1.unique_seq_to_set();
    keys2.unique_seq_to_set();
}

/// A hash is among a graph's keys exactly when the graph stores an
/// event under it.
proof fn lemma_key_set_is_contains(g: GraphModel, h: Seq<u8>)
    requires
        g.inv(),
    ensures
        g.entries.map(|i: int, p: (Seq<u8>, crate::event::EventModel)| p.0).to_set().contains(h)
            == g.contains(h),
{
    broadcast use vstd::set::group_set_axioms;

    let keys = g.entries.map(|i: int, p: (Seq<u8>, crate::event::EventModel)| p.0);
    if keys.to_set().contains(h) {
        let i = choose|i: int| 0 <= i < keys.len() && keys[i] == h;
        lemma_index_lookup(g, i);
    }
    if g.contains(h) {
        lemma_contains_index(g, h);
        let i = choose|i: int|
            0 <= i < g.entries.len() && (#[trigger] g.entries[i]).0 == h && g.entries[i].1
                == g.lookup(h).unwrap();
        assert(keys[i] == h);
        assert(keys.to_set().contains(h));
    }
}

/// Reachability reads only the stored events.
pub proof fn lemma_ancestor_congruent(
    g1: GraphModel,
    g2: GraphModel,
    x: Seq<u8>,
    y: Seq<u8>,
    n: nat,
)
    requires
        same_events(g1, g2),
    ensures
        ancestor_within(g1, x, y, n) == ancestor_within(g2, x, y, n),
    decreases n,
{
    if x != y && n > 0 {
        match g1.lookup(y) {
            Some(crate::event::EventModel::Default { self_parent, other_parent, .. }) => {
                lemma_ancestor_congruent(g1, g2, x, self_parent, (n - 1) as nat);
                lemma_ancestor_congruent(g1, g2, x, other_parent, (n - 1) as nat);
            },
            _ => {},
        }
    }
}

/// Self-ancestry reads only the stored events.
pub proof fn lemma_self_ancestor_congruent(
    g1: GraphModel,
    g2: GraphModel,
    x: Seq<u8>,
    y: Seq<u8>,
    n: nat,
)
    requires
        same_events(g1, g2),
    ensures
        self_ancestor_within(g1, x, y, n) == self_ancestor_within(g2, x, y, n),
    decreases n,
{
    if x != y && n > 0 {
        match g1.lookup(y) {
            Some(crate::event::EventModel::Default { self_parent, .. }) => {
                lemma_self_ancestor_congruent(g1, g2, x, self_parent, (n - 1) as nat);
            },
            _ => {},
        }
    }
}

/// The creator walk reads only the stored events.
pub proof fn lemma_creator_congruent(g1: GraphModel, g2: GraphModel, h: Seq<u8>, n: nat)
    requires
        same_events(g1, g2),
    ensures
        chain_creator_within(g1, h, n) == chain_creator_within(g2, h, n),
    decreases n,
{
    if n > 0 {
        match g1.lookup(h) {
            Some(crate::event::EventModel::Default { self_parent, .. }) => {
                lemma_creator_congruent(g1, g2, self_parent, (n - 1) as nat);
            },
            _ => {},
        }
    }
}

/// Fork detection reads only the stored events.
pub proof fn lemma_fork_congruent(g1: GraphModel, g2: GraphModel, x: Seq<u8>, y: Seq<u8>)
    requires
        g1.inv(),
        g2.inv(),
        same_events(g1, g2),
    ensures
        is_fork_spec(g1, x, y) == is_fork_spec(g2, x, y),
{
    lemma_same_events_len(g1, g2);
    lemma_creator_congruent(g1, g2, x, g1.fuel());
    lemma_creator_congruent(g1, g2, y, g1.fuel());
    lemma_self_ancestor_congruent(g1, g2, x, y, g1.fuel());
    lemma_self_ancestor_congruent(g1, g2, y, x, g1.fuel());
}

/// Visible dishonesty reads only the stored events.
pub proof fn lemma_dishonesty_congruent(g1: GraphModel, g2: GraphModel, e: Seq<u8>, peer: u64)
    requires
        g1.inv(),
        g2.inv(),
        same_events(g1, g2),
    ensures
        sees_dishonesty_spec(g1, e, peer) == sees_dishonesty_spec(g2, e, peer),
{
    assert(same_events(g2, g1));
    if sees_dishonesty_spec(g1, e, peer) {
        lemma_dishonesty_one_way(g1, g2, e, peer);
    }
    if sees_dishonesty_spec(g2, e, peer) {
        lemma_dishonesty_one_way(g2, g1, e, peer);
    }
}

/// Dishonesty visible in one of two graphs with the same events is
/// visible in the other.
proof fn lemma_dishonesty_one_way(ga: GraphModel, gb: GraphModel, e: Seq<u8>, peer: u64)
    requires
        ga.inv(),
        gb.inv(),
        same_events(ga, gb),
        sees_dishonesty_spec(ga, e, peer),
    ensures
        sees_dishonesty_spec(gb, e, peer),
{
    lemma_same_events_len(ga, gb);
    let (a, b) = choose|a: Seq<u8>, b: Seq<u8>|
        #![trigger is_fork_spec(ga, a, b)]
        {
            &&& ga.contains(a)
            &&& ga.contains(b)
            &&& a != b
            &&& creator_opt(ga, a) == Some(peer)
            &&& creator_opt(ga, b) == Some(peer)
            &&& is_ancestor_spec(ga, a, e)
            &&& is_ancestor_spec(ga, b, e)
            &&& is_fork_spec(ga, a, b)
        };
    lemma_creator_congruent(ga, gb, a, ga.fuel());
    lemma_creator_congruent(ga, gb, b, ga.fuel());
    lemma_ancestor_congruent(ga, gb, a, e, ga.fuel());
    lemma_ancestor_congruent(ga, gb, b, e, ga.fuel());
    lemma_fork_congruent(ga, gb, a, b);
    assert(is_fork_spec(gb, a, b));
    assert(sees_dishonesty_spec(gb, e, peer));
}

/// Seeing reads only the stored events.
pub proof fn lemma_sees_congruent(g1: GraphModel, g2: GraphModel, x: Seq<u8>, y: Seq<u8>)
    requires
        g1.inv(),
        g2.inv(),
        same_events(g1, g2),
    ensures
        sees_spec(g1, x, y) == sees_spec(g2, x, y),
{
    lemma_same_events_len(g1, g2);
    lemma_ancestor_congruent(g1, g2, x, y, g1.fuel());
    lemma_creator_congruent(g1, g2, x, g1.fuel());
    match creator_opt(g1, x) {
        Some(p) => {
            lemma_dishonesty_congruent(g1, g2, y, p);
        },
        None => {},
    }
}

/// A stored event through which `y` strongly sees `x`, created by
/// peer `p`.
pub open spec fn seer_witness(g: GraphModel, x: Seq<u8>, y: Seq<u8>, p: u64, z: Seq<u8>) -> bool {
    &&& g.contains(z)
    &&& is_ancestor_spec(g, z, y)
    &&& sees_spec(g, x, z)
    &&& creator_opt(g, z) == Some(p)
}

/// A creator counted among the seers has a witnessing stored event.
proof fn lemma_seer_member_elem(g: GraphModel, x: Seq<u8>, y: Seq<u8>, k: int, p: u64)
    requires
        g.inv(),
        seer_creators_upto(g, x, y, k).contains(p),
    ensures
        exists|z: Seq<u8>| #[trigger] seer_witness(g, x, y, p, z),
    decreases k,
{
    broadcast use vstd::set::group_set_axioms;

    if k <= 0 {
    } else {
        let h = g.entries[k - 1].0;
        if k <= g.entries.len() && is_ancestor_spec(g, h, y) && sees_spec(g, x, h) && creator_opt(
            g,
            h,
        ) == Some(p) {
            lemma_index_lookup(g, k - 1);
            assert(seer_witness(g, x, y, p, h));
        } else {
            lemma_seer_member_elem(g, x, y, k - 1, p);
        }
    }
}

/// Seer membership only grows with the scanned prefix.
proof fn lemma_seer_monotone(g: GraphModel, x: Seq<u8>, y: Seq<u8>, k1: int, k2: int, p: u64)
    requires
        seer_creators_upto(g, x, y, k1).contains(p),
        k1 <= k2,
    ensures
        seer_creators_upto(g, x, y, k2).contains(p),
    decreases k2 - k1,
{
    broadcast use vstd::set::group_set_axioms;

    if k1 < k2 {
        lemma_seer_monotone(g, x, y, k1, k2 - 1, p);
    }
}

/// A witnessing stored event puts its creator among the seers.
proof fn lemma_seer_member_complete(g: GraphModel, x: Seq<u8>, y: Seq<u8>, p: u64, z: Seq<u8>)
    requires
        g.inv(),
        seer_witness(g, x, y, p, z),
    ensures
        seer_creators_upto(g, x, y, g.entries.len() as int).contains(p),
{
    broadcast use vstd::set::group_set_axioms;

    lemma_contains_index(g, z);
    let j = choose|j: int|
        0 <= j < g.entries.len() && (#[trigger] g.entries[j]).0 == z && g.entries[j].1 == g.lookup(
            z,
        ).unwrap();
    assert(seer_creators_upto(g, x, y, j + 1).contains(p));
    lemma_seer_monotone(g, x, y, j + 1, g.entries.len() as int, p);
}

/// Strongly seeing reads only the stored events.
pub proof fn lemma_strongly_congruent(g1: GraphModel, g2: GraphModel, x: Seq<u8>, y: Seq<u8>)
    requires
        g1.inv(),
        g2.inv(),
        same_events(g1, g2),
    ensures
        strongly_sees_spec(g1, x, y) == strongly_sees_spec(g2, x, y),
{
    lemma_same_events_len(g1, g2);
    let s1 = seer_creators_upto(g1, x, y, g1.entries.len() as int);
    let s2 = seer_creators_upto(g2, x, y, g2.entries.len() as int);
    assert(s1 =~= s2) by {
        assert forall|p: u64| s1.contains(p) implies s2.contains(p) by {
            lemma_seer_witness_transfer(g1, g2, x, y, p, g1.entries.len() as int);
        }
        assert forall|p: u64| s2.contains(p) implies s1.contains(p) by {
            assert(same_events(g2, g1));
            lemma_seer_witness_transfer(g2, g1, x, y, p, g2.entries.len() as int);
        }
    }
}

/// A seer in one of two graphs with the same events is a seer in the
/// other.
proof fn lemma_seer_witness_transfer(
    ga: GraphModel,
    gb: GraphModel,
    x: Seq<u8>,
    y: Seq<u8>,
    p: u64,
    k: int,
)
    requires
        ga.inv(),
        gb.inv(),
        same_events(ga, gb),
        seer_creators_upto(ga, x, y, k).contains(p),
        k == ga.entries.len(),
    ensures
        seer_creators_upto(gb, x, y, gb.entries.len() as int).contains(p),
{
    lemma_same_events_len(ga, gb);
    lemma_seer_member_elem(ga, x, y, k, p);
    let z = choose|z: Seq<u8>| #[trigger] seer_witness(ga, x, y, p, z);
    lemma_ancestor_congruent(ga, gb, z, y, ga.fuel());
    lemma_sees_congruent(ga, gb, x, z);
    lemma_creator_congruent(ga, gb, z, ga.fuel());
    assert(seer_witness(gb, x, y, p, z));
    lemma_seer_member_complete(gb, x, y, p, z);
}

/// A stored event voting for round `i` when assigning a round to `e`:
/// strongly seen by `e`, in round `i` within the budget, created by
/// `p`.
pub open spec fn voter_witness(
    g: GraphModel,
    e: Seq<u8>,
    i: nat,
    fuel: nat,
    p: u64,
    z: Seq<u8>,
) -> bool {
    &&& g.contains(z)
    &&& strongly_sees_spec(g, z, e)
    &&& round_within(g, z, fuel) == Some(i)
    &&& creator_opt(g, z) == Some(p)
}

/// A creator counted among the round voters has a witnessing stored
/// event.
proof fn lemma_voter_member_elem(
    g: GraphModel,
    e: Seq<u8>,
    i: nat,
    fuel: nat,
    k: int,
    p: u64,
)
    requires
        g.inv(),
        round_voter_creators(g, e, i, fuel, k).contains(p),
    ensures
        exists|z: Seq<u8>| #[trigger] voter_witness(g, e, i, fuel, p, z),
    decreases k,
{
    broadcast use vstd::set::group_set_axioms;

    if k <= 0 || k > g.entries.len() {
    } else {
        let w = g.entries[k - 1].0;
        if strongly_sees_spec(g, w, e) && round_within(g, w, fuel) == Some(i) && creator_opt(g, w)
            == Some(p) {
            lemma_index_lookup(g, k - 1);
            assert(voter_witness(g, e, i, fuel, p, w));
        } else {
            lemma_voter_member_elem(g, e, i, fuel, k - 1, p);
        }
    }
}

/// Voter membership only grows with the scanned prefix.
proof fn lemma_voter_monotone(
    g: GraphModel,
    e: Seq<u8>,
    i: nat,
    fuel: nat,
    k1: int,
    k2: int,
    p: u64,
)
    requires
        round_voter_creators(g, e, i, fuel, k1).contains(p),
        k1 <= k2 <= g.entries.len(),
    ensures
        round_voter_creators(g, e, i, fuel, k2).contains(p),
    decreases k2 - k1,
{
    broadcast use vstd::set::group_set_axioms;

    if k1 < k2 {
        lemma_voter_monotone(g, e, i, fuel, k1, k2 - 1, p);
    }
}

/// A witnessing stored event puts its creator among the round voters.
proof fn lemma_voter_member_complete(
    g: GraphModel,
    e: Seq<u8>,
    i: nat,
    fuel: nat,
    p: u64,
    z: Seq<u8>,
)
    requires
        g.inv(),
        voter_witness(g, e, i, fuel, p, z),
    ensures
        round_voter_creators(g, e, i, fuel, g.entries.len() as int).contains(p),
{
    broadcast use vstd::set::group_set_axioms;

    lemma_contains_index(g, z);
    let j = choose|j: int|
        0 <= j < g.entries.len() && (#[trigger] g.entries[j]).0 == z && g.entries[j].1 == g.lookup(
            z,
        ).unwrap();
    assert(round_voter_creators(g, e, i, fuel, j + 1).contains(p));
    lemma_voter_monotone(g, e, i, fuel, j + 1, g.entries.len() as int, p);
}

/// The round rule reads only the stored events.
pub proof fn lemma_round_congruent(g1: GraphModel, g2: GraphModel, h: Seq<u8>, fuel: nat)
    requires
        g1.inv(),
        g2.inv(),
        same_events(g1, g2),
    ensures
        round_within(g1, h, fuel) == round_within(g2, h, fuel),
    decreases fuel, 0int,
{
    match g1.lookup(h) {
        Some(crate::event::EventModel::Default { self_parent, other_parent, .. }) => {
            if fuel > 0 {
                lemma_round_congruent(g1, g2, self_parent, (fuel - 1) as nat);
                lemma_round_congruent(g1, g2, other_parent, (fuel - 1) as nat);
                let rs = round_within(g1, self_parent, (fuel - 1) as nat);
                let ro = round_within(g1, other_parent, (fuel - 1) as nat);
                match (rs, ro) {
                    (Some(a), Some(b)) => {
                        let i = if a >= b {
                            a
                        } else {
                            b
                        };
                        lemma_voters_congruent(g1, g2, h, i, (fuel - 1) as nat);
                        lemma_same_events_len(g1, g2);
                    },
                    _ => {},
                }
            }
        },
        _ => {},
    }
}

/// The voter creator set of the round rule reads only the stored
/// events.
proof fn lemma_voters_congruent(g1: GraphModel, g2: GraphModel, e: Seq<u8>, i: nat, fuel: nat)
    requires
        g1.inv(),
        g2.inv(),
        same_events(g1, g2),
    ensures
        round_voter_creators(g1, e, i, fuel, g1.entries.len() as int) == round_voter_creators(
            g2,
            e,
            i,
            fuel,
            g2.entries.len() as int,
        ),
    decreases fuel, 2int,
{
    let s1 = round_voter_creators(g1, e, i, fuel, g1.entries.len() as int);
    let s2 = round_voter_creators(g2, e, i, fuel, g2.entries.len() as int);
    assert(s1 =~= s2) by {
        assert forall|p: u64| s1.contains(p) implies s2.contains(p) by {
            lemma_voter_transfer(g1, g2, e, i, fuel, p);
        }
        assert forall|p: u64| s2.contains(p) implies s1.contains(p) by {
            assert(same_events(g2, g1));
            lemma_voter_transfer(g2, g1, e, i, fuel, p);
        }
    }
}

/// A round voter in one of two graphs with the same events is a round
/// voter in the other.
proof fn lemma_voter_transfer(
    ga: GraphModel,
    gb: GraphModel,
    e: Seq<u8>,
    i: nat,
    fuel: nat,
    p: u64,
)
    requires
        ga.inv(),
        gb.inv(),
        same_events(ga, gb),
        round_voter_creators(ga, e, i, fuel, ga.entries.len() as int).contains(p),
    ensures
        round_voter_creators(gb, e, i, fuel, gb.entries.len() as int).contains(p),
    decreases fuel, 1int,
{
    lemma_voter_member_elem(ga, e, i, fuel, ga.entries.len() as int, p);
    let z = choose|z: Seq<u8>| #[trigger] voter_witness(ga, e, i, fuel, p, z);
    lemma_strongly_congruent(ga, gb, z, e);
    lemma_round_congruent(ga, gb, z, fuel);
    lemma_same_events_len(ga, gb);
    lemma_creator_congruent(ga, gb, z, ga.fuel());
    assert(voter_witness(gb, e, i, fuel, p, z));
    lemma_voter_member_complete(gb, e, i, fuel, p, z);
}

/// A lexicographically ascending sequence of hashes.
pub open spec fn sorted_lex_seq(s: Seq<Seq<u8>>) -> bool {
    forall|i: int, j: int|
        0 <= i < j < s.len() ==> !crate::common::lex_lt(#[trigger] s[j], #[trigger] s[i])
}

/// Sorted insertion keeps a sequence sorted, adds exactly the new
/// element, and keeps distinctness when the element is new.
proof fn lemma_insert_sorted_lex_props(s: Seq<Seq<u8>>, v: Seq<u8>)
    requires
        sorted_lex_seq(s),
    ensures
        sorted_lex_seq(insert_sorted_lex(s, v)),
        insert_sorted_lex(s, v).len() == s.len() + 1,
        forall|x: Seq<u8>|
            insert_sorted_lex(s, v).contains(x) == (s.contains(x) || x == v),
        s.no_duplicates() && !s.contains(v) ==> insert_sorted_lex(s, v).no_duplicates(),
    decreases s.len(),
{
    broadcast use vstd::seq_lib::lemma_seq_contains_after_push;

    let out = insert_sorted_lex(s, v);
    if s.len() == 0 {
        assert(out =~= seq![v]);
        assert forall|x: Seq<u8>| out.contains(x) == (s.contains(x) || x == v) by {
            if x == v {
                assert(out[0] == v);
            }
        }
    } else if !crate::common::lex_lt(s[0], v) {
        assert(out =~= seq![v] + s);
        assert forall|i: int, j: int| 0 <= i < j < out.len() implies !crate::common::lex_lt(
            #[trigger] out[j],
            #[trigger] out[i],
        ) by {
            if i == 0 {
                // v comes first: s[0] is not below v, and every later
                // element is not below s[0].
                assert(out[j] == s[j - 1]);
                if crate::common::lex_lt(out[j], v) {
                    if j - 1 > 0 {
                        assert(!crate::common::lex_lt(s[j - 1], s[0]));
                        crate::common::lemma_lex_trichotomy(s[j - 1], s[0]);
                        if s[j - 1] == s[0] {
                        } else {
                            crate::common::lemma_lex_transitive(s[0], s[j - 1], v);
                        }
                    }
                }
            } else {
                assert(out[i] == s[i - 1]);
                assert(out[j] == s[j - 1]);
            }
        }
        assert forall|x: Seq<u8>| out.contains(x) == (s.contains(x) || x == v) by {
            if out.contains(x) {
                let t = choose|t: int| 0 <= t < out.len() && out[t] == x;
                if t == 0 {
                } else {
                    assert(s[t - 1] == x);
                }
            }
            if s.contains(x) {
                let t = choose|t: int| 0 <= t < s.len() && s[t] == x;
                assert(out[t + 1] == x);
            }
            if x == v {
                assert(out[0] == x);
            }
        }
        if s.no_duplicates() && !s.contains(v) {
            assert forall|i: int, j: int|
                0 <= i < out.len() && 0 <= j < out.len() && i != j implies out[i] != out[j] by {
                if i == 0 && j > 0 {
                    if out[j] == v {
                        assert(s[j - 1] == v);
                        assert(s.contains(v));
                    }
                } else if j == 0 && i > 0 {
                    if out[i] == v {
                        assert(s[i - 1] == v);
                        assert(s.contains(v));
                    }
                }
            }
        }
    } else {
        assert forall|i: int, j: int| 0 <= i < j < s.skip(1).len() implies !crate::common::lex_lt(
            #[trigger] s.skip(1)[j],
            #[trigger] s.skip(1)[i],
        ) by {
            assert(s.skip(1)[j] == s[j + 1]);
            assert(s.skip(1)[i] == s[i + 1]);
        }
        if s.no_duplicates() {
            assert forall|i: int, j: int|
                0 <= i < s.skip(1).len() && 0 <= j < s.skip(1).len() && i != j implies s.skip(1)[i]
                != s.skip(1)[j] by {
                assert(s.skip(1)[i] == s[i + 1]);
                assert(s.skip(1)[j] == s[j + 1]);
            }
        }
        if s.contains(v) {
            let t = choose|t: int| 0 <= t < s.len() && s[t] == v;
            if t == 0 {
                crate::common::lemma_lex_irreflexive(v);
            } else {
                assert(s.skip(1)[t - 1] == v);
                assert(s.skip(1).contains(v));
            }
        } else {
            assert forall|x: Seq<u8>| s.skip(1).contains(x) implies s.contains(x) by {
                let t = choose|t: int| 0 <= t < s.skip(1).len() && s.skip(1)[t] == x;
                assert(s[t + 1] == x);
            }
        }
        lemma_insert_sorted_lex_props(s.skip(1), v);
        let rec = insert_sorted_lex(s.skip(1), v);
        assert(out =~= seq![s[0]] + rec);
        // The head stays below everything inserted after it.
        assert forall|i: int, j: int| 0 <= i < j < out.len() implies !crate::common::lex_lt(
            #[trigger] out[j],
            #[trigger] out[i],
        ) by {
            if i == 0 {
                assert(out[j] == rec[j - 1]);
                assert(rec.contains(rec[j - 1]));
                if crate::common::lex_lt(rec[j - 1], s[0]) {
                    if rec[j - 1] == v {
                        crate::common::lemma_lex_transitive(s[0], v, s[0]);
                        crate::common::lemma_lex_irreflexive(s[0]);
                    } else {
                        assert(s.skip(1).contains(rec[j - 1]));
                        let t = choose|t: int|
                            0 <= t < s.skip(1).len() && s.skip(1)[t] == rec[j - 1];
                        assert(s[t + 1] == rec[j - 1]);
                        assert(!crate::common::lex_lt(s[t + 1], s[0]));
                    }
                }
            } else {
                assert(out[i] == rec[i - 1]);
                assert(out[j] == rec[j - 1]);
            }
        }
        assert forall|x: Seq<u8>| out.contains(x) == (s.contains(x) || x == v) by {
            if out.contains(x) {
                let t = choose|t: int| 0 <= t < out.len() && out[t] == x;
                if t == 0 {
                    assert(s[0] == x);
                } else {
                    assert(rec[t - 1] == x);
                    assert(rec.contains(x));
                    if s.skip(1).contains(x) {
                        let u = choose|u: int| 0 <= u < s.skip(1).len() && s.skip(1)[u] == x;
                        assert(s[u + 1] == x);
                    }
                }
            }
            if s.contains(x) {
                let t = choose|t: int| 0 <= t < s.len() && s[t] == x;
                if t == 0 {
                    assert(out[0] == x);
                } else {
                    assert(s.skip(1)[t - 1] == x);
                    assert(s.skip(1).contains(x));
                    assert(rec.contains(x));
                    let u = choose|u: int| 0 <= u < rec.len() && rec[u] == x;
                    assert(out[u + 1] == x);
                }
            }
            if x == v {
                assert(rec.contains(x));
                let u = choose|u: int| 0 <= u < rec.len() && rec[u] == x;
                assert(out[u + 1] == x);
            }
        }
        if s.no_duplicates() && !s.contains(v) {
            assert forall|i: int, j: int|
                0 <= i < out.len() && 0 <= j < out.len() && i != j implies out[i] != out[j] by {
                if i == 0 && j > 0 {
                    if out[j] == s[0] {
                        assert(rec.contains(s[0]));
                        assert(s.skip(1).contains(s[0]) || s[0] == v);
                        if s.skip(1).contains(s[0]) {
                            let t = choose|t: int|
                                0 <= t < s.skip(1).len() && s.skip(1)[t] == s[0];
                            assert(s[t + 1] == s[0]);
                        }
                    }
                } else if j == 0 && i > 0 {
                    if out[i] == s[0] {
                        assert(rec.contains(s[0]));
                        assert(s.skip(1).contains(s[0]) || s[0] == v);
                        if s.skip(1).contains(s[0]) {
                            let t = choose|t: int|
                                0 <= t < s.skip(1).len() && s.skip(1)[t] == s[0];
                            assert(s[t + 1] == s[0]);
                        }
                    }
                } else if i > 0 && j > 0 {
                    assert(out[i] == rec[i - 1]);
                    assert(out[j] == rec[j - 1]);
                }
            }
        }
    }
}

/// Insertion sort of a duplicate-free prefix yields a sorted,
/// duplicate-free sequence with the same members.
proof fn lemma_sort_lex_props(s: Seq<Seq<u8>>, k: int)
    requires
        s.no_duplicates(),
        0 <= k <= s.len(),
    ensures
        sorted_lex_seq(sort_lex_upto(s, k)),
        sort_lex_upto(s, k).len() == k,
        sort_lex_upto(s, k).no_duplicates(),
        forall|x: Seq<u8>|
            sort_lex_upto(s, k).contains(x) == s.take(k).contains(x),
    decreases k,
{
    if k <= 0 {
        assert forall|x: Seq<u8>|
            sort_lex_upto(s, k).contains(x) == s.take(k).contains(x) by {
            assert(sort_lex_upto(s, k).len() == 0);
            assert(s.take(k).len() == 0);
        }
    } else {
        lemma_sort_lex_props(s, k - 1);
        let prev = sort_lex_upto(s, k - 1);
        let v = s[k - 1];
        assert(!prev.contains(v)) by {
            if prev.contains(v) {
                assert(s.take(k - 1).contains(v));
                let t = choose|t: int| 0 <= t < k - 1 && #[trigger] s.take(k - 1)[t] == v;
                assert(s[t] == s[k - 1]);
            }
        }
        lemma_insert_sorted_lex_props(prev, v);
        assert forall|x: Seq<u8>|
            sort_lex_upto(s, k).contains(x) == s.take(k).contains(x) by {
            assert(sort_lex_upto(s, k) == insert_sorted_lex(prev, v));
            assert(insert_sorted_lex(prev, v).contains(x) == (prev.contains(x) || x == v));
            assert(prev.contains(x) == s.take(k - 1).contains(x));
            if s.take(k - 1).contains(x) {
                let t = choose|t: int|
                    0 <= t < s.take(k - 1).len() && #[trigger] s.take(k - 1)[t] == x;
                assert(s.take(k)[t] == x);
                assert(s.take(k).contains(x));
            }
            if x == v {
                assert(s.take(k)[k - 1] == x);
                assert(s.take(k).contains(x));
            }
            if s.take(k).contains(x) {
                let t = choose|t: int| 0 <= t < s.take(k).len() && #[trigger] s.take(k)[t] == x;
                if t == k - 1 {
                } else {
                    assert(s.take(k - 1)[t] == x);
                    assert(s.take(k - 1).contains(x));
                }
            }
        }
    }
}

/// Two sorted, duplicate-free sequences with the same members are the
/// same sequence.
proof fn lemma_sorted_unique(s1: Seq<Seq<u8>>, s2: Seq<Seq<u8>>)
    requires
        sorted_lex_seq(s1),
        sorted_lex_seq(s2),
        s1.no_duplicates(),
        s2.no_duplicates(),
        forall|x: Seq<u8>| s1.contains(x) == #[trigger] s2.contains(x),
    ensures
        s1 == s2,
    decreases s1.len(),
{
    if s1.len() == 0 {
        if s2.len() > 0 {
            assert(s2.contains(s2[0]));
        }
        assert(s1 =~= s2);
    } else {
        assert(s1.contains(s1[0]));
        assert(s2.contains(s1[0]));
        assert(s2.len() > 0);
        // The heads are both the least member, so they coincide.
        assert(s1[0] == s2[0]) by {
            assert(s1.contains(s1[0]));
            assert(s2.contains(s1[0]));
            let j = choose|j: int| 0 <= j < s2.len() && s2[j] == s1[0];
            assert(s2.contains(s2[0]));
            assert(s1.contains(s2[0]));
            let i = choose|i: int| 0 <= i < s1.len() && s1[i] == s2[0];
            if j > 0 {
                assert(!crate::common::lex_lt(s2[j], s2[0]));
            }
            if i > 0 {
                assert(!crate::common::lex_lt(s1[i], s1[0]));
            }
            crate::common::lemma_lex_trichotomy(s1[0], s2[0]);
        }
        let t1 = s1.skip(1);
        let t2 = s2.skip(1);
        assert(sorted_lex_seq(t1) && t1.no_duplicates()) by {
            lemma_tail_props(s1);
        }
        assert(sorted_lex_seq(t2) && t2.no_duplicates()) by {
            lemma_tail_props(s2);
        }
        assert forall|x: Seq<u8>| t1.contains(x) == #[trigger] t2.contains(x) by {
            lemma_tail_membership(s1, x);
            lemma_tail_membership(s2, x);
        }
        lemma_sorted_unique(t1, t2);
        assert(s1 =~= s2) by {
            assert forall|i: int| 0 <= i < s1.len() implies s1[i] == s2[i] by {
                if i > 0 {
                    assert(t1[i - 1] == s1[i]);
                    assert(t2[i - 1] == s2[i]);
                }
            }
        }
    }
}

/// The tail of a sorted, duplicate-free sequence is sorted and
/// duplicate-free.
proof fn lemma_tail_props(s: Seq<Seq<u8>>)
    requires
        s.len() > 0,
        sorted_lex_seq(s),
        s.no_duplicates(),
    ensures
        sorted_lex_seq(s.skip(1)),
        s.skip(1).no_duplicates(),
{
    assert forall|i: int, j: int| 0 <= i < j < s.skip(1).len() implies !crate::common::lex_lt(
        #[trigger] s.skip(1)[j],
        #[trigger] s.skip(1)[i],
    ) by {
        assert(s.skip(1)[j] == s[j + 1]);
        assert(s.skip(1)[i] == s[i + 1]);
    }
    assert forall|i: int, j: int|
        0 <= i < s.skip(1).len() && 0 <= j < s.skip(1).len() && i != j implies s.skip(1)[i]
        != s.skip(1)[j] by {
        assert(s.skip(1)[i] == s[i + 1]);
        assert(s.skip(1)[j] == s[j + 1]);
    }
}

/// In a duplicate-free sequence, the tail holds exactly the members
/// other than the head.
proof fn lemma_tail_membership(s: Seq<Seq<u8>>, x: Seq<u8>)
    requires
        s.len() > 0,
        s.no_duplicates(),
    ensures
        s.skip(1).contains(x) == (s.contains(x) && x != s[0]),
{
    if s.skip(1).contains(x) {
        let t = choose|t: int| 0 <= t < s.skip(1).len() && s.skip(1)[t] == x;
        assert(s[t + 1] == x);
        assert(s.contains(x));
    }
    if s.contains(x) && x != s[0] {
        let t = choose|t: int| 0 <= t < s.len() && s[t] == x;
        assert(t > 0);
        assert(s.skip(1)[t - 1] == x);
        assert(s.skip(1).contains(x));
    }
}

/// A hash among the collected witness keys has a witnessing entry.
proof fn lemma_witness_keys_elem(g: GraphModel, r: nat, k: int, h: Seq<u8>)
    requires
        g.inv(),
        witness_keys_upto(g, r, k).contains(h),
    ensures
        crate::rounds::is_witness_spec(g, h, r),
        exists|j: int| 0 <= j < k && (#[trigger] g.entries[j]).0 == h,
    decreases k,
{
    broadcast use vstd::seq_lib::lemma_seq_contains_after_push;

    if k <= 0 || k > g.entries.len() {
    } else {
        let prev = witness_keys_upto(g, r, k - 1);
        let hk = g.entries[k - 1].0;
        if witness_keys_upto(g, r, k) == prev.push(hk) && h == hk && !prev.contains(h) {
            lemma_index_lookup(g, k - 1);
            assert(g.entries[k - 1].0 == h);
        } else {
            if prev.contains(h) {
                lemma_witness_keys_elem(g, r, k - 1, h);
            } else {
                lemma_index_lookup(g, k - 1);
                assert(g.entries[k - 1].0 == h);
            }
        }
    }
}

/// Witness-key membership only grows with the scanned prefix.
proof fn lemma_witness_keys_monotone(g: GraphModel, r: nat, k1: int, k2: int, h: Seq<u8>)
    requires
        witness_keys_upto(g, r, k1).contains(h),
        k1 <= k2 <= g.entries.len(),
    ensures
        witness_keys_upto(g, r, k2).contains(h),
    decreases k2 - k1,
{
    broadcast use vstd::seq_lib::lemma_seq_contains_after_push;

    if k1 < k2 {
        lemma_witness_keys_monotone(g, r, k1, k2 - 1, h);
    }
}

/// Every witness's hash is among the collected witness keys.
proof fn lemma_witness_keys_complete(g: GraphModel, r: nat, h: Seq<u8>)
    requires
        g.inv(),
        crate::rounds::is_witness_spec(g, h, r),
    ensures
        witness_keys_upto(g, r, g.entries.len() as int).contains(h),
{
    broadcast use vstd::seq_lib::lemma_seq_contains_after_push;

    lemma_contains_index(g, h);
    let j = choose|j: int|
        0 <= j < g.entries.len() && (#[trigger] g.entries[j]).0 == h && g.entries[j].1 == g.lookup(
            h,
        ).unwrap();
    assert(witness_keys_upto(g, r, j + 1).contains(h)) by {
        let prev = witness_keys_upto(g, r, j);
        assert(witness_keys_upto(g, r, j + 1) == prev.push(h));
    }
    lemma_witness_keys_monotone(g, r, j + 1, g.entries.len() as int, h);
}

/// The collected witness keys are distinct.
proof fn lemma_witness_keys_nodup(g: GraphModel, r: nat, k: int)
    requires
        g.inv(),
        k <= g.entries.len(),
    ensures
        witness_keys_upto(g, r, k).no_duplicates(),
    decreases k,
{
    if k <= 0 {
    } else {
        lemma_witness_keys_nodup(g, r, k - 1);
        let prev = witness_keys_upto(g, r, k - 1);
        let hk = g.entries[k - 1].0;
        if witness_keys_upto(g, r, k) == prev.push(hk) {
            assert(!prev.contains(hk)) by {
                if prev.contains(hk) {
                    lemma_witness_keys_elem(g, r, k - 1, hk);
                    let j = choose|j: int|
                        0 <= j < k - 1 && (#[trigger] g.entries[j]).0 == hk;
                    assert(g.entries[j].0 != g.entries[k - 1].0);
                }
            }
            assert forall|i: int, j: int|
                0 <= i < prev.push(hk).len() && 0 <= j < prev.push(hk).len() && i != j implies prev.push(
                hk,
            )[i] != prev.push(hk)[j] by {
                if i == prev.len() && j < prev.len() {
                    if prev.push(hk)[i] == prev.push(hk)[j] {
                        assert(prev[j] == hk);
                        assert(prev.contains(hk));
                    }
                } else if j == prev.len() && i < prev.len() {
                    if prev.push(hk)[i] == prev.push(hk)[j] {
                        assert(prev[i] == hk);
                        assert(prev.contains(hk));
                    }
                }
            }
        }
    }
}

/// The witness list reads only the stored events: two graphs with the
/// same events list the same witnesses for every round.
pub proof fn lemma_witnesses_congruent(g1: GraphModel, g2: GraphModel, r: nat)
    requires
        g1.inv(),
        g2.inv(),
        same_events(g1, g2),
    ensures
        crate::rounds::witnesses_spec(g1, r) == crate::rounds::witnesses_spec(g2, r),
{
    lemma_same_events_len(g1, g2);
    let keys1 = witness_keys_upto(g1, r, g1.entries.len() as int);
    let keys2 = witness_keys_upto(g2, r, g2.entries.len() as int);
    lemma_witness_keys_nodup(g1, r, g1.entries.len() as int);
    lemma_witness_keys_nodup(g2, r, g2.entries.len() as int);
    lemma_sort_lex_props(keys1, keys1.len() as int);
    lemma_sort_lex_props(keys2, keys2.len() as int);
    assert(keys1.take(keys1.len() as int) =~= keys1);
    assert(keys2.take(keys2.len() as int) =~= keys2);
    let s1 = crate::rounds::sort_lex(keys1);
    let s2 = crate::rounds::sort_lex(keys2);
    assert forall|x: Seq<u8>| s1.contains(x) == #[trigger] s2.contains(x) by {
        assert(s1.contains(x) == keys1.contains(x));
        assert(s2.contains(x) == keys2.contains(x));
        if keys1.contains(x) {
            lemma_witness_keys_elem(g1, r, g1.entries.len() as int, x);
            lemma_witness_congruent_pointwise(g1, g2, x, r);
            lemma_witness_keys_complete(g2, r, x);
        }
        if keys2.contains(x) {
            lemma_witness_keys_elem(g2, r, g2.entries.len() as int, x);
            assert(same_events(g2, g1));
            lemma_witness_congruent_pointwise(g2, g1, x, r);
            lemma_witness_keys_complete(g1, r, x);
        }
    }
    lemma_sorted_unique(s1, s2);
}

/// Being a witness reads only the stored events.
proof fn lemma_witness_congruent_pointwise(ga: GraphModel, gb: GraphModel, h: Seq<u8>, r: nat)
    requires
        ga.inv(),
        gb.inv(),
        same_events(ga, gb),
        crate::rounds::is_witness_spec(ga, h, r),
    ensures
        crate::rounds::is_witness_spec(gb, h, r),
{
    lemma_same_events_len(ga, gb);
    lemma_round_congruent(ga, gb, h, ga.fuel());
    match ga.lookup(h) {
        Some(crate::event::EventModel::Default { self_parent, .. }) => {
            lemma_round_congruent(ga, gb, self_parent, ga.fuel());
        },
        _ => {},
    }
}

/// The bootstrap votes read only the stored events.
proof fn lemma_initial_votes_congruent(
    g1: GraphModel,
    g2: GraphModel,
    w: Seq<u8>,
    pv: Seq<Seq<u8>>,
    j: int,
)
    requires
        g1.inv(),
        g2.inv(),
        same_events(g1, g2),
    ensures
        crate::fame::initial_votes_upto(g1, w, pv, j) == crate::fame::initial_votes_upto(
            g2,
            w,
            pv,
            j,
        ),
    decreases j,
{
    if j <= 0 || j > pv.len() {
    } else {
        lemma_initial_votes_congruent(g1, g2, w, pv, j - 1);
        lemma_same_events_len(g1, g2);
        lemma_ancestor_congruent(g1, g2, w, pv[j - 1], g1.fuel());
    }
}

/// The observed vote counts read only the stored events.
proof fn lemma_counts_congruent(
    g1: GraphModel,
    g2: GraphModel,
    voter: Seq<u8>,
    pv: Seq<Seq<u8>>,
    votes: Seq<bool>,
    k: int,
)
    requires
        g1.inv(),
        g2.inv(),
        same_events(g1, g2),
    ensures
        crate::fame::yes_count(g1, voter, pv, votes, k) == crate::fame::yes_count(
            g2,
            voter,
            pv,
            votes,
            k,
        ),
        crate::fame::no_count(g1, voter, pv, votes, k) == crate::fame::no_count(
            g2,
            voter,
            pv,
            votes,
            k,
        ),
    decreases k,
{
    if k <= 0 || k > pv.len() || k > votes.len() {
    } else {
        lemma_counts_congruent(g1, g2, voter, pv, votes, k - 1);
        lemma_strongly_congruent(g1, g2, pv[k - 1], voter);
    }
}

/// Polling a round of voters reads only the stored events.
proof fn lemma_eval_congruent(
    g1: GraphModel,
    g2: GraphModel,
    voters: Seq<Seq<u8>>,
    pv: Seq<Seq<u8>>,
    votes: Seq<bool>,
    j: int,
)
    requires
        g1.inv(),
        g2.inv(),
        same_events(g1, g2),
    ensures
        crate::fame::eval_voters_from(g1, voters, pv, votes, j) == crate::fame::eval_voters_from(
            g2,
            voters,
            pv,
            votes,
            j,
        ),
    decreases voters.len() - j,
{
    if j < 0 || j >= voters.len() {
    } else {
        lemma_counts_congruent(g1, g2, voters[j], pv, votes, pv.len() as int);
        lemma_eval_congruent(g1, g2, voters, pv, votes, j + 1);
    }
}

/// The round-by-round fame vote reads only the stored events.
proof fn lemma_fame_from_congruent(
    g1: GraphModel,
    g2: GraphModel,
    pv: Seq<Seq<u8>>,
    votes: Seq<bool>,
    round: nat,
    countdown: nat,
)
    requires
        g1.inv(),
        g2.inv(),
        same_events(g1, g2),
    ensures
        crate::fame::fame_from(g1, pv, votes, round, countdown) == crate::fame::fame_from(
            g2,
            pv,
            votes,
            round,
            countdown,
        ),
    decreases countdown,
{
    lemma_same_events_len(g1, g2);
    if countdown == 0 || round > g1.fuel() {
    } else {
        lemma_witnesses_congruent(g1, g2, round);
        let voters = crate::rounds::witnesses_spec(g1, round);
        if voters.len() == 0 {
        } else {
            lemma_eval_congruent(g1, g2, voters, pv, votes, 0);
            match crate::fame::eval_voters_from(g1, voters, pv, votes, 0) {
                crate::fame::FameStep::Decided(_) => {},
                crate::fame::FameStep::Undecided(new_votes) => {
                    lemma_fame_from_congruent(
                        g1,
                        g2,
                        voters,
                        new_votes,
                        round + 1,
                        (countdown - 1) as nat,
                    );
                },
            }
        }
    }
}

/// Fame reads only the stored events.
proof fn lemma_famous_congruent(g1: GraphModel, g2: GraphModel, w: Seq<u8>)
    requires
        g1.inv(),
        g2.inv(),
        same_events(g1, g2),
    ensures
        crate::fame::is_famous_spec(g1, w) == crate::fame::is_famous_spec(g2, w),
{
    lemma_same_events_len(g1, g2);
    lemma_round_congruent(g1, g2, w, g1.fuel());
    match crate::rounds::round_opt(g1, w) {
        None => {},
        Some(r0) => {
            lemma_witnesses_congruent(g1, g2, r0 + 1);
            let pv = crate::rounds::witnesses_spec(g1, r0 + 1);
            lemma_initial_votes_congruent(g1, g2, w, pv, pv.len() as int);
            let votes = crate::fame::initial_votes_upto(g1, w, pv, pv.len() as int);
            lemma_fame_from_congruent(g1, g2, pv, votes, r0 + 2, g1.fuel() + 1);
        },
    }
}

/// The famous-witness list reads only the stored events.
proof fn lemma_famous_upto_congruent(g1: GraphModel, g2: GraphModel, s: Seq<Seq<u8>>, j: int)
    requires
        g1.inv(),
        g2.inv(),
        same_events(g1, g2),
    ensures
        crate::fame::famous_upto(g1, s, j) == crate::fame::famous_upto(g2, s, j),
    decreases j,
{
    if j <= 0 || j > s.len() {
    } else {
        lemma_famous_upto_congruent(g1, g2, s, j - 1);
        lemma_famous_congruent(g1, g2, s[j - 1]);
    }
}

/// The per-creator minima read only the stored events.
proof fn lemma_ufw_fold_congruent(g1: GraphModel, g2: GraphModel, s: Seq<Seq<u8>>, j: int)
    requires
        g1.inv(),
        g2.inv(),
        same_events(g1, g2),
    ensures
        crate::fame::ufw_fold(g1, s, j) == crate::fame::ufw_fold(g2, s, j),
    decreases j,
{
    if j <= 0 || j > s.len() {
    } else {
        lemma_ufw_fold_congruent(g1, g2, s, j - 1);
        lemma_same_events_len(g1, g2);
        lemma_creator_congruent(g1, g2, s[j - 1], g1.fuel());
    }
}

/// The unique famous witnesses read only the stored events.
proof fn lemma_ufw_congruent(g1: GraphModel, g2: GraphModel, r: nat)
    requires
        g1.inv(),
        g2.inv(),
        same_events(g1, g2),
    ensures
        crate::fame::unique_famous_witnesses_spec(g1, r) == crate::fame::unique_famous_witnesses_spec(
            g2,
            r,
        ),
{
    lemma_witnesses_congruent(g1, g2, r);
    let ws = crate::rounds::witnesses_spec(g1, r);
    lemma_famous_upto_congruent(g1, g2, ws, ws.len() as int);
    let fs = crate::fame::famous_witnesses_spec(g1, r);
    lemma_ufw_fold_congruent(g1, g2, fs, fs.len() as int);
}

/// Whether a round decides an event reads only the stored events.
proof fn lemma_decides_congruent(g1: GraphModel, g2: GraphModel, e: Seq<u8>, r: nat)
    requires
        g1.inv(),
        g2.inv(),
        same_events(g1, g2),
    ensures
        crate::consensus::round_decides_spec(g1, e, r) == crate::consensus::round_decides_spec(
            g2,
            e,
            r,
        ),
{
    lemma_same_events_len(g1, g2);
    lemma_ufw_congruent(g1, g2, r);
    let ufws = crate::fame::unique_famous_witnesses_spec(g1, r);
    assert forall|k: int| 0 <= k < ufws.len() implies is_ancestor_spec(g1, e, #[trigger] ufws[k])
        == is_ancestor_spec(g2, e, ufws[k]) by {
        lemma_ancestor_congruent(g1, g2, e, ufws[k], g1.fuel());
    }
}

/// The received-round search reads only the stored events.
proof fn lemma_received_from_congruent(g1: GraphModel, g2: GraphModel, e: Seq<u8>, r: nat)
    requires
        g1.inv(),
        g2.inv(),
        same_events(g1, g2),
    ensures
        crate::consensus::received_from(g1, e, r) == crate::consensus::received_from(g2, e, r),
    decreases g1.fuel() + 1 - r,
{
    lemma_same_events_len(g1, g2);
    if r > g1.fuel() {
    } else {
        lemma_decides_congruent(g1, g2, e, r);
        if crate::consensus::round_decides_spec(g1, e, r) {
        } else {
            lemma_received_from_congruent(g1, g2, e, r + 1);
        }
    }
}

/// The received round reads only the stored events.
proof fn lemma_round_received_congruent(g1: GraphModel, g2: GraphModel, e: Seq<u8>)
    requires
        g1.inv(),
        g2.inv(),
        same_events(g1, g2),
    ensures
        crate::consensus::round_received_spec(g1, e) == crate::consensus::round_received_spec(
            g2,
            e,
        ),
{
    lemma_same_events_len(g1, g2);
    lemma_round_congruent(g1, g2, e, g1.fuel());
    match crate::rounds::round_opt(g1, e) {
        None => {},
        Some(r0) => {
            lemma_received_from_congruent(g1, g2, e, r0);
        },
    }
}

/// The representative-timestamp walk reads only the stored events.
proof fn lemma_rep_timestamp_congruent(
    g1: GraphModel,
    g2: GraphModel,
    e: Seq<u8>,
    cur: Seq<u8>,
    last: Option<u64>,
    fuel: nat,
)
    requires
        g1.inv(),
        g2.inv(),
        same_events(g1, g2),
    ensures
        crate::consensus::rep_timestamp_within(g1, e, cur, last, fuel)
            == crate::consensus::rep_timestamp_within(g2, e, cur, last, fuel),
    decreases fuel,
{
    lemma_same_events_len(g1, g2);
    lemma_ancestor_congruent(g1, g2, e, cur, g1.fuel());
    match g1.lookup(cur) {
        Some(crate::event::EventModel::Default { self_parent, .. }) => {
            if fuel > 0 {
                let last2 = if is_ancestor_spec(g1, e, cur) {
                    Some(crate::event::model_timestamp(g1.lookup(cur).unwrap()))
                } else {
                    last
                };
                lemma_rep_timestamp_congruent(g1, g2, e, self_parent, last2, (fuel - 1) as nat);
            }
        },
        _ => {},
    }
}

/// The collected representative timestamps read only the stored
/// events.
proof fn lemma_rep_timestamps_congruent(
    g1: GraphModel,
    g2: GraphModel,
    e: Seq<u8>,
    ws: Seq<Seq<u8>>,
    j: int,
)
    requires
        g1.inv(),
        g2.inv(),
        same_events(g1, g2),
    ensures
        crate::consensus::rep_timestamps_upto(g1, e, ws, j) == crate::consensus::rep_timestamps_upto(
            g2,
            e,
            ws,
            j,
        ),
    decreases j,
{
    lemma_same_events_len(g1, g2);
    if j <= 0 || j > ws.len() {
    } else {
        lemma_rep_timestamps_congruent(g1, g2, e, ws, j - 1);
        lemma_rep_timestamp_congruent(g1, g2, e, ws[j - 1], None, g1.fuel());
    }
}

/// The consensus timestamp reads only the stored events.
proof fn lemma_timestamp_congruent(g1: GraphModel, g2: GraphModel, e: Seq<u8>)
    requires
        g1.inv(),
        g2.inv(),
        same_events(g1, g2),
    ensures
        crate::consensus::consensus_timestamp_spec(g1, e) == crate::consensus::consensus_timestamp_spec(
            g2,
            e,
        ),
{
    lemma_round_received_congruent(g1, g2, e);
    match crate::consensus::round_received_spec(g1, e) {
        None => {},
        Some(r) => {
            lemma_ufw_congruent(g1, g2, r);
            let ufws = crate::fame::unique_famous_witnesses_spec(g1, r);
            lemma_rep_timestamps_congruent(g1, g2, e, ufws, ufws.len() as int);
        },
    }
}

/// Agreement: two peers holding the same events — the same peer count
/// and the same event under every hash, in whatever storage order —
/// order any pair of events identically, wherever the order is
/// defined.
pub proof fn lemma_consensus_agreement(g1: GraphModel, g2: GraphModel, a: Seq<u8>, b: Seq<u8>)
    requires
        g1.inv(),
        g2.inv(),
        same_events(g1, g2),
    ensures
        crate::consensus::consensus_ordering_spec(g1, a, b)
            == crate::consensus::consensus_ordering_spec(g2, a, b),
{
    lemma_round_received_congruent(g1, g2, a);
    lemma_round_received_congruent(g1, g2, b);
    lemma_timestamp_congruent(g1, g2, a);
    lemma_timestamp_congruent(g1, g2, b);
}

} // verus!
