use vstd::prelude::*;

use crate::ancestry::{
    is_ancestor_spec, is_fork_spec, is_self_ancestor_spec, is_strict_ancestor_spec,
    is_strict_self_ancestor_spec, lemma_self_ancestor_same_creator,
    lemma_self_ancestor_within_implies_ancestor, seer_creators_upto, sees_spec,
    strongly_sees_spec,
};
use crate::depth::{
    depth_bounded, grounded, lemma_ancestor_antisymmetric, lemma_ancestor_min_depth,
    lemma_ancestor_transitive, lemma_ancestor_within_depth, lemma_grounded_bounded,
    lemma_parent_min_depth, min_depth,
};
use crate::event::EventModel;
use crate::graph::{creator_opt, lemma_index_lookup, GraphModel};
use crate::rounds::{round_opt, round_voter_creators, round_within};

verus! {

/// Ancestry is reflexive: every event is an ancestor and self-ancestor
/// of itself, and a strict ancestor of nothing equal to it.
pub proof fn lemma_ancestry_reflexive(g: GraphModel, e: Seq<u8>)
    ensures
        is_ancestor_spec(g, e, e),
        is_self_ancestor_spec(g, e, e),
        !is_strict_ancestor_spec(g, e, e),
        !is_strict_self_ancestor_spec(g, e, e),
{
}

/// Self-ancestry implies ancestry, and ties the two events to one
/// creator wherever the descendant's creator walk grounds.
pub proof fn lemma_self_ancestry_implies_ancestry(g: GraphModel, x: Seq<u8>, y: Seq<u8>)
    requires
        is_self_ancestor_spec(g, x, y),
    ensures
        is_ancestor_spec(g, x, y),
        creator_opt(g, y) is Some ==> creator_opt(g, x) == creator_opt(g, y),
{
    lemma_self_ancestor_within_implies_ancestor(g, x, y, g.fuel());
    if creator_opt(g, y) is Some {
        lemma_self_ancestor_same_creator(g, x, y, g.fuel(), g.fuel());
    }
}

/// Whether the entry at index `j` witnesses that `y` strongly sees
/// `x` through it.
spec fn seer_cond(g: GraphModel, x: Seq<u8>, y: Seq<u8>, j: int) -> bool {
    &&& 0 <= j < g.entries.len()
    &&& is_ancestor_spec(g, g.entries[j].0, y)
    &&& sees_spec(g, x, g.entries[j].0)
    &&& creator_opt(g, g.entries[j].0) is Some
}

/// Every creator counted among the seers has a witnessing entry.
proof fn lemma_seer_elem(g: GraphModel, x: Seq<u8>, y: Seq<u8>, k: int, p: u64)
    requires
        seer_creators_upto(g, x, y, k).contains(p),
    ensures
        exists|j: int|
            #[trigger] seer_cond(g, x, y, j) && j < k && creator_opt(g, g.entries[j].0) == Some(p),
    decreases k,
{
    broadcast use vstd::set::group_set_axioms;

    if k <= 0 {
    } else {
        let h = g.entries[k - 1].0;
        if k <= g.entries.len() && is_ancestor_spec(g, h, y) && sees_spec(g, x, h) && creator_opt(
            g,
            h,
        ) is Some && creator_opt(g, h) == Some(p) {
            assert(seer_cond(g, x, y, k - 1) && k - 1 < k && creator_opt(g, g.entries[k - 1].0)
                == Some(p));
        } else {
            lemma_seer_elem(g, x, y, k - 1, p);
        }
    }
}

/// The seer creator set is finite.
proof fn lemma_seer_finite(g: GraphModel, x: Seq<u8>, y: Seq<u8>, k: int)
    ensures
        seer_creators_upto(g, x, y, k).finite(),
    decreases k,
{
    broadcast use vstd::set::group_set_axioms;

    if k <= 0 {
    } else {
        lemma_seer_finite(g, x, y, k - 1);
    }
}

/// In a grounded graph of at least two peers, a strongly seen event
/// is a strict ancestor of its seer.
#[verifier::rlimit(100)]
proof fn lemma_strongly_sees_strict_ancestor(g: GraphModel, x: Seq<u8>, y: Seq<u8>)
    requires
        g.inv(),
        grounded(g),
        g.total_peers >= 2,
        strongly_sees_spec(g, x, y),
    ensures
        is_ancestor_spec(g, x, y),
        x != y,
{
    let s = seer_creators_upto(g, x, y, g.entries.len() as int);
    lemma_seer_finite(g, x, y, g.entries.len() as int);
    assert(3 * s.len() > 2 * g.total_peers);
    assert(s.len() >= 1);
    assert(exists|p: u64| s.contains(p)) by {
        if !(exists|p: u64| s.contains(p)) {
            assert(s =~= Set::<u64>::empty());
        }
    }
    let p = choose|p: u64| s.contains(p);
    lemma_seer_elem(g, x, y, g.entries.len() as int, p);
    let j = choose|j: int|
        #[trigger] seer_cond(g, x, y, j) && j < g.entries.len() && creator_opt(g, g.entries[j].0)
            == Some(p);
    let z = g.entries[j].0;
    lemma_index_lookup(g, j);
    lemma_grounded_bounded(g, z);
    // z is in the graph and is an ancestor of y, so y is in the graph
    // too, unless z and y coincide.
    if z != y {
        assert(g.contains(y)) by {
            lemma_ancestor_in_graph(g, z, y, g.fuel());
        }
    }
    assert(g.contains(y));
    lemma_grounded_bounded(g, y);
    // x reaches y through z.
    lemma_ancestor_transitive(g, x, z, y, g.fuel(), g.fuel());
    lemma_ancestor_within_depth(g, x, y, (g.fuel() + g.fuel()) as nat, min_depth(g, y));
    crate::ancestry::lemma_ancestor_monotone(g, x, y, min_depth(g, y), g.fuel());
    // Were x and y the same event, every seer would be that event
    // itself, leaving a single creator: no supermajority of two or
    // more peers.
    if x == y {
        let c = creator_opt(g, y);
        assert forall|q: u64| s.contains(q) implies q == c.unwrap() by {
            lemma_seer_elem(g, x, y, g.entries.len() as int, q);
            let jq = choose|jq: int|
                #[trigger] seer_cond(g, x, y, jq) && jq < g.entries.len() && creator_opt(
                    g,
                    g.entries[jq].0,
                ) == Some(q);
            let zq = g.entries[jq].0;
            lemma_index_lookup(g, jq);
            lemma_grounded_bounded(g, zq);
            lemma_ancestor_antisymmetric(g, zq, y);
        }
        assert(s.subset_of(Set::<u64>::empty().insert(c.unwrap())));
        vstd::set_lib::lemma_len_subset(s, Set::<u64>::empty().insert(c.unwrap()));
        assert(Set::<u64>::empty().insert(c.unwrap()).len() == 1);
        assert(3 * s.len() <= 3);
        assert(2 * g.total_peers >= 4);
        assert(false);
    }
}

/// A proper ancestor of an event that is in the graph pins its
/// descendant to the graph as well.
proof fn lemma_ancestor_in_graph(g: GraphModel, x: Seq<u8>, y: Seq<u8>, k: nat)
    requires
        crate::ancestry::ancestor_within(g, x, y, k),
        x != y,
    ensures
        g.contains(y),
    decreases k,
{
}

/// Round values stabilize once the step budget covers an event's
/// height: in a grounded graph of at least two peers, every event
/// strongly seen when assigning a round sits strictly lower, so the
/// budget threaded through the recursion never runs out.
#[verifier::rlimit(100)]
proof fn lemma_round_stable(g: GraphModel, h: Seq<u8>, n: nat)
    requires
        g.inv(),
        grounded(g),
        g.total_peers >= 2,
        g.contains(h),
        n >= min_depth(g, h),
    ensures
        round_within(g, h, n) == round_within(g, h, min_depth(g, h)),
        round_within(g, h, n) is Some,
    decreases min_depth(g, h), g.entries.len() + 1,
{
    lemma_grounded_bounded(g, h);
    let d = min_depth(g, h);
    match g.lookup(h) {
        Some(EventModel::Initial { .. }) => {},
        Some(EventModel::Default { self_parent, other_parent, .. }) => {
            assert(depth_bounded(g, h, d));
            assert(d > 0);
            lemma_parent_min_depth(g, h, self_parent);
            lemma_parent_min_depth(g, h, other_parent);
            assert(g.contains(self_parent));
            assert(g.contains(other_parent));
            lemma_round_stable(g, self_parent, (n - 1) as nat);
            lemma_round_stable(g, self_parent, (d - 1) as nat);
            lemma_round_stable(g, other_parent, (n - 1) as nat);
            lemma_round_stable(g, other_parent, (d - 1) as nat);
            let rs = round_within(g, self_parent, (n - 1) as nat);
            let ro = round_within(g, other_parent, (n - 1) as nat);
            let a = rs.unwrap();
            let b = ro.unwrap();
            let i = if a >= b {
                a
            } else {
                b
            };
            lemma_voters_stable(
                g,
                h,
                i,
                (n - 1) as nat,
                (d - 1) as nat,
                g.entries.len() as int,
            );
        },
        None => {},
    }
}

/// The voter creator set of the round rule does not depend on the
/// step budget, once the budget covers the event's height.
proof fn lemma_voters_stable(g: GraphModel, h: Seq<u8>, i: nat, n1: nat, n2: nat, k: int)
    requires
        g.inv(),
        grounded(g),
        g.total_peers >= 2,
        g.contains(h),
        depth_bounded(g, h, min_depth(g, h)),
        n1 + 1 >= min_depth(g, h),
        n2 + 1 >= min_depth(g, h),
    ensures
        round_voter_creators(g, h, i, n1, k) == round_voter_creators(g, h, i, n2, k),
    decreases min_depth(g, h), k,
{
    if k <= 0 || k > g.entries.len() {
    } else {
        lemma_voters_stable(g, h, i, n1, n2, k - 1);
        let w = g.entries[k - 1].0;
        if strongly_sees_spec(g, w, h) {
            lemma_strongly_sees_strict_ancestor(g, w, h);
            lemma_index_lookup(g, k - 1);
            lemma_grounded_bounded(g, w);
            lemma_ancestor_min_depth(g, w, h, g.fuel());
            lemma_round_stable(g, w, n1);
            lemma_round_stable(g, w, n2);
        }
    }
}

/// Round monotonicity: in a grounded graph of at least two peers,
/// every Default event's round is defined and at least the round of
/// each of its parents.
#[verifier::rlimit(100)]
pub proof fn lemma_round_monotonic(g: GraphModel, h: Seq<u8>)
    requires
        g.inv(),
        grounded(g),
        g.total_peers >= 2,
        g.contains(h),
    ensures
        round_opt(g, h) is Some,
        (match g.lookup(h) {
            Some(EventModel::Default { self_parent, other_parent, .. }) => {
                &&& round_opt(g, self_parent) is Some
                &&& round_opt(g, other_parent) is Some
                &&& round_opt(g, h).unwrap() >= round_opt(g, self_parent).unwrap()
                &&& round_opt(g, h).unwrap() >= round_opt(g, other_parent).unwrap()
            },
            _ => true,
        }),
{
    lemma_grounded_bounded(g, h);
    lemma_round_stable(g, h, g.fuel());
    match g.lookup(h) {
        Some(EventModel::Default { self_parent, other_parent, .. }) => {
            assert(depth_bounded(g, h, min_depth(g, h)));
            lemma_parent_min_depth(g, h, self_parent);
            lemma_parent_min_depth(g, h, other_parent);
            assert(g.fuel() >= 1);
            lemma_round_stable(g, self_parent, (g.fuel() - 1) as nat);
            lemma_round_stable(g, self_parent, g.fuel());
            lemma_round_stable(g, other_parent, (g.fuel() - 1) as nat);
            lemma_round_stable(g, other_parent, g.fuel());
        },
        _ => {},
    }
}

/// A graph without forks: no two stored events by one creator sit on
/// diverging self-parent chains.
pub open spec fn fork_free(g: GraphModel) -> bool {
    forall|a: Seq<u8>, b: Seq<u8>|
        g.contains(a) && g.contains(b) ==> !#[trigger] is_fork_spec(g, a, b)
}

/// Along a self-parent chain of stored events, rounds never decrease.
proof fn lemma_round_monotone_chain(g: GraphModel, x: Seq<u8>, y: Seq<u8>, k: nat)
    requires
        g.inv(),
        grounded(g),
        g.total_peers >= 2,
        g.contains(y),
        crate::ancestry::self_ancestor_within(g, x, y, k),
    ensures
        g.contains(x),
        round_opt(g, x) is Some,
        round_opt(g, y) is Some,
        round_opt(g, x).unwrap() <= round_opt(g, y).unwrap(),
    decreases k,
{
    lemma_grounded_bounded(g, y);
    lemma_round_stable(g, y, g.fuel());
    if x == y {
    } else {
        match g.lookup(y) {
            Some(EventModel::Default { self_parent, .. }) => {
                assert(depth_bounded(g, y, min_depth(g, y)));
                lemma_parent_min_depth(g, y, self_parent);
                lemma_round_monotonic(g, y);
                lemma_round_monotone_chain(g, x, self_parent, (k - 1) as nat);
            },
            _ => {},
        }
    }
}

/// Witness uniqueness: in a grounded, fork-free graph of at least two
/// peers, one creator has at most one witness in any round.
pub proof fn lemma_witness_unique(g: GraphModel, a: Seq<u8>, b: Seq<u8>, r: nat, p: u64)
    requires
        g.inv(),
        grounded(g),
        g.total_peers >= 2,
        fork_free(g),
        crate::rounds::is_witness_spec(g, a, r),
        crate::rounds::is_witness_spec(g, b, r),
        creator_opt(g, a) == Some(p),
        creator_opt(g, b) == Some(p),
    ensures
        a == b,
{
    if a != b {
        assert(!is_fork_spec(g, a, b));
        if is_self_ancestor_spec(g, a, b) {
            lemma_chain_forces_parent_round(g, a, b, r);
            assert(false);
        } else {
            assert(is_self_ancestor_spec(g, b, a));
            lemma_chain_forces_parent_round(g, b, a, r);
            assert(false);
        }
    }
}

/// A strict self-ancestor that is a witness of round `r` forces the
/// descendant's self-parent into round `r` as well: the rounds along
/// the chain between them can only grow, and the descendant caps them
/// at `r`.
proof fn lemma_chain_forces_parent_round(g: GraphModel, a: Seq<u8>, b: Seq<u8>, r: nat)
    requires
        g.inv(),
        grounded(g),
        g.total_peers >= 2,
        crate::rounds::is_witness_spec(g, a, r),
        g.contains(b),
        round_opt(g, b) == Some(r),
        is_self_ancestor_spec(g, a, b),
        a != b,
    ensures
        (match g.lookup(b) {
            Some(EventModel::Default { self_parent, .. }) => round_opt(g, self_parent) == Some(r),
            _ => true,
        }),
{
    match g.lookup(b) {
        Some(EventModel::Default { self_parent, .. }) => {
            assert(g.fuel() >= 1);
            assert(crate::ancestry::self_ancestor_within(g, a, self_parent, (g.fuel() - 1) as nat));
            lemma_grounded_bounded(g, b);
            assert(depth_bounded(g, b, min_depth(g, b)));
            lemma_parent_min_depth(g, b, self_parent);
            lemma_round_monotone_chain(g, a, self_parent, (g.fuel() - 1) as nat);
            lemma_round_monotonic(g, b);
        },
        _ => {},
    }
}

/// Witness existence: in a grounded graph of at least two peers, a
/// creator with an event in round `r` has a witness in round `r`.
pub proof fn lemma_witness_exists(g: GraphModel, h: Seq<u8>, r: nat, p: u64)
    requires
        g.inv(),
        grounded(g),
        g.total_peers >= 2,
        g.contains(h),
        creator_opt(g, h) == Some(p),
        round_opt(g, h) == Some(r),
    ensures
        exists|w: Seq<u8>|
            #[trigger] crate::rounds::is_witness_spec(g, w, r) && creator_opt(g, w) == Some(p),
    decreases min_depth(g, h),
{
    lemma_grounded_bounded(g, h);
    match g.lookup(h) {
        Some(EventModel::Initial { .. }) => {
            assert(r == 0);
            assert(crate::rounds::is_witness_spec(g, h, r));
        },
        Some(EventModel::Default { self_parent, .. }) => {
            if round_opt(g, self_parent) != Some(r) {
                assert(crate::rounds::is_witness_spec(g, h, r));
            } else {
                assert(depth_bounded(g, h, min_depth(g, h)));
                lemma_parent_min_depth(g, h, self_parent);
                assert(g.contains(self_parent));
                assert(creator_opt(g, self_parent) == Some(p)) by {
                    let f = g.fuel();
                    assert(crate::graph::chain_creator_within(g, h, f)
                        == crate::graph::chain_creator_within(g, self_parent, (f - 1) as nat));
                    crate::ancestry::lemma_creator_stable(g, self_parent, (f - 1) as nat, f);
                }
                lemma_witness_exists(g, self_parent, r, p);
            }
        },
        None => {},
    }
}

/// No round above the graph's budget holds witnesses: every round
/// value is bounded by the budget.
proof fn lemma_witnesses_empty_beyond(g: GraphModel, r: nat, k: int)
    requires
        r > g.fuel(),
    ensures
        crate::rounds::witness_keys_upto(g, r, k).len() == 0,
    decreases k,
{
    if k <= 0 || k > g.entries.len() {
    } else {
        lemma_witnesses_empty_beyond(g, r, k - 1);
        crate::rounds::lemma_round_bound(g, g.entries[k - 1].0, g.fuel());
    }
}

/// No round above the graph's budget decides any event: it has no
/// witnesses, hence no unique famous witnesses.
proof fn lemma_no_decision_beyond(g: GraphModel, e: Seq<u8>, r: nat)
    requires
        r > g.fuel(),
    ensures
        !crate::consensus::round_decides_spec(g, e, r),
{
    lemma_witnesses_empty_beyond(g, r, g.entries.len() as int);
    assert(crate::rounds::witnesses_spec(g, r).len() == 0);
    assert(crate::fame::famous_witnesses_spec(g, r).len() == 0);
    assert(crate::fame::unique_famous_witnesses_spec(g, r).len() == 0);
}

/// The search for the received round returns the least deciding round
/// at or above the start, and fails only when no round decides.
proof fn lemma_received_from_least(g: GraphModel, e: Seq<u8>, r: nat)
    ensures
        (match crate::consensus::received_from(g, e, r) {
            Some(v) => {
                &&& r <= v
                &&& crate::consensus::round_decides_spec(g, e, v)
                &&& forall|q: nat|
                    r <= q < v ==> !crate::consensus::round_decides_spec(g, e, q)
            },
            None => forall|q: nat| q >= r ==> !crate::consensus::round_decides_spec(g, e, q),
        }),
    decreases g.fuel() + 1 - r,
{
    if r > g.fuel() {
        assert forall|q: nat| q >= r implies !crate::consensus::round_decides_spec(g, e, q) by {
            lemma_no_decision_beyond(g, e, q);
        }
    } else if crate::consensus::round_decides_spec(g, e, r) {
    } else {
        lemma_received_from_least(g, e, r + 1);
    }
}

/// The received round is the smallest round, at or above the event's
/// own, whose unique famous witnesses all descend from the event; it
/// is nothing exactly while no round decides the event.
pub proof fn lemma_round_received_is_least(g: GraphModel, e: Seq<u8>)
    requires
        round_opt(g, e) is Some,
    ensures
        (match crate::consensus::round_received_spec(g, e) {
            Some(v) => {
                &&& round_opt(g, e).unwrap() <= v
                &&& crate::consensus::round_decides_spec(g, e, v)
                &&& forall|q: nat|
                    round_opt(g, e).unwrap() <= q < v ==> !crate::consensus::round_decides_spec(
                        g,
                        e,
                        q,
                    )
            },
            None => forall|q: nat|
                q >= round_opt(g, e).unwrap() ==> !crate::consensus::round_decides_spec(g, e, q),
        }),
{
    lemma_received_from_least(g, e, round_opt(g, e).unwrap());
}

/// Gossip round trip: the payload a peer sends — the concatenated
/// canonical forms of its stored events — always decodes back to
/// exactly those events.
pub proof fn lemma_gossip_payload_decodes(g: GraphModel)
    requires
        g.inv(),
    ensures
        crate::event::decode_stream(crate::graph::events_bytes_spec(g)) == Some(
            g.entries.map(|i: int, p: (Seq<u8>, EventModel)| p.1),
        ),
{
    let models = g.entries.map(|i: int, p: (Seq<u8>, EventModel)| p.1);
    assert forall|i: int| 0 <= i < models.len() implies crate::event::event_wf(
        #[trigger] models[i],
    ) by {
        assert(models[i] == g.entries[i].1);
    }
    crate::event::lemma_decode_stream_concat(models);
}

/// Fork detection is symmetric and never holds of an event paired with
/// itself.
pub proof fn lemma_fork_symmetric(g: GraphModel, x: Seq<u8>, y: Seq<u8>)
    ensures
        is_fork_spec(g, x, y) == is_fork_spec(g, y, x),
        !is_fork_spec(g, x, x),
{
}

} // verus!
