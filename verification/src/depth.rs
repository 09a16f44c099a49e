use vstd::prelude::*;

use crate::event::EventModel;
use crate::graph::{lemma_contains_index, GraphModel};
use crate::ancestry::{ancestor_within, is_ancestor_spec, lemma_ancestor_monotone};

verus! {

/// Whether every parent path from the event under `h` stays in the
/// graph and reaches an Initial event within `n` steps.
pub open spec fn depth_bounded(g: GraphModel, h: Seq<u8>, n: nat) -> bool
    decreases n,
{
    match g.lookup(h) {
        None => false,
        Some(EventModel::Initial { .. }) => true,
        Some(EventModel::Default { self_parent, other_parent, .. }) => n > 0 && depth_bounded(
            g,
            self_parent,
            (n - 1) as nat,
        ) && depth_bounded(g, other_parent, (n - 1) as nat),
    }
}

/// A grounded graph: every stored event's parent paths stay in the
/// graph and ground in Initial events, within one step per stored
/// event — which covers every simple path. This is the invariant an
/// honest peer's graph keeps.
pub open spec fn grounded(g: GraphModel) -> bool {
    forall|i: int|
        0 <= i < g.entries.len() ==> depth_bounded(g, (#[trigger] g.entries[i]).0, g.fuel())
}

/// The least step bound of a grounded event: its height above the
/// Initial events.
pub open spec fn min_depth(g: GraphModel, h: Seq<u8>) -> nat {
    choose|n: nat|
        depth_bounded(g, h, n) && (forall|m: nat| m < n ==> !depth_bounded(g, h, m))
}

/// A bounded event has a least bound, and `min_depth` is it.
pub proof fn lemma_min_depth(g: GraphModel, h: Seq<u8>, n: nat)
    requires
        depth_bounded(g, h, n),
    ensures
        depth_bounded(g, h, min_depth(g, h)),
        min_depth(g, h) <= n,
        forall|m: nat| m < min_depth(g, h) ==> !depth_bounded(g, h, m),
    decreases n,
{
    if exists|m: nat| m < n && depth_bounded(g, h, m) {
        let m = choose|m: nat| m < n && depth_bounded(g, h, m);
        lemma_min_depth(g, h, m);
    } else {
        assert(depth_bounded(g, h, n) && (forall|m: nat| m < n ==> !depth_bounded(g, h, m)));
        let d = min_depth(g, h);
        assert(depth_bounded(g, h, d) && (forall|m: nat| m < d ==> !depth_bounded(g, h, m)));
        if d > n {
            assert(!depth_bounded(g, h, n));
        }
    }
}

/// In a grounded graph every stored event is bounded by the graph's
/// budget.
pub proof fn lemma_grounded_bounded(g: GraphModel, h: Seq<u8>)
    requires
        grounded(g),
        g.contains(h),
    ensures
        depth_bounded(g, h, g.fuel()),
        min_depth(g, h) <= g.fuel(),
        depth_bounded(g, h, min_depth(g, h)),
{
    lemma_contains_index(g, h);
    let i = choose|i: int|
        0 <= i < g.entries.len() && (#[trigger] g.entries[i]).0 == h && g.entries[i].1 == g.lookup(
            h,
        ).unwrap();
    assert(depth_bounded(g, g.entries[i].0, g.fuel()));
    lemma_min_depth(g, h, g.fuel());
}

/// The parents of a bounded Default event are bounded strictly lower.
pub proof fn lemma_parent_min_depth(g: GraphModel, h: Seq<u8>, p: Seq<u8>)
    requires
        depth_bounded(g, h, min_depth(g, h)),
        (g.lookup(h) matches Some(EventModel::Default { self_parent, other_parent, .. })
            && (p == self_parent || p == other_parent)),
    ensures
        depth_bounded(g, p, min_depth(g, p)),
        min_depth(g, p) < min_depth(g, h),
{
    let d = min_depth(g, h);
    assert(d > 0);
    assert(depth_bounded(g, p, (d - 1) as nat));
    lemma_min_depth(g, p, (d - 1) as nat);
}

/// A strict ancestor sits strictly lower than its bounded descendant.
pub proof fn lemma_ancestor_min_depth(g: GraphModel, x: Seq<u8>, y: Seq<u8>, k: nat)
    requires
        ancestor_within(g, x, y, k),
        depth_bounded(g, y, min_depth(g, y)),
        x != y,
    ensures
        depth_bounded(g, x, min_depth(g, x)),
        min_depth(g, x) < min_depth(g, y),
    decreases k,
{
    match g.lookup(y) {
        Some(EventModel::Default { self_parent, other_parent, .. }) => {
            if ancestor_within(g, x, self_parent, (k - 1) as nat) {
                lemma_parent_min_depth(g, y, self_parent);
                if x == self_parent {
                } else {
                    lemma_ancestor_min_depth(g, x, self_parent, (k - 1) as nat);
                }
            } else {
                lemma_parent_min_depth(g, y, other_parent);
                if x == other_parent {
                } else {
                    lemma_ancestor_min_depth(g, x, other_parent, (k - 1) as nat);
                }
            }
        },
        _ => {},
    }
}

/// Any parent path from a bounded event fits within the event's
/// bound.
pub proof fn lemma_ancestor_within_depth(g: GraphModel, x: Seq<u8>, y: Seq<u8>, k: nat, n: nat)
    requires
        ancestor_within(g, x, y, k),
        depth_bounded(g, y, n),
    ensures
        ancestor_within(g, x, y, n),
    decreases k,
{
    if x == y {
    } else {
        match g.lookup(y) {
            Some(EventModel::Default { self_parent, other_parent, .. }) => {
                if ancestor_within(g, x, self_parent, (k - 1) as nat) {
                    lemma_ancestor_within_depth(g, x, self_parent, (k - 1) as nat, (n - 1) as nat);
                } else {
                    lemma_ancestor_within_depth(g, x, other_parent, (k - 1) as nat, (n - 1) as nat);
                }
            },
            _ => {},
        }
    }
}

/// Ancestry composes: a parent path from `z` to `y` and one from `y`
/// to `x` join.
pub proof fn lemma_ancestor_transitive(
    g: GraphModel,
    x: Seq<u8>,
    y: Seq<u8>,
    z: Seq<u8>,
    a: nat,
    b: nat,
)
    requires
        ancestor_within(g, x, y, a),
        ancestor_within(g, y, z, b),
    ensures
        ancestor_within(g, x, z, (a + b) as nat),
    decreases b,
{
    if y == z {
        lemma_ancestor_monotone(g, x, y, a, (a + b) as nat);
    } else {
        match g.lookup(z) {
            Some(EventModel::Default { self_parent, other_parent, .. }) => {
                if ancestor_within(g, y, self_parent, (b - 1) as nat) {
                    lemma_ancestor_transitive(g, x, y, self_parent, a, (b - 1) as nat);
                } else {
                    lemma_ancestor_transitive(g, x, y, other_parent, a, (b - 1) as nat);
                }
            },
            _ => {},
        }
    }
}

/// In a grounded graph, mutually reachable events coincide.
pub proof fn lemma_ancestor_antisymmetric(g: GraphModel, x: Seq<u8>, y: Seq<u8>)
    requires
        is_ancestor_spec(g, x, y),
        is_ancestor_spec(g, y, x),
        depth_bounded(g, x, min_depth(g, x)),
        depth_bounded(g, y, min_depth(g, y)),
    ensures
        x == y,
{
    if x != y {
        lemma_ancestor_min_depth(g, x, y, g.fuel());
        lemma_ancestor_min_depth(g, y, x, g.fuel());
    }
}

} // verus!
