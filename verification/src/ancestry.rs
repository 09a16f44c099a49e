use vstd::prelude::*;

use crate::common;
use crate::event::{Event, EventModel};
use crate::graph::{
    chain_creator_within, creator_opt, lemma_contains_index, lemma_index_lookup, Graph, GraphModel,
};

verus! {

/// Whether `y` reaches `x` through parent edges within `fuel` steps:
/// `x` is `y` itself, or an ancestor of either parent of `y`.
pub open spec fn ancestor_within(g: GraphModel, x: Seq<u8>, y: Seq<u8>, fuel: nat) -> bool
    decreases fuel,
{
    x == y || (fuel > 0 && match g.lookup(y) {
        Some(EventModel::Default { self_parent, other_parent, .. }) => ancestor_within(
            g,
            x,
            self_parent,
            (fuel - 1) as nat,
        ) || ancestor_within(g, x, other_parent, (fuel - 1) as nat),
        _ => false,
    })
}

/// x ≤ y: `y` reaches `x` through parent edges. The budget of one step
/// per stored event covers every simple path, so on graphs whose parent
/// chains ground this is plain reachability.
pub open spec fn is_ancestor_spec(g: GraphModel, x: Seq<u8>, y: Seq<u8>) -> bool {
    ancestor_within(g, x, y, g.fuel())
}

/// x < y: a distinct ancestor.
pub open spec fn is_strict_ancestor_spec(g: GraphModel, x: Seq<u8>, y: Seq<u8>) -> bool {
    x != y && is_ancestor_spec(g, x, y)
}

/// Whether `y` reaches `x` through self-parent edges alone within
/// `fuel` steps.
pub open spec fn self_ancestor_within(g: GraphModel, x: Seq<u8>, y: Seq<u8>, fuel: nat) -> bool
    decreases fuel,
{
    x == y || (fuel > 0 && match g.lookup(y) {
        Some(EventModel::Default { self_parent, .. }) => self_ancestor_within(
            g,
            x,
            self_parent,
            (fuel - 1) as nat,
        ),
        _ => false,
    })
}

/// x ⊑ y: `y` reaches `x` along its self-parent chain.
pub open spec fn is_self_ancestor_spec(g: GraphModel, x: Seq<u8>, y: Seq<u8>) -> bool {
    self_ancestor_within(g, x, y, g.fuel())
}

/// x ⊏ y: a distinct self-ancestor.
pub open spec fn is_strict_self_ancestor_spec(g: GraphModel, x: Seq<u8>, y: Seq<u8>) -> bool {
    x != y && is_self_ancestor_spec(g, x, y)
}

/// Whether `x` and `y` are a fork: two events by one creator, neither
/// on the self-parent chain of the other.
pub open spec fn is_fork_spec(g: GraphModel, x: Seq<u8>, y: Seq<u8>) -> bool {
    &&& creator_opt(g, x) is Some
    &&& creator_opt(g, x) == creator_opt(g, y)
    &&& !is_self_ancestor_spec(g, x, y)
    &&& !is_self_ancestor_spec(g, y, x)
}

/// Whether two distinct stored events by `peer`, both ancestors of the
/// event under `e`, fork: evidence of that peer equivocating that is
/// visible from `e`.
pub open spec fn sees_dishonesty_spec(g: GraphModel, e: Seq<u8>, peer: u64) -> bool {
    exists|a: Seq<u8>, b: Seq<u8>|
        #![trigger is_fork_spec(g, a, b)]
        {
            &&& g.contains(a)
            &&& g.contains(b)
            &&& a != b
            &&& creator_opt(g, a) == Some(peer)
            &&& creator_opt(g, b) == Some(peer)
            &&& is_ancestor_spec(g, a, e)
            &&& is_ancestor_spec(g, b, e)
            &&& is_fork_spec(g, a, b)
        }
}

/// x ⊴ y: `y` sees `x` when `x` is its ancestor and `y` has not
/// observed the creator of `x` forking.
pub open spec fn sees_spec(g: GraphModel, x: Seq<u8>, y: Seq<u8>) -> bool {
    &&& is_ancestor_spec(g, x, y)
    &&& match creator_opt(g, x) {
        Some(p) => !sees_dishonesty_spec(g, y, p),
        None => false,
    }
}

/// The creators of the stored events among the first `i` entries that
/// are ancestors of `y` and see `x`.
pub open spec fn seer_creators_upto(g: GraphModel, x: Seq<u8>, y: Seq<u8>, i: int) -> Set<u64>
    decreases i,
{
    if i <= 0 {
        Set::<u64>::empty()
    } else {
        let prev = seer_creators_upto(g, x, y, i - 1);
        let h = g.entries[i - 1].0;
        if i <= g.entries.len() && is_ancestor_spec(g, h, y) && sees_spec(g, x, h) && creator_opt(
            g,
            h,
        ) is Some {
            prev.insert(creator_opt(g, h).unwrap())
        } else {
            prev
        }
    }
}

/// x ≪ y: `y` strongly sees `x` when the events that are ancestors of
/// `y` and see `x` span a supermajority of creators.
pub open spec fn strongly_sees_spec(g: GraphModel, x: Seq<u8>, y: Seq<u8>) -> bool {
    g.supermajority(seer_creators_upto(g, x, y, g.entries.len() as int).len() as int)
}

impl Graph {
    /// Recursive reachability through parent edges, budgeted by `fuel`.
    fn is_ancestor_fueled(&self, x: &common::Hash, y: &common::Hash, fuel: usize) -> (r: bool)
        ensures
            r == ancestor_within(self@, x@, y@, fuel as nat),
        decreases fuel,
    {
        if common::bytes_eq(x, y) {
            return true;
        }
        if fuel == 0 {
            return false;
        }
        match self.get_event_opt(y) {
            Some(Event::Default(ev)) => self.is_ancestor_fueled(x, &ev.self_parent, fuel - 1)
                || self.is_ancestor_fueled(x, &ev.other_parent, fuel - 1),
            _ => false,
        }
    }

    /// x ≤ y: whether the event under `y` reaches the event under `x`
    /// through parent edges.
    pub fn is_ancestor(&self, x: &common::Hash, y: &common::Hash) -> (r: bool)
        ensures
            r == is_ancestor_spec(self@, x@, y@),
    {
        let fuel = self.events.len();
        self.is_ancestor_fueled(x, y, fuel)
    }

    /// x < y: a distinct ancestor.
    pub fn is_strict_ancestor(&self, x: &common::Hash, y: &common::Hash) -> (r: bool)
        ensures
            r == is_strict_ancestor_spec(self@, x@, y@),
    {
        !common::bytes_eq(x, y) && self.is_ancestor(x, y)
    }

    /// x ⊑ y: whether the event under `y` reaches the event under `x`
    /// along its self-parent chain.
    pub fn is_self_ancestor(&self, x: &common::Hash, y: &common::Hash) -> (r: bool)
        ensures
            r == is_self_ancestor_spec(self@, x@, y@),
    {
        let ghost g = self@;
        let mut current: &common::Hash = y;
        let mut fuel = self.events.len();
        loop
            invariant
                g == self@,
                self_ancestor_within(g, x@, y@, g.fuel()) == self_ancestor_within(
                    g,
                    x@,
                    current@,
                    fuel as nat,
                ),
            decreases fuel,
        {
            if common::bytes_eq(current, x) {
                return true;
            }
            match self.get_event_opt(current) {
                Some(Event::Default(ev)) => {
                    if fuel == 0 {
                        return false;
                    }
                    current = &ev.self_parent;
                    fuel = fuel - 1;
                },
                _ => {
                    return false;
                },
            }
        }
    }

    /// x ⊏ y: a distinct self-ancestor.
    pub fn is_strict_self_ancestor(&self, x: &common::Hash, y: &common::Hash) -> (r: bool)
        ensures
            r == is_strict_self_ancestor_spec(self@, x@, y@),
    {
        !common::bytes_eq(x, y) && self.is_self_ancestor(x, y)
    }

    /// Whether the events under `x` and `y` are a fork: same creator,
    /// neither on the self-parent chain of the other. Events whose
    /// self-parent chain does not ground have no creator and form no
    /// fork.
    pub fn is_fork(&self, x: &common::Hash, y: &common::Hash) -> (r: bool)
        ensures
            r == is_fork_spec(self@, x@, y@),
    {
        let cx = match self.creator_checked(x) {
            Some(p) => p,
            None => {
                return false;
            },
        };
        let cy = match self.creator_checked(y) {
            Some(p) => p,
            None => {
                return false;
            },
        };
        cx == cy && !self.is_self_ancestor(x, y) && !self.is_self_ancestor(y, x)
    }

    /// Whether the event under `event_hash` can see dishonesty by
    /// `peer`: two forking events by `peer` are both its ancestors.
    pub fn can_see_dishonesty(&self, event_hash: &common::Hash, peer: u64) -> (r: bool)
        requires
            self@.inv(),
        ensures
            r == sees_dishonesty_spec(self@, event_hash@, peer),
    {
        let ghost g = self@;
        let n = self.events.len();
        let mut candidates: Vec<usize> = Vec::new();
        let mut i: usize = 0;
        while i < n
            invariant
                0 <= i <= n,
                n == self.events@.len(),
                g == self@,
                g.inv(),
                forall|k: int|
                    0 <= k < candidates@.len() ==> {
                        let c = #[trigger] candidates@[k];
                        &&& 0 <= c < n
                        &&& creator_opt(g, g.entries[c as int].0) == Some(peer)
                        &&& is_ancestor_spec(g, g.entries[c as int].0, event_hash@)
                    },
                forall|j: int|
                    0 <= j < i && creator_opt(g, (#[trigger] g.entries[j]).0) == Some(peer)
                        && is_ancestor_spec(g, g.entries[j].0, event_hash@) ==> candidates@.contains(
                        j as usize,
                    ),
            decreases n - i,
        {
            let is_candidate = match self.creator_checked(&self.events[i].0) {
                Some(p) => p == peer && self.is_ancestor(&self.events[i].0, event_hash),
                None => false,
            };
            proof {
                assert(g.entries[i as int].0 == self.events@[i as int].0@);
                assert(is_candidate == (creator_opt(g, g.entries[i as int].0) == Some(peer)
                    && is_ancestor_spec(g, g.entries[i as int].0, event_hash@)));
            }
            let ghost prev = candidates@;
            if is_candidate {
                candidates.push(i);
            }
            proof {
                assert forall|j: int|
                    0 <= j < i + 1 && creator_opt(g, (#[trigger] g.entries[j]).0) == Some(peer)
                        && is_ancestor_spec(g, g.entries[j].0, event_hash@) implies candidates@.contains(
                    j as usize,
                ) by {
                    if j < i {
                        assert(prev.contains(j as usize));
                        let k = choose|k: int| 0 <= k < prev.len() && prev[k] == j as usize;
                        assert(candidates@[k] == j as usize);
                    } else {
                        assert(is_candidate);
                        assert(candidates@[candidates@.len() - 1] == i as usize);
                    }
                }
            }
            i += 1;
        }
        let m = candidates.len();
        let mut p: usize = 0;
        while p < m
            invariant
                0 <= p <= m,
                m == candidates@.len(),
                n == self.events@.len(),
                g == self@,
                g.inv(),
                forall|k: int|
                    0 <= k < candidates@.len() ==> {
                        let c = #[trigger] candidates@[k];
                        &&& 0 <= c < n
                        &&& creator_opt(g, g.entries[c as int].0) == Some(peer)
                        &&& is_ancestor_spec(g, g.entries[c as int].0, event_hash@)
                    },
                forall|j: int|
                    0 <= j < n && creator_opt(g, (#[trigger] g.entries[j]).0) == Some(peer)
                        && is_ancestor_spec(g, g.entries[j].0, event_hash@) ==> candidates@.contains(
                        j as usize,
                    ),
                forall|a: int, b: int|
                    0 <= a < p && 0 <= b < candidates@.len() && a != b ==> !is_fork_spec(
                        g,
                        g.entries[candidates@[a] as int].0,
                        g.entries[candidates@[b] as int].0,
                    ),
            decreases m - p,
        {
            let mut q: usize = 0;
            while q < m
                invariant
                    0 <= q <= m,
                    0 <= p < m,
                    m == candidates@.len(),
                    n == self.events@.len(),
                    g == self@,
                    g.inv(),
                    forall|k: int|
                        0 <= k < candidates@.len() ==> {
                            let c = #[trigger] candidates@[k];
                            &&& 0 <= c < n
                            &&& creator_opt(g, g.entries[c as int].0) == Some(peer)
                            &&& is_ancestor_spec(g, g.entries[c as int].0, event_hash@)
                        },
                    forall|j: int|
                        0 <= j < n && creator_opt(g, (#[trigger] g.entries[j]).0) == Some(peer)
                            && is_ancestor_spec(g, g.entries[j].0, event_hash@)
                            ==> candidates@.contains(j as usize),
                    forall|a: int, b: int|
                        0 <= a < p && 0 <= b < candidates@.len() && a != b ==> !is_fork_spec(
                            g,
                            g.entries[candidates@[a] as int].0,
                            g.entries[candidates@[b] as int].0,
                        ),
                    forall|b: int|
                        0 <= b < q && b != p ==> !is_fork_spec(
                            g,
                            g.entries[candidates@[p as int] as int].0,
                            g.entries[candidates@[b] as int].0,
                        ),
                decreases m - q,
            {
                if q != p {
                    let ci = candidates[p];
                    let cj = candidates[q];
                    if self.is_fork(&self.events[ci].0, &self.events[cj].0) {
                        proof {
                            let a = g.entries[ci as int].0;
                            let b = g.entries[cj as int].0;
                            lemma_index_lookup(g, ci as int);
                            lemma_index_lookup(g, cj as int);
                            assert(a != b);
                            assert(is_fork_spec(g, a, b));
                        }
                        return true;
                    }
                }
                q += 1;
            }
            p += 1;
        }
        proof {
            assert(!sees_dishonesty_spec(g, event_hash@, peer)) by {
                if sees_dishonesty_spec(g, event_hash@, peer) {
                    let (a, b) = choose|a: Seq<u8>, b: Seq<u8>|
                        #![trigger is_fork_spec(g, a, b)]
                        {
                            &&& g.contains(a)
                            &&& g.contains(b)
                            &&& a != b
                            &&& creator_opt(g, a) == Some(peer)
                            &&& creator_opt(g, b) == Some(peer)
                            &&& is_ancestor_spec(g, a, event_hash@)
                            &&& is_ancestor_spec(g, b, event_hash@)
                            &&& is_fork_spec(g, a, b)
                        };
                    lemma_contains_index(g, a);
                    lemma_contains_index(g, b);
                    let ia = choose|ia: int|
                        0 <= ia < g.entries.len() && (#[trigger] g.entries[ia]).0 == a
                            && g.entries[ia].1 == g.lookup(a).unwrap();
                    let ib = choose|ib: int|
                        0 <= ib < g.entries.len() && (#[trigger] g.entries[ib]).0 == b
                            && g.entries[ib].1 == g.lookup(b).unwrap();
                    assert(candidates@.contains(ia as usize));
                    assert(candidates@.contains(ib as usize));
                    let pa = choose|pa: int|
                        0 <= pa < candidates@.len() && candidates@[pa] == ia as usize;
                    let pb = choose|pb: int|
                        0 <= pb < candidates@.len() && candidates@[pb] == ib as usize;
                    assert(ia != ib);
                    assert(pa != pb);
                    assert(!is_fork_spec(
                        g,
                        g.entries[candidates@[pa] as int].0,
                        g.entries[candidates@[pb] as int].0,
                    ));
                }
            }
        }
        false
    }

    /// x ⊴ y: whether the event under `y` sees the event under `x`.
    pub fn sees(&self, x: &common::Hash, y: &common::Hash) -> (r: bool)
        requires
            self@.inv(),
        ensures
            r == sees_spec(self@, x@, y@),
    {
        if !self.is_ancestor(x, y) {
            return false;
        }
        match self.creator_checked(x) {
            Some(p) => !self.can_see_dishonesty(y, p),
            None => false,
        }
    }

    /// x ≪ y: whether the event under `y` strongly sees the event
    /// under `x`: the stored events that are ancestors of `y` and see
    /// `x` span a supermajority of creators.
    pub fn strongly_sees(&self, x: &common::Hash, y: &common::Hash) -> (r: bool)
        requires
            self@.inv(),
        ensures
            r == strongly_sees_spec(self@, x@, y@),
    {
        let ghost g = self@;
        let n = self.events.len();
        let mut creators: Vec<u64> = Vec::new();
        let mut i: usize = 0;
        proof {
            assert(creators@.to_set() =~= seer_creators_upto(g, x@, y@, 0));
        }
        while i < n
            invariant
                0 <= i <= n,
                n == self.events@.len(),
                g == self@,
                g.inv(),
                creators@.no_duplicates(),
                creators@.to_set() == seer_creators_upto(g, x@, y@, i as int),
            decreases n - i,
        {
            let h = &self.events[i].0;
            proof {
                assert(g.entries[i as int].0 == self.events@[i as int].0@);
            }
            let keep = self.is_ancestor(h, y) && self.sees(x, h);
            if keep {
                match self.creator_checked(h) {
                    Some(p) => {
                        if !common::contains_u64(&creators, p) {
                            let ghost prev = creators@;
                            creators.push(p);
                            proof {
                                broadcast use vstd::seq_lib::lemma_seq_contains_after_push;

                                assert(creators@ == prev.push(p));
                                assert forall|a: int, b: int|
                                    0 <= a < creators@.len() && 0 <= b < creators@.len() && a != b
                                        implies creators@[a] != creators@[b] by {
                                    if a < prev.len() && b < prev.len() {
                                    } else if a == prev.len() && b < prev.len() {
                                        if creators@[a] == creators@[b] {
                                            assert(prev[b] == p);
                                            assert(prev.contains(p));
                                        }
                                    } else if b == prev.len() && a < prev.len() {
                                        if creators@[a] == creators@[b] {
                                            assert(prev[a] == p);
                                            assert(prev.contains(p));
                                        }
                                    }
                                }
                                assert(creators@.to_set() =~= prev.to_set().insert(p));
                            }
                        }
                    },
                    None => {},
                }
            }
            proof {
                assert(seer_creators_upto(g, x@, y@, i + 1) =~= creators@.to_set());
            }
            i += 1;
        }
        proof {
            creators@.unique_seq_to_set();
        }
        self.is_supermajority(creators.len())
    }
}

/// Reachability only grows with the step budget.
pub proof fn lemma_ancestor_monotone(g: GraphModel, x: Seq<u8>, y: Seq<u8>, n: nat, m: nat)
    requires
        ancestor_within(g, x, y, n),
        n <= m,
    ensures
        ancestor_within(g, x, y, m),
    decreases n,
{
    if x == y {
    } else {
        match g.lookup(y) {
            Some(EventModel::Default { self_parent, other_parent, .. }) => {
                if ancestor_within(g, x, self_parent, (n - 1) as nat) {
                    lemma_ancestor_monotone(g, x, self_parent, (n - 1) as nat, (m - 1) as nat);
                } else {
                    lemma_ancestor_monotone(g, x, other_parent, (n - 1) as nat, (m - 1) as nat);
                }
            },
            _ => {},
        }
    }
}

/// A creator walk that grounds keeps its answer under a larger budget.
pub proof fn lemma_creator_stable(g: GraphModel, h: Seq<u8>, n: nat, m: nat)
    requires
        chain_creator_within(g, h, n) is Some,
        n <= m,
    ensures
        chain_creator_within(g, h, m) == chain_creator_within(g, h, n),
    decreases n,
{
    match g.lookup(h) {
        Some(EventModel::Default { self_parent, .. }) => {
            lemma_creator_stable(g, self_parent, (n - 1) as nat, (m - 1) as nat);
        },
        _ => {},
    }
}

/// A step of self-ancestry is a step of ancestry.
pub proof fn lemma_self_ancestor_within_implies_ancestor(
    g: GraphModel,
    x: Seq<u8>,
    y: Seq<u8>,
    n: nat,
)
    requires
        self_ancestor_within(g, x, y, n),
    ensures
        ancestor_within(g, x, y, n),
    decreases n,
{
    if x == y {
    } else {
        match g.lookup(y) {
            Some(EventModel::Default { self_parent, .. }) => {
                lemma_self_ancestor_within_implies_ancestor(g, x, self_parent, (n - 1) as nat);
            },
            _ => {},
        }
    }
}

/// The creator walk from a descendant grounds through its
/// self-ancestor and agrees with the walk from there.
pub proof fn lemma_self_ancestor_same_creator(
    g: GraphModel,
    x: Seq<u8>,
    y: Seq<u8>,
    n: nat,
    m: nat,
)
    requires
        self_ancestor_within(g, x, y, n),
        chain_creator_within(g, y, m) is Some,
        n <= m,
    ensures
        chain_creator_within(g, x, m) == chain_creator_within(g, y, m),
    decreases n,
{
    if x == y {
    } else {
        match g.lookup(y) {
            Some(EventModel::Default { self_parent, .. }) => {
                lemma_self_ancestor_same_creator(g, x, self_parent, (n - 1) as nat, (m - 1) as nat);
                lemma_creator_stable(g, x, (m - 1) as nat, m);
                lemma_creator_stable(g, self_parent, (m - 1) as nat, m);
            },
            _ => {},
        }
    }
}

} // verus!
