use vstd::prelude::*;

use crate::common;
use crate::graph::{creator_opt, Graph, GraphModel};
use crate::ancestry::{is_strict_ancestor_spec, strongly_sees_spec};
use crate::rounds::{hash_views, round_opt, witnesses_spec};

verus! {

/// The outcome of polling one round of witnesses: a decision on the
/// candidate's fame, or the votes the round's witnesses carry forward.
#[verifier::ext_equal]
pub enum FameStep {
    Decided(bool),
    Undecided(Seq<bool>),
}

/// The bootstrap votes: each witness of the round after the candidate
/// votes yes exactly when the candidate is its strict ancestor.
pub open spec fn initial_votes_upto(g: GraphModel, w: Seq<u8>, pv: Seq<Seq<u8>>, j: int) -> Seq<
    bool,
>
    decreases j,
{
    if j <= 0 || j > pv.len() {
        Seq::<bool>::empty()
    } else {
        initial_votes_upto(g, w, pv, j - 1).push(is_strict_ancestor_spec(g, w, pv[j - 1]))
    }
}

/// The yes votes among the first `k` prior-round witnesses that
/// `voter` strongly sees.
pub open spec fn yes_count(
    g: GraphModel,
    voter: Seq<u8>,
    pv: Seq<Seq<u8>>,
    votes: Seq<bool>,
    k: int,
) -> int
    decreases k,
{
    if k <= 0 || k > pv.len() || k > votes.len() {
        0
    } else {
        yes_count(g, voter, pv, votes, k - 1) + if strongly_sees_spec(g, pv[k - 1], voter)
            && votes[k - 1] {
            1int
        } else {
            0int
        }
    }
}

/// The no votes among the first `k` prior-round witnesses that
/// `voter` strongly sees.
pub open spec fn no_count(
    g: GraphModel,
    voter: Seq<u8>,
    pv: Seq<Seq<u8>>,
    votes: Seq<bool>,
    k: int,
) -> int
    decreases k,
{
    if k <= 0 || k > pv.len() || k > votes.len() {
        0
    } else {
        no_count(g, voter, pv, votes, k - 1) + if strongly_sees_spec(g, pv[k - 1], voter)
            && !votes[k - 1] {
            1int
        } else {
            0int
        }
    }
}

/// Polls the voters from position `j` on: a voter that strongly sees a
/// supermajority of yes (or no) votes decides fame at once; otherwise
/// it votes with the simple majority it observes, ties voting yes.
pub open spec fn eval_voters_from(
    g: GraphModel,
    voters: Seq<Seq<u8>>,
    pv: Seq<Seq<u8>>,
    votes: Seq<bool>,
    j: int,
) -> FameStep
    decreases voters.len() - j,
{
    if j < 0 || j >= voters.len() {
        FameStep::Undecided(Seq::<bool>::empty())
    } else {
        let y = yes_count(g, voters[j], pv, votes, pv.len() as int);
        let n = no_count(g, voters[j], pv, votes, pv.len() as int);
        if g.supermajority(y) {
            FameStep::Decided(true)
        } else if g.supermajority(n) {
            FameStep::Decided(false)
        } else {
            match eval_voters_from(g, voters, pv, votes, j + 1) {
                FameStep::Decided(d) => FameStep::Decided(d),
                FameStep::Undecided(rest) => FameStep::Undecided(seq![y >= n] + rest),
            }
        }
    }
}

/// Runs fame voting from `round` on, given the previous round's
/// witnesses and their votes. A round without witnesses decides not
/// famous (the coin-round tie-breaker is deliberately omitted), and
/// rounds beyond the graph's budget hold no witnesses.
pub open spec fn fame_from(
    g: GraphModel,
    pv: Seq<Seq<u8>>,
    votes: Seq<bool>,
    round: nat,
    countdown: nat,
) -> bool
    decreases countdown,
{
    if countdown == 0 {
        false
    } else if round > g.fuel() {
        false
    } else {
        let voters = witnesses_spec(g, round);
        if voters.len() == 0 {
            false
        } else {
            match eval_voters_from(g, voters, pv, votes, 0) {
                FameStep::Decided(d) => d,
                FameStep::Undecided(new_votes) => fame_from(
                    g,
                    voters,
                    new_votes,
                    round + 1,
                    (countdown - 1) as nat,
                ),
            }
        }
    }
}

/// Whether the witness stored under `w` is famous: decided by polling
/// witness rounds above it, starting from the strict-ancestor votes of
/// the next round's witnesses.
pub open spec fn is_famous_spec(g: GraphModel, w: Seq<u8>) -> bool {
    match round_opt(g, w) {
        None => false,
        Some(r0) => {
            let pv = witnesses_spec(g, r0 + 1);
            let votes = initial_votes_upto(g, w, pv, pv.len() as int);
            fame_from(g, pv, votes, r0 + 2, g.fuel() + 1)
        },
    }
}

/// The famous ones among a sequence of witness hashes, in order.
pub open spec fn famous_upto(g: GraphModel, s: Seq<Seq<u8>>, j: int) -> Seq<Seq<u8>>
    decreases j,
{
    if j <= 0 || j > s.len() {
        Seq::<Seq<u8>>::empty()
    } else {
        let prev = famous_upto(g, s, j - 1);
        if is_famous_spec(g, s[j - 1]) {
            prev.push(s[j - 1])
        } else {
            prev
        }
    }
}

/// The hashes of the famous witnesses of round `r`, in storage order.
pub open spec fn famous_witnesses_spec(g: GraphModel, r: nat) -> Seq<Seq<u8>> {
    famous_upto(g, witnesses_spec(g, r), witnesses_spec(g, r).len() as int)
}

/// Folds one famous witness into the per-creator minima: the first
/// entry for its creator keeps the lexicographically smaller hash, and
/// a new creator is appended.
pub open spec fn assoc_update_min(list: Seq<(u64, Seq<u8>)>, p: u64, h: Seq<u8>) -> Seq<
    (u64, Seq<u8>),
>
    decreases list.len(),
{
    if list.len() == 0 {
        seq![(p, h)]
    } else if list[0].0 == p {
        if common::lex_lt(h, list[0].1) {
            seq![(p, h)] + list.skip(1)
        } else {
            list
        }
    } else {
        seq![list[0]] + assoc_update_min(list.skip(1), p, h)
    }
}

/// The per-creator minimum famous witnesses among the first `j` of a
/// famous-witness list, keyed by creator in order of first appearance.
/// A hash whose creator walk does not ground is passed over.
pub open spec fn ufw_fold(g: GraphModel, s: Seq<Seq<u8>>, j: int) -> Seq<(u64, Seq<u8>)>
    decreases j,
{
    if j <= 0 || j > s.len() {
        Seq::<(u64, Seq<u8>)>::empty()
    } else {
        let prev = ufw_fold(g, s, j - 1);
        match creator_opt(g, s[j - 1]) {
            Some(p) => assoc_update_min(prev, p, s[j - 1]),
            None => prev,
        }
    }
}

/// The hashes held by a per-creator association list.
pub open spec fn assoc_values(list: Seq<(u64, Seq<u8>)>) -> Seq<Seq<u8>> {
    list.map(|i: int, q: (u64, Seq<u8>)| q.1)
}

/// The hashes of the unique famous witnesses of round `r`: per
/// creator, the lexicographically least famous witness.
pub open spec fn unique_famous_witnesses_spec(g: GraphModel, r: nat) -> Seq<Seq<u8>> {
    assoc_values(
        ufw_fold(g, famous_witnesses_spec(g, r), famous_witnesses_spec(g, r).len() as int),
    )
}

/// The models of a per-creator association vector.
pub open spec fn assoc_views(s: Seq<(u64, common::Hash)>) -> Seq<(u64, Seq<u8>)> {
    s.map(|i: int, q: (u64, common::Hash)| (q.0, q.1@))
}

/// Updating the first entry of a matching creator realizes the
/// association-list fold.
proof fn lemma_assoc_update_found(list: Seq<(u64, Seq<u8>)>, p: u64, h: Seq<u8>, idx: int)
    requires
        0 <= idx < list.len(),
        list[idx].0 == p,
        forall|k: int| 0 <= k < idx ==> (#[trigger] list[k]).0 != p,
    ensures
        assoc_update_min(list, p, h) == (if common::lex_lt(h, list[idx].1) {
            list.update(idx, (p, h))
        } else {
            list
        }),
    decreases idx,
{
    if idx == 0 {
        if common::lex_lt(h, list[0].1) {
            assert(seq![(p, h)] + list.skip(1) =~= list.update(0, (p, h)));
        }
    } else {
        assert(list[0].0 != p);
        assert(list.skip(1)[idx - 1] == list[idx]);
        assert forall|k: int| 0 <= k < idx - 1 implies (#[trigger] list.skip(1)[k]).0 != p by {
            assert(list.skip(1)[k] == list[k + 1]);
        }
        lemma_assoc_update_found(list.skip(1), p, h, idx - 1);
        if common::lex_lt(h, list[idx].1) {
            assert(seq![list[0]] + list.skip(1).update(idx - 1, (p, h)) =~= list.update(
                idx,
                (p, h),
            ));
        } else {
            assert(seq![list[0]] + list.skip(1) =~= list);
        }
    }
}

/// A creator absent from the list is appended.
proof fn lemma_assoc_update_absent(list: Seq<(u64, Seq<u8>)>, p: u64, h: Seq<u8>)
    requires
        forall|k: int| 0 <= k < list.len() ==> (#[trigger] list[k]).0 != p,
    ensures
        assoc_update_min(list, p, h) == list.push((p, h)),
    decreases list.len(),
{
    if list.len() == 0 {
        assert(seq![(p, h)] =~= list.push((p, h)));
    } else {
        assert forall|k: int| 0 <= k < list.skip(1).len() implies (#[trigger] list.skip(1)[k]).0
            != p by {
            assert(list.skip(1)[k] == list[k + 1]);
        }
        lemma_assoc_update_absent(list.skip(1), p, h);
        assert(seq![list[0]] + list.skip(1).push((p, h)) =~= list.push((p, h)));
    }
}

/// The first position whose entry is keyed by creator `p`, if any.
fn find_creator(best: &Vec<(u64, common::Hash)>, p: u64) -> (r: Option<usize>)
    ensures
        (match r {
            Some(i) => i < best@.len() && best@[i as int].0 == p && forall|k: int|
                0 <= k < i ==> (#[trigger] best@[k]).0 != p,
            None => forall|k: int| 0 <= k < best@.len() ==> (#[trigger] best@[k]).0 != p,
        }),
{
    let m = best.len();
    let mut idx: usize = 0;
    while idx < m
        invariant
            0 <= idx <= m,
            m == best@.len(),
            forall|k: int| 0 <= k < idx ==> (#[trigger] best@[k]).0 != p,
        decreases m - idx,
    {
        if best[idx].0 == p {
            return Some(idx);
        }
        idx += 1;
    }
    None
}

impl Graph {
    /// Whether the witness stored under `candidate` is famous, by the
    /// round-by-round voting of the witnesses above it.
    fn is_famous(&self, candidate: &common::Hash) -> (r: bool)
        requires
            self@.inv(),
        ensures
            r == is_famous_spec(self@, candidate@),
    {
        let ghost g = self@;
        let r0 = match self.round_checked(candidate) {
            Some(v) => v,
            None => {
                return false;
            },
        };
        let fuel = self.events.len();
        if r0 >= u64::MAX - 1 {
            proof {
                assert(r0 as nat + 2 > g.fuel());
            }
            return false;
        }
        let mut prev_voters = self.witnesses(r0 + 1);
        let mut prev_votes: Vec<bool> = Vec::new();
        let pn = prev_voters.len();
        let mut jj: usize = 0;
        while jj < pn
            invariant
                0 <= jj <= pn,
                pn == prev_voters@.len(),
                g == self@,
                g.inv(),
                prev_votes@.len() == jj,
                prev_votes@ == initial_votes_upto(g, candidate@, hash_views(prev_voters@), jj as int),
            decreases pn - jj,
        {
            proof {
                assert(hash_views(prev_voters@)[jj as int] == prev_voters@[jj as int]@);
            }
            let vote = self.is_strict_ancestor(candidate, &prev_voters[jj]);
            prev_votes.push(vote);
            jj += 1;
        }
        let mut round: u128 = r0 as u128 + 2;
        let mut countdown: u128 = fuel as u128 + 1;
        proof {
            assert(is_famous_spec(g, candidate@) == fame_from(
                g,
                hash_views(prev_voters@),
                prev_votes@,
                round as nat,
                countdown as nat,
            ));
        }
        loop
            invariant
                g == self@,
                g.inv(),
                prev_votes@.len() == prev_voters@.len(),
                fuel == g.fuel(),
                is_famous_spec(g, candidate@) == fame_from(
                    g,
                    hash_views(prev_voters@),
                    prev_votes@,
                    round as nat,
                    countdown as nat,
                ),
            decreases countdown,
        {
            if countdown == 0 {
                return false;
            }
            if round > fuel as u128 {
                return false;
            }
            let voters = self.witnesses(round as u64);
            let ghost vv = hash_views(voters@);
            proof {
                assert(round as u64 as nat == round as nat);
                assert(vv == witnesses_spec(g, round as nat));
            }
            let vn = voters.len();
            if vn == 0 {
                return false;
            }
            let mut votes: Vec<bool> = Vec::new();
            let mut j: usize = 0;
            proof {
                assert(eval_voters_from(g, vv, hash_views(prev_voters@), prev_votes@, 0) == (
                match eval_voters_from(g, vv, hash_views(prev_voters@), prev_votes@, 0) {
                    FameStep::Decided(d) => FameStep::Decided(d),
                    FameStep::Undecided(rest) => FameStep::Undecided(votes@ + rest),
                })) by {
                    match eval_voters_from(g, vv, hash_views(prev_voters@), prev_votes@, 0) {
                        FameStep::Decided(d) => {},
                        FameStep::Undecided(rest) => {
                            assert(votes@ + rest =~= rest);
                        },
                    }
                }
            }
            while j < vn
                invariant
                    0 <= j <= vn,
                    0 < vn == voters@.len(),
                    g == self@,
                    g.inv(),
                    vv == hash_views(voters@),
                    prev_votes@.len() == prev_voters@.len(),
                    votes@.len() == j,
                    fuel == g.fuel(),
                    countdown > 0,
                    round <= fuel as u128,
                    vv == witnesses_spec(g, round as nat),
                    is_famous_spec(g, candidate@) == fame_from(
                        g,
                        hash_views(prev_voters@),
                        prev_votes@,
                        round as nat,
                        countdown as nat,
                    ),
                    eval_voters_from(g, vv, hash_views(prev_voters@), prev_votes@, 0) == (
                    match eval_voters_from(g, vv, hash_views(prev_voters@), prev_votes@, j as int) {
                        FameStep::Decided(d) => FameStep::Decided(d),
                        FameStep::Undecided(rest) => FameStep::Undecided(votes@ + rest),
                    }),
                decreases vn - j,
            {
                let ghost pvv = hash_views(prev_voters@);
                let ghost pvs = prev_votes@;
                proof {
                    assert(vv[j as int] == voters@[j as int]@);
                }
                let pm = prev_voters.len();
                let mut yes: usize = 0;
                let mut no: usize = 0;
                let mut k: usize = 0;
                while k < pm
                    invariant
                        0 <= k <= pm,
                        pm == prev_voters@.len(),
                        pm == prev_votes@.len(),
                        g == self@,
                        g.inv(),
                        j < voters@.len(),
                        vv == hash_views(voters@),
                        pvv == hash_views(prev_voters@),
                        pvs == prev_votes@,
                        yes + no <= k,
                        yes == yes_count(g, vv[j as int], pvv, pvs, k as int),
                        no == no_count(g, vv[j as int], pvv, pvs, k as int),
                    decreases pm - k,
                {
                    proof {
                        assert(pvv[k as int] == prev_voters@[k as int]@);
                    }
                    if self.strongly_sees(&prev_voters[k], &voters[j]) {
                        if prev_votes[k] {
                            yes += 1;
                        } else {
                            no += 1;
                        }
                    }
                    k += 1;
                }
                if self.is_supermajority(yes) {
                    proof {
                        assert(eval_voters_from(g, vv, pvv, pvs, j as int) == FameStep::Decided(
                            true,
                        ));
                        assert(eval_voters_from(g, vv, pvv, pvs, 0) == FameStep::Decided(true));
                        assert(fame_from(g, pvv, pvs, round as nat, countdown as nat) == true);
                    }
                    return true;
                }
                if self.is_supermajority(no) {
                    proof {
                        assert(eval_voters_from(g, vv, pvv, pvs, j as int) == FameStep::Decided(
                            false,
                        ));
                        assert(eval_voters_from(g, vv, pvv, pvs, 0) == FameStep::Decided(false));
                        assert(fame_from(g, pvv, pvs, round as nat, countdown as nat) == false);
                    }
                    return false;
                }
                let ghost votes_before = votes@;
                votes.push(yes >= no);
                proof {
                    match eval_voters_from(g, vv, pvv, pvs, j + 1) {
                        FameStep::Decided(d) => {},
                        FameStep::Undecided(rest) => {
                            assert(eval_voters_from(g, vv, pvv, pvs, j as int)
                                == FameStep::Undecided(seq![yes >= no] + rest));
                            assert(votes_before + (seq![yes >= no] + rest) =~= votes@ + rest);
                        },
                    }
                }
                j += 1;
            }
            proof {
                assert(eval_voters_from(g, vv, hash_views(prev_voters@), prev_votes@, vn as int)
                    == FameStep::Undecided(Seq::<bool>::empty()));
                assert(votes@ + Seq::<bool>::empty() =~= votes@);
                assert(eval_voters_from(g, vv, hash_views(prev_voters@), prev_votes@, 0)
                    == FameStep::Undecided(votes@));
            }
            prev_voters = voters;
            prev_votes = votes;
            round = round + 1;
            countdown = countdown - 1;
        }
    }

    /// The hashes of the famous witnesses of round `round`, in storage
    /// order.
    pub fn famous_witnesses(&self, round: u64) -> (r: Vec<common::Hash>)
        requires
            self@.inv(),
        ensures
            hash_views(r@) == famous_witnesses_spec(self@, round as nat),
    {
        let ghost g = self@;
        let ws = self.witnesses(round);
        let ghost wv = hash_views(ws@);
        let n = ws.len();
        let mut out: Vec<common::Hash> = Vec::new();
        let mut j: usize = 0;
        proof {
            assert(hash_views(out@) =~= famous_upto(g, wv, 0));
        }
        while j < n
            invariant
                0 <= j <= n,
                n == ws@.len(),
                g == self@,
                g.inv(),
                wv == hash_views(ws@),
                hash_views(out@) == famous_upto(g, wv, j as int),
            decreases n - j,
        {
            proof {
                assert(wv[j as int] == ws@[j as int]@);
            }
            if self.is_famous(&ws[j]) {
                let ghost prev = out@;
                out.push(common::clone_bytes(&ws[j]));
                proof {
                    assert(hash_views(out@) =~= hash_views(prev).push(wv[j as int]));
                }
            }
            proof {
                assert(famous_upto(g, wv, j + 1) =~= hash_views(out@));
            }
            j += 1;
        }
        out
    }

    /// The hashes of the unique famous witnesses of round `round`: per
    /// creator, the lexicographically least famous witness, in order
    /// of the creators' first appearance.
    pub fn unique_famous_witnesses(&self, round: u64) -> (r: Vec<common::Hash>)
        requires
            self@.inv(),
        ensures
            hash_views(r@) == unique_famous_witnesses_spec(self@, round as nat),
    {
        let ghost g = self@;
        let fs = self.famous_witnesses(round);
        let ghost fv = hash_views(fs@);
        let n = fs.len();
        let mut best: Vec<(u64, common::Hash)> = Vec::new();
        let mut j: usize = 0;
        proof {
            assert(assoc_views(best@) =~= ufw_fold(g, fv, 0));
        }
        while j < n
            invariant
                0 <= j <= n,
                n == fs@.len(),
                g == self@,
                g.inv(),
                fv == hash_views(fs@),
                assoc_views(best@) == ufw_fold(g, fv, j as int),
            decreases n - j,
        {
            proof {
                assert(fv[j as int] == fs@[j as int]@);
            }
            match self.creator_checked(&fs[j]) {
                None => {},
                Some(p) => {
                    let found = find_creator(&best, p);
                    let ghost prev = assoc_views(best@);
                    if let Some(idx) = found {
                        proof {
                            assert(prev[idx as int].0 == p);
                            assert forall|k: int| 0 <= k < idx implies (#[trigger] prev[k]).0
                                != p by {
                                assert(prev[k].0 == best@[k].0);
                            }
                            lemma_assoc_update_found(prev, p, fv[j as int], idx as int);
                        }
                        if common::bytes_lex_lt(&fs[j], &best[idx].1) {
                            best[idx] = (p, common::clone_bytes(&fs[j]));
                            proof {
                                assert(assoc_views(best@) =~= prev.update(
                                    idx as int,
                                    (p, fv[j as int]),
                                ));
                            }
                        }
                    } else {
                        proof {
                            assert forall|k: int| 0 <= k < prev.len() implies (#[trigger] prev[k]).0
                                != p by {
                                assert(prev[k].0 == best@[k].0);
                            }
                            lemma_assoc_update_absent(prev, p, fv[j as int]);
                        }
                        best.push((p, common::clone_bytes(&fs[j])));
                        proof {
                            assert(assoc_views(best@) =~= prev.push((p, fv[j as int])));
                        }
                    }
                },
            }
            proof {
                assert(ufw_fold(g, fv, j + 1) =~= assoc_views(best@));
            }
            j += 1;
        }
        let m = best.len();
        let mut out: Vec<common::Hash> = Vec::new();
        let mut k: usize = 0;
        proof {
            assert(hash_views(out@) =~= assoc_values(assoc_views(best@)).take(0));
        }
        while k < m
            invariant
                0 <= k <= m,
                m == best@.len(),
                hash_views(out@) == assoc_values(assoc_views(best@)).take(k as int),
            decreases m - k,
        {
            let ghost prev = out@;
            let ghost av = assoc_values(assoc_views(best@));
            out.push(common::clone_bytes(&best[k].1));
            proof {
                assert(assoc_views(best@)[k as int] == (best@[k as int].0, best@[k as int].1@));
                assert(av[k as int] == best@[k as int].1@);
                assert(hash_views(out@) =~= hash_views(prev).push(best@[k as int].1@));
                assert(av.take(k + 1) =~= av.take(k as int).push(av[k as int]));
                assert(hash_views(out@) =~= av.take(k + 1));
            }
            k += 1;
        }
        proof {
            assert(assoc_values(assoc_views(best@)).take(m as int) =~= assoc_values(
                assoc_views(best@),
            ));
        }
        out
    }
}

} // verus!
