//! The social network and the election procedures over it.
//!
//! A `WattsStrogatz` network owns the agent arena and builds the
//! small-world friendship topology.  An election runs one or two voting
//! rounds over the arena and reports the winner and the per-party
//! tallies.

use vstd::prelude::*;

use std::collections::HashMap;

use crate::agent::{Agent, AgentView};
use crate::election::{
    count_current, count_last, election_ready, full_order, lemma_count_current_bound,
    lemma_top_two_are_top, lemma_winner_index_is_max, round_ready, run_round, same_but_votes,
    top_two_spec, update_previous_votes, winner_index,
};
use crate::errors::ElectionError;
use crate::numeric::{sum_seq, MAX_CHOICES, SCALE};
use crate::agent::{TRAIT_MEAN, TRAIT_SD};
use crate::party::Parties;
use crate::probability::{Preferences, Probability};
use crate::rng::{rng_below, sample_normal};

verus! {

broadcast use vstd::std_specs::hash::group_hash_axioms;

/// The voting procedure to run for one election.
#[derive(PartialEq, Eq, Structural)]
pub enum VotingSystem {
    /// First past the post: a single plurality round.
    FPTP,
    /// Two-round system: a first round narrows the field to two, a
    /// runoff decides.
    TwoRound,
}

/// The outcome of an election: the winner (and, for a runoff, the
/// first-round runner-up) and the per-party vote counts of each round.
#[derive(Debug)]
pub enum ElectionResult {
    FPTP(usize, HashMap<usize, usize>),
    TwoRound(usize, usize, (HashMap<usize, usize>, HashMap<usize, usize>)),
}

/// Returns (a + b) mod m.
pub fn wrapping_add(a: usize, b: usize, m: usize) -> (r: usize)
    requires
        m >= 1,
        a + b <= usize::MAX,
    ensures
        r as int == (a + b) % (m as int),
        r < m,
{
    (a + b) % m
}

/// Returns (a - b) mod m, assuming a > -m.
pub fn wrapping_sub(a: usize, b: usize, m: usize) -> (r: usize)
    requires
        m >= 1,
        a + m <= usize::MAX,
    ensures
        r as int == (a + m - (b as int) % (m as int)) % (m as int),
        r < m,
{
    (a + m - (b % m)) % m
}

/// The floor of e^k for small k; k of 45 and above exceeds every u64,
/// so any node count passes the logarithm test there.
pub open spec fn exp_floor(k: int) -> int {
    if k <= 0 { 1 }
    else if k == 1 { 2 }
    else if k == 2 { 7 }
    else if k == 3 { 20 }
    else if k == 4 { 54 }
    else if k == 5 { 148 }
    else if k == 6 { 403 }
    else if k == 7 { 1096 }
    else if k == 8 { 2980 }
    else if k == 9 { 8103 }
    else if k == 10 { 22026 }
    else if k == 11 { 59874 }
    else if k == 12 { 162754 }
    else if k == 13 { 442413 }
    else if k == 14 { 1202604 }
    else if k == 15 { 3269017 }
    else if k == 16 { 8886110 }
    else if k == 17 { 24154952 }
    else if k == 18 { 65659969 }
    else if k == 19 { 178482300 }
    else if k == 20 { 485165195 }
    else if k == 21 { 1318815734 }
    else if k == 22 { 3584912846 }
    else if k == 23 { 9744803446 }
    else if k == 24 { 26489122129 }
    else if k == 25 { 72004899337 }
    else if k == 26 { 195729609428 }
    else if k == 27 { 532048240601 }
    else if k == 28 { 1446257064291 }
    else if k == 29 { 3931334297144 }
    else if k == 30 { 10686474581524 }
    else if k == 31 { 29048849665247 }
    else if k == 32 { 78962960182680 }
    else if k == 33 { 214643579785916 }
    else if k == 34 { 583461742527454 }
    else if k == 35 { 1586013452313430 }
    else if k == 36 { 4311231547115195 }
    else if k == 37 { 11719142372802611 }
    else if k == 38 { 31855931757113756 }
    else if k == 39 { 86593400423993746 }
    else if k == 40 { 235385266837019985 }
    else if k == 41 { 639843493530054949 }
    else if k == 42 { 1739274941520501047 }
    else if k == 43 { 4727839468229346561 }
    else if k == 44 { 12851600114359308275 }
    else { 0xffff_ffff_ffff_ffff }
}

/// The natural logarithm of `n` is at most `k`: as both are integers
/// and e^k is irrational, this is exactly `n <= floor(e^k)`.
pub open spec fn ln_le(n: int, k: int) -> bool {
    k >= 45 || n <= exp_floor(k)
}

/// The Watts-Strogatz validity conditions: the mean degree K is even,
/// the rewiring probability lies in [0, 1], and N >= K >= ln N >= 1
/// (the last holding exactly when N >= 3).
pub open spec fn valid_ws_params(num_nodes: int, mean_degree: int, beta: int) -> bool {
    &&& mean_degree % 2 == 0
    &&& 0 <= beta <= SCALE
    &&& mean_degree <= num_nodes
    &&& 3 <= num_nodes
    &&& ln_le(num_nodes, mean_degree)
}

/// The executable mirror of `exp_floor`.
fn exp_floor_exec(k: usize) -> (r: u64)
    ensures
        r as int == exp_floor(k as int),
{
    match k {
        0 => 1,
        1 => 2,
        2 => 7,
        3 => 20,
        4 => 54,
        5 => 148,
        6 => 403,
        7 => 1096,
        8 => 2980,
        9 => 8103,
        10 => 22026,
        11 => 59874,
        12 => 162754,
        13 => 442413,
        14 => 1202604,
        15 => 3269017,
        16 => 8886110,
        17 => 24154952,
        18 => 65659969,
        19 => 178482300,
        20 => 485165195,
        21 => 1318815734,
        22 => 3584912846,
        23 => 9744803446,
        24 => 26489122129,
        25 => 72004899337,
        26 => 195729609428,
        27 => 532048240601,
        28 => 1446257064291,
        29 => 3931334297144,
        30 => 10686474581524,
        31 => 29048849665247,
        32 => 78962960182680,
        33 => 214643579785916,
        34 => 583461742527454,
        35 => 1586013452313430,
        36 => 4311231547115195,
        37 => 11719142372802611,
        38 => 31855931757113756,
        39 => 86593400423993746,
        40 => 235385266837019985,
        41 => 639843493530054949,
        42 => 1739274941520501047,
        43 => 4727839468229346561,
        44 => 12851600114359308275,
        _ => 0xffff_ffff_ffff_ffff,
    }
}

/// Checks the Watts-Strogatz validity conditions.
fn ws_params_ok(num_nodes: usize, mean_degree: usize, beta: i64) -> (b: bool)
    ensures
        b == valid_ws_params(num_nodes as int, mean_degree as int, beta as int),
{
    if mean_degree % 2 != 0 {
        return false;
    }
    if beta < 0 || beta > SCALE as i64 {
        return false;
    }
    if num_nodes < mean_degree || num_nodes < 3 {
        return false;
    }
    if mean_degree >= 45 {
        return true;
    }
    (num_nodes as u64) <= exp_floor_exec(mean_degree)
}

/// The last tally index with the highest count: with a `>=` comparison
/// scanning ascending, ties break in favour of the later candidate.
pub fn find_winner(votes: &Vec<u64>) -> (w: usize)
    requires
        votes@.len() >= 1,
    ensures
        w < votes@.len(),
        w as int == winner_index(votes@),
        forall|j: int| 0 <= j < votes@.len() ==> votes@[j] <= votes@[w as int],
        forall|j: int| (w as int) < j < votes@.len() ==> votes@[j] < votes@[w as int],
{
    let n: usize = votes.len();
    let mut w: usize = 0;
    let mut i: usize = 1;
    while i < n
        invariant
            votes@.len() == n >= 1,
            1 <= i <= n,
            w < i,
            w as int == winner_index(votes@.take(i as int)),
        decreases n - i,
    {
        proof {
            assert(votes@.take(i + 1).drop_last() =~= votes@.take(i as int));
        }
        if votes[i] >= votes[w] {
            w = i;
        }
        i = i + 1;
    }
    proof {
        assert(votes@.take(n as int) =~= votes@);
        assert forall|j: int| 0 <= j < votes@.len() implies votes@[j] <= votes@[w as int] by {
            lemma_winner_index_is_max(votes@, j);
        }
        assert forall|j: int| (w as int) < j < votes@.len() implies votes@[j] < votes@[w as int] by {
            lemma_winner_index_is_max(votes@, j);
        }
    }
    w
}

/// The winner and runner-up indices of a first-round tally, by the
/// `>=` forward scan.
pub fn top_two(votes: &Vec<u64>) -> (r: (usize, usize))
    requires
        votes@.len() >= 2,
    ensures
        r.0 < votes@.len(),
        r.1 < votes@.len(),
        r.0 != r.1,
        r.0 as int == top_two_spec(votes@).0,
        r.1 as int == top_two_spec(votes@).1,
{
    let n: usize = votes.len();
    let mut w: usize = if votes[0] > votes[1] {
        0
    } else {
        1
    };
    let mut ru: usize = if votes[0] > votes[1] {
        1
    } else {
        0
    };
    let mut i: usize = 2;
    while i < n
        invariant
            votes@.len() == n >= 2,
            2 <= i <= n,
            w < i,
            ru < i,
            w as int == top_two_spec(votes@.take(i as int)).0,
            ru as int == top_two_spec(votes@.take(i as int)).1,
        decreases n - i,
    {
        proof {
            assert(votes@.take(i + 1).drop_last() =~= votes@.take(i as int));
        }
        if votes[i] >= votes[w] {
            ru = w;
            w = i;
        } else if votes[i] >= votes[ru] {
            ru = i;
        }
        i = i + 1;
    }
    proof {
        assert(votes@.take(n as int) =~= votes@);
        lemma_top_two_are_top(votes@);
    }
    (w, ru)
}

/// Builds the per-party result map from a candidate order and its
/// parallel tally.
fn tally_map(order: &Vec<usize>, votes: &Vec<u64>) -> (m: HashMap<usize, usize>)
    requires
        order@.len() == votes@.len(),
        forall|i: int, j: int| 0 <= i < j < order@.len() ==> order@[i] != order@[j],
        forall|i: int| 0 <= i < votes@.len() ==> votes@[i] <= usize::MAX,
    ensures
        forall|p: usize| #[trigger] m@.contains_key(p) <==> order@.contains(p),
        forall|i: int| 0 <= i < order@.len() ==> m@[order@[i]] as int == votes@[i],
{
    let n: usize = order.len();
    let mut m: HashMap<usize, usize> = HashMap::new();
    let mut i: usize = 0;
    while i < n
        invariant
            order@.len() == n == votes@.len(),
            forall|i2: int, j2: int| 0 <= i2 < j2 < n ==> order@[i2] != order@[j2],
            forall|i2: int| 0 <= i2 < n ==> votes@[i2] <= usize::MAX,
            0 <= i <= n,
            forall|p: usize| #[trigger] m@.contains_key(p) <==> order@.take(i as int).contains(p),
            forall|j: int| 0 <= j < i ==> m@[order@[j]] as int == votes@[j],
        decreases n - i,
    {
        m.insert(order[i], votes[i] as usize);
        i = i + 1;
        proof {
            assert forall|p: usize| #[trigger] m@.contains_key(p) implies order@.take(
                i as int,
            ).contains(p) by {
                if p == order@[i - 1] {
                    assert(order@.take(i as int)[i - 1] == p);
                } else {
                    let j = choose|j: int| #![trigger order@.take(i - 1)[j]] 0 <= j < i - 1 && order@.take(i - 1)[j] == p;
                    assert(order@.take(i as int)[j] == p);
                }
            }
            assert forall|p: usize| order@.take(i as int).contains(p) implies #[trigger] m@.contains_key(
                p,
            ) by {
                let j = choose|j: int| #![trigger order@.take(i as int)[j]] 0 <= j < i && order@.take(i as int)[j] == p;
                if j < i - 1 {
                    assert(order@.take(i - 1)[j] == p);
                }
            }
        }
    }
    proof {
        assert(order@.take(n as int) =~= order@);
    }
    m
}

/// The per-party tally of in-progress votes, as a sequence over ids.
pub open spec fn current_tally(agents: Seq<Agent>, n: int) -> Seq<u64> {
    Seq::new(n as nat, |p: int| count_current(agents, p) as u64)
}

/// The per-party tally of committed votes, as a sequence over ids.
pub open spec fn last_tally(agents: Seq<Agent>, n: int) -> Seq<u64> {
    Seq::new(n as nat, |p: int| count_last(agents, p) as u64)
}

/// Counting in-progress votes only reads each agent's current vote.
proof fn lemma_count_current_congruent(s1: Seq<Agent>, s2: Seq<Agent>, id: int)
    requires
        s1.len() == s2.len(),
        forall|a: int| 0 <= a < s1.len() ==> (#[trigger] s1[a])@.current_vote == s2[a]@.current_vote,
    ensures
        count_current(s1, id) == count_current(s2, id),
    decreases s1.len(),
{
    if s1.len() > 0 {
        lemma_count_current_congruent(s1.drop_last(), s2.drop_last(), id);
    }
}

/// Counting committed votes only reads each agent's last vote.
proof fn lemma_count_last_congruent(s1: Seq<Agent>, s2: Seq<Agent>, id: int)
    requires
        s1.len() == s2.len(),
        forall|a: int| 0 <= a < s1.len() ==> (#[trigger] s1[a])@.last_vote == s2[a]@.last_vote,
    ensures
        count_last(s1, id) == count_last(s2, id),
    decreases s1.len(),
{
    if s1.len() > 0 {
        lemma_count_last_congruent(s1.drop_last(), s2.drop_last(), id);
    }
}

/// After a commit, the committed votes are the votes that were in
/// progress just before it.
proof fn lemma_count_last_from_current(s1: Seq<Agent>, s2: Seq<Agent>, id: int)
    requires
        s1.len() == s2.len(),
        forall|a: int| 0 <= a < s1.len() ==> (#[trigger] s2[a])@.last_vote == s1[a]@.current_vote,
    ensures
        count_last(s2, id) == count_current(s1, id),
    decreases s1.len(),
{
    if s1.len() > 0 {
        lemma_count_last_from_current(s1.drop_last(), s2.drop_last(), id);
    }
}

/// Holds an election over an agent arena with the given parties and
/// voting system.  One round for first-past-the-post, two for the
/// runoff; round tallies are committed into the agents' vote history
/// after the first round, and the runoff's second round reads the
/// in-progress current votes instead.  The runoff's candidate set is
/// exactly the top two first-round vote-getters, and every second-round
/// vote is statically guaranteed to land on one of them, so the
/// invariant violation the result type guards against cannot occur.
pub fn hold_election_on(
    agents: &mut Vec<Agent>,
    parties: &Parties,
    system: VotingSystem,
    rng: &mut rand::rngs::StdRng,
) -> (r: Result<ElectionResult, ElectionError>)
    requires
        parties.wf(),
        1 <= parties@.len() <= MAX_CHOICES,
        system == VotingSystem::TwoRound ==> parties@.len() >= 2,
        election_ready(old(agents)@, parties),
    ensures
        final(agents)@.len() == old(agents)@.len(),
        forall|a: int|
            0 <= a < old(agents)@.len() ==> same_but_votes(
                (#[trigger] final(agents)@[a])@,
                old(agents)@[a]@,
            ),
        system == VotingSystem::FPTP ==> (r matches Ok(res) && res matches ElectionResult::FPTP(
            w,
            tally,
        ) && {
            let n = parties@.len() as int;
            &&& (w as int) < n
            &&& forall|p: usize| #[trigger] tally@.contains_key(p) <==> (p as int) < n
            &&& forall|p: int|
                0 <= p < n ==> tally@[p as usize] as int == count_current(final(agents)@, p)
            &&& w as int == winner_index(current_tally(final(agents)@, n))
            &&& sum_seq(current_tally(final(agents)@, n)) == old(agents)@.len()
            &&& forall|a: int|
                0 <= a < old(agents)@.len() ==> {
                    let fv = (#[trigger] final(agents)@[a])@;
                    &&& fv.last_vote == fv.current_vote
                    &&& fv.current_vote matches Some(v) && (v as int) < n
                }
        }),
        system == VotingSystem::TwoRound ==> (r matches Ok(res) && res
            matches ElectionResult::TwoRound(w, ru, tallies) && {
            let n = parties@.len() as int;
            let counts1 = last_tally(final(agents)@, n);
            let w1 = top_two_spec(counts1).0;
            let r1 = top_two_spec(counts1).1;
            &&& (w as int) < n && (ru as int) < n
            &&& forall|p: usize| #[trigger] tallies.0@.contains_key(p) <==> (p as int) < n
            &&& forall|p: int|
                0 <= p < n ==> tallies.0@[p as usize] as int == count_last(final(agents)@, p)
            &&& sum_seq(counts1) == old(agents)@.len()
            &&& ru as int == r1
            &&& w as int == (if count_current(final(agents)@, r1) >= count_current(
                final(agents)@,
                w1,
            ) {
                r1
            } else {
                w1
            })
            &&& forall|p: usize|
                #[trigger] tallies.1@.contains_key(p) <==> ((p as int) == w1 || (p as int) == r1)
            &&& tallies.1@[w1 as usize] as int == count_current(final(agents)@, w1)
            &&& tallies.1@[r1 as usize] as int == count_current(final(agents)@, r1)
            &&& count_current(final(agents)@, w1) + count_current(final(agents)@, r1) == old(
                agents,
            )@.len()
            &&& forall|a: int|
                0 <= a < old(agents)@.len() ==> {
                    let fv = (#[trigger] final(agents)@[a])@;
                    &&& fv.current_vote matches Some(v) && ((v as int) == w1 || (v as int) == r1)
                    &&& fv.last_vote matches Some(lv) && (lv as int) < n
                }
        }),
{
    let n_agents: usize = agents.len();
    let order: Vec<usize> = parties.get_parties();
    proof {
        assert(order@ =~= full_order(parties@.len() as int));
    }
    match system {
        VotingSystem::FPTP => {
            let votes: Vec<u64> = run_round(agents, parties, &order, false, rng);
            let ghost mid = agents@;
            update_previous_votes(agents);
            let wi: usize = find_winner(&votes);
            let winner: usize = order[wi];
            proof {
                assert forall|i: int| 0 <= i < votes@.len() implies votes@[i] <= usize::MAX by {
                    lemma_count_current_bound(mid, order@[i] as int);
                    assert(votes@[i] == count_current(mid, order@[i] as int));
                    assert(mid.len() == n_agents);
                }
            }
            let tally: HashMap<usize, usize> = tally_map(&order, &votes);
            proof {
                let n = parties@.len() as int;
                assert forall|p: int| 0 <= p < n implies count_current(agents@, p) == count_current(
                    mid,
                    p,
                ) by {
                    lemma_count_current_congruent(agents@, mid, p);
                }
                assert(current_tally(agents@, n) =~= votes@);
                assert forall|p: usize| #[trigger] tally@.contains_key(p) <==> (
                p as int) < n by {
                    if (p as int) < n {
                        assert(order@[p as int] == p);
                        assert(order@.contains(p));
                    }
                    if order@.contains(p) {
                        let j = choose|j: int| #![trigger order@[j]] 0 <= j < n && order@[j] == p;
                    }
                }
                assert(order@[wi as int] == wi as usize);
                assert forall|p: int| 0 <= p < n implies tally@[(p as usize)] as int
                    == count_current(agents@, p) by {
                    assert(order@[p] == p as usize);
                    assert(tally@[order@[p]] as int == votes@[p]);
                }
                assert(winner_index(current_tally(agents@, n)) == winner_index(votes@));
                assert forall|a: int| 0 <= a < old(agents)@.len() implies {
                    let fv = (#[trigger] agents@[a])@;
                    &&& same_but_votes(fv, old(agents)@[a]@)
                    &&& fv.last_vote == fv.current_vote
                    &&& (fv.current_vote matches Some(v) && (v as int) < n)
                } by {
                    assert(same_but_votes(mid[a]@, old(agents)@[a]@));
                    assert(agents@[a]@ == (AgentView {
                        last_vote: mid[a]@.current_vote,
                        ..mid[a]@
                    }));
                    assert(mid[a]@.current_vote matches Some(v) && order@.contains(v));
                    let v = mid[a]@.current_vote->Some_0;
                    let j = choose|j: int| #![trigger order@[j]] 0 <= j < order@.len() && order@[j]
                        == v;
                    assert(order@[j] == j as usize);
                }
            }
            Ok(ElectionResult::FPTP(winner, tally))
        },
        VotingSystem::TwoRound => {
            let votes: Vec<u64> = run_round(agents, parties, &order, false, rng);
            let ghost mid1 = agents@;
            update_previous_votes(agents);
            let ghost mid2 = agents@;
            let pair: (usize, usize) = top_two(&votes);
            let winner_1: usize = order[pair.0];
            let runner_up: usize = order[pair.1];
            let mut round2: Vec<usize> = Vec::new();
            round2.push(winner_1);
            round2.push(runner_up);
            proof {
                lemma_top_two_are_top(votes@);
                assert(round2@.len() == 2);
                assert(round2@[0] == winner_1 && round2@[1] == runner_up);
                // The arena keeps its round-readiness through the
                // commit, and the two-candidate order is a subset of
                // the full roster.
                assert forall|a: int|
                    0 <= a < agents@.len() implies ((#[trigger] agents@[a]).wf()
                    && agents@[a].friends_within(agents@.len() as int) && agents@[a].order_ok(
                    parties,
                    round2@,
                )) by {
                    assert(same_but_votes(agents@[a]@, old(agents)@[a]@));
                    assert(old(agents)@[a].wf());
                    assert(old(agents)@[a].friends_within(old(agents)@.len() as int));
                    assert(old(agents)@[a].order_ok(parties, full_order(parties@.len() as int)));
                    assert(full_order(parties@.len() as int)[winner_1 as int] == winner_1);
                    assert(full_order(parties@.len() as int)[runner_up as int] == runner_up);
                }
            }
            let votes2: Vec<u64> = run_round(agents, parties, &round2, true, rng);
            let w2i: usize = find_winner(&votes2);
            let winner: usize = round2[w2i];
            proof {
                assert forall|i: int| 0 <= i < votes@.len() implies votes@[i] <= usize::MAX by {
                    lemma_count_current_bound(mid1, order@[i] as int);
                    assert(votes@[i] == count_current(mid1, order@[i] as int));
                }
                assert forall|i: int| 0 <= i < votes2@.len() implies votes2@[i] <= usize::MAX by {
                    lemma_count_current_bound(agents@, round2@[i] as int);
                    assert(votes2@[i] == count_current(agents@, round2@[i] as int));
                }
            }
            let t1: HashMap<usize, usize> = tally_map(&order, &votes);
            let t2: HashMap<usize, usize> = tally_map(&round2, &votes2);
            proof {
                let n = parties@.len() as int;
                // Round-one counts survive as the committed votes: the
                // commit copied them, and the runoff leaves last votes
                // alone.
                assert forall|p: int| 0 <= p < n implies count_last(agents@, p) == count_current(
                    mid1,
                    p,
                ) by {
                    lemma_count_last_congruent(agents@, mid2, p);
                    lemma_count_last_from_current(mid1, mid2, p);
                }
                assert(last_tally(agents@, n) =~= votes@);
                assert forall|p: usize| #[trigger] t1@.contains_key(p) <==> (p as int) < n by {
                    if (p as int) < n {
                        assert(order@[p as int] == p);
                        assert(order@.contains(p));
                    }
                    if order@.contains(p) {
                        let j = choose|j: int| 0 <= j < n && order@[j] == p;
                    }
                }
                let counts1 = last_tally(agents@, n);
                assert(top_two_spec(counts1) == top_two_spec(votes@));
                assert(winner_1 as int == top_two_spec(counts1).0);
                assert(runner_up as int == top_two_spec(counts1).1);
                // The runoff tally has exactly the two finalists.
                assert forall|p: usize| #[trigger] t2@.contains_key(p) <==> ((p as int)
                    == winner_1 as int || (p as int) == runner_up as int) by {
                    if round2@.contains(p) {
                        let j = choose|j: int| 0 <= j < 2 && round2@[j] == p;
                    }
                    if p == winner_1 {
                        assert(round2@[0] == p);
                        assert(round2@.contains(p));
                    }
                    if p == runner_up {
                        assert(round2@[1] == p);
                        assert(round2@.contains(p));
                    }
                }
                assert(t2@[winner_1] as int == votes2@[0]);
                assert(t2@[runner_up] as int == votes2@[1]);
                // The two runoff counts exhaust the population.
                let s2 = votes2@;
                assert(s2.drop_last() =~= s2.take(1));
                assert(s2.take(1).drop_last() =~= Seq::<u64>::empty());
                assert(sum_seq(Seq::<u64>::empty()) == 0);
                assert(s2.take(1).last() == s2[0]);
                assert(sum_seq(s2.take(1)) == sum_seq(s2.take(1).drop_last()) + s2.take(1).last());
                assert(sum_seq(s2) == sum_seq(s2.drop_last()) + s2.last());
                assert(sum_seq(s2) == s2[0] + s2[1]);
                // The runoff winner is the higher count, ties to the
                // later-scanned runner-up.
                assert(w2i as int == winner_index(votes2@));
                assert(votes2@.take(1).len() == 1);
                assert(winner_index(votes2@.take(1)) == 0);
                assert(votes2@.drop_last() == votes2@.take(1));
                assert(winner_index(votes2@) == if votes2@[1] >= votes2@[0] {
                    1int
                } else {
                    0int
                });
                assert forall|p: int| 0 <= p < n implies t1@[(p as usize)] as int == count_last(
                    agents@,
                    p,
                ) by {
                    assert(order@[p] == p as usize);
                    assert(t1@[order@[p]] as int == votes@[p]);
                }
                assert(votes2@[0] == count_current(agents@, winner_1 as int));
                assert(votes2@[1] == count_current(agents@, runner_up as int));
                assert(winner as int == (if count_current(agents@, runner_up as int)
                    >= count_current(agents@, winner_1 as int) {
                    runner_up as int
                } else {
                    winner_1 as int
                }));
                assert forall|a: int| 0 <= a < old(agents)@.len() implies {
                    let fv = (#[trigger] agents@[a])@;
                    &&& same_but_votes(fv, old(agents)@[a]@)
                    &&& (fv.current_vote matches Some(v) && ((v as int) == winner_1 as int || (
                    v as int) == runner_up as int))
                    &&& (fv.last_vote matches Some(lv) && (lv as int) < n)
                } by {
                    assert(same_but_votes(mid1[a]@, old(agents)@[a]@));
                    assert(mid2[a]@ == (AgentView {
                        last_vote: mid1[a]@.current_vote,
                        ..mid1[a]@
                    }));
                    assert(same_but_votes(agents@[a]@, mid2[a]@));
                    assert(agents@[a]@.last_vote == mid2[a]@.last_vote);
                    assert(agents@[a]@.current_vote matches Some(v) && round2@.contains(v));
                    let v = agents@[a]@.current_vote->Some_0;
                    let j = choose|j: int| #![trigger round2@[j]] 0 <= j < 2 && round2@[j] == v;
                    assert(mid1[a]@.current_vote matches Some(lv) && order@.contains(lv));
                    let lv = mid1[a]@.current_vote->Some_0;
                    let j2 = choose|j2: int|
                        #![trigger order@[j2]]
                        0 <= j2 < order@.len() && order@[j2] == lv;
                    assert(order@[j2] == j2 as usize);
                }
            }
            Ok(ElectionResult::TwoRound(winner, runner_up, (t1, t2)))
        },
    }
}

/// The node `o` steps clockwise from `n` on a ring of the given size.
pub open spec fn ring_right(n: int, o: int, size: int) -> int {
    if n + o < size {
        n + o
    } else {
        n + o - size
    }
}

/// The node `o` steps counter-clockwise from `n`.
pub open spec fn ring_left(n: int, o: int, size: int) -> int {
    if n - o >= 0 {
        n - o
    } else {
        n - o + size
    }
}

/// `m` lies within `omax` ring steps of `a`, on either side.
pub open spec fn ring_adj_upto(a: int, m: int, size: int, omax: int) -> bool
    decreases omax,
{
    if omax < 1 {
        false
    } else {
        ||| m == ring_right(a, omax, size)
        ||| m == ring_left(a, omax, size)
        ||| ring_adj_upto(a, m, size, omax - 1)
    }
}

/// `a` and `m` are ring-lattice neighbours for mean degree `k`: `m`
/// lies within `k/2` steps of `a` on either side.
pub open spec fn ring_adj(a: int, m: int, size: int, k: int) -> bool {
    ring_adj_upto(a, m, size, k / 2)
}

proof fn lemma_ring_adj_upto_symmetric(a: int, m: int, size: int, omax: int)
    requires
        0 <= a < size,
        0 <= m < size,
        omax < size,
        ring_adj_upto(a, m, size, omax),
    ensures
        ring_adj_upto(m, a, size, omax),
    decreases omax,
{
    if m == ring_right(a, omax, size) {
        assert(a == ring_left(m, omax, size));
    } else if m == ring_left(a, omax, size) {
        assert(a == ring_right(m, omax, size));
    } else {
        lemma_ring_adj_upto_symmetric(a, m, size, omax - 1);
    }
}

/// Ring adjacency is symmetric.
pub proof fn lemma_ring_adj_symmetric(a: int, m: int, size: int, k: int)
    requires
        0 <= a < size,
        0 <= m < size,
        0 < k <= size,
        ring_adj(a, m, size, k),
    ensures
        ring_adj(m, a, size, k),
{
    vstd::arithmetic::div_mod::lemma_div_is_ordered(k, size, 2);
    vstd::arithmetic::div_mod::lemma_div_is_strictly_smaller(size, 2);
    lemma_ring_adj_upto_symmetric(a, m, size, k / 2);
}

proof fn lemma_ring_adj_upto_bounds(a: int, m: int, size: int, omax: int)
    requires
        0 <= a < size,
        3 <= size,
        2 * omax <= size,
        ring_adj_upto(a, m, size, omax),
    ensures
        0 <= m < size,
        m != a,
    decreases omax,
{
    if m == ring_right(a, omax, size) || m == ring_left(a, omax, size) {
    } else {
        lemma_ring_adj_upto_bounds(a, m, size, omax - 1);
    }
}

/// Ring neighbours are other nodes of the ring.
pub proof fn lemma_ring_adj_bounds(a: int, m: int, size: int, k: int)
    requires
        0 <= a < size,
        3 <= size,
        0 < k <= size,
        ring_adj(a, m, size, k),
    ensures
        0 <= m < size,
        m != a,
{
    assert(2 * (k / 2) <= k) by (nonlinear_arith);
    lemma_ring_adj_upto_bounds(a, m, size, k / 2);
}

/// A node one fresh offset to the right is not adjacent through any
/// smaller offset, as long as the offsets cannot wrap around the ring.
proof fn lemma_ring_right_fresh(a: int, size: int, o: int, omax: int)
    requires
        0 <= a < size,
        1 <= o < size,
        omax < o,
        o + omax < size,
    ensures
        !ring_adj_upto(a, ring_right(a, o, size), size, omax),
    decreases omax,
{
    if omax >= 1 {
        lemma_ring_right_fresh(a, size, o, omax - 1);
    }
}

proof fn lemma_ring_left_fresh(a: int, size: int, o: int, omax: int)
    requires
        0 <= a < size,
        1 <= o < size,
        omax < o,
        o + omax < size,
    ensures
        !ring_adj_upto(a, ring_left(a, o, size), size, omax),
    decreases omax,
{
    if omax >= 1 {
        lemma_ring_left_fresh(a, size, o, omax - 1);
    }
}

/// A value of `x mod size` for `x` below twice the modulus, without the
/// modulo operator.
proof fn lemma_mod_in_ring(x: int, size: int)
    requires
        0 < size,
        0 <= x < 2 * size,
    ensures
        x % size == (if x < size {
            x
        } else {
            x - size
        }),
{
    if x < size {
        vstd::arithmetic::div_mod::lemma_small_mod(x as nat, size as nat);
    } else {
        vstd::arithmetic::div_mod::lemma_mod_multiples_vanish(1, x - size, size);
        vstd::arithmetic::div_mod::lemma_small_mod((x - size) as nat, size as nat);
    }
}

/// Appends a value to a duplicate-free list if it is not yet present.
fn insert_if_absent(list: &mut Vec<usize>, x: usize)
    ensures
        final(list)@ == (if old(list)@.contains(x) {
            old(list)@
        } else {
            old(list)@.push(x)
        }),
{
    if !crate::party::contains_id(list, x) {
        list.push(x);
    }
}

/// The sequence-of-sequences value of an adjacency table.
pub open spec fn adj_view(adj: Seq<Vec<usize>>) -> Seq<Seq<usize>> {
    adj.map_values(|v: Vec<usize>| v@)
}

/// A well-formed adjacency table over `n` nodes: every neighbour is
/// another node, no list repeats a neighbour, and the relation is
/// symmetric.
pub open spec fn adj_wf(g: Seq<Seq<usize>>, n: int) -> bool {
    &&& g.len() == n
    &&& forall|a: int, i: int|
        0 <= a < n && 0 <= i < g[a].len() ==> (#[trigger] g[a][i]) < n && g[a][i] != a
    &&& forall|a: int, i: int, j: int|
        #![trigger g[a][i], g[a][j]]
        0 <= a < n && 0 <= i < j < g[a].len() ==> g[a][i] != g[a][j]
    &&& forall|a: int, b: usize|
        0 <= a < n && (#[trigger] g[a].contains(b)) ==> g[b as int].contains(a as usize)
}

/// Builds the regular ring lattice: node `a` is connected to its
/// `mean_degree / 2` nearest neighbours on each side.
fn ring_adjacency(num_nodes: usize, mean_degree: usize) -> (adj: Vec<Vec<usize>>)
    requires
        3 <= num_nodes,
        num_nodes <= usize::MAX / 2,
        2 <= mean_degree <= num_nodes,
        mean_degree % 2 == 0,
    ensures
        ({
            let g = adj_view(adj@);
            let n = num_nodes as int;
            let k = mean_degree as int;
            &&& g.len() == n
            &&& forall|a: int, m: usize|
                0 <= a < n ==> ((#[trigger] g[a].contains(m)) <==> ring_adj(a, m as int, n, k))
            &&& forall|a: int, i: int, j: int|
                #![trigger g[a][i], g[a][j]]
                0 <= a < n && 0 <= i < j < g[a].len() ==> g[a][i] != g[a][j]
            &&& forall|a: int|
                0 <= a < n ==> (#[trigger] g[a]).len() == (if k == n {
                    k - 1
                } else {
                    k
                })
        }),
{
    let n: usize = num_nodes;
    let k: usize = mean_degree;
    let half: usize = k / 2;
    let mut adj: Vec<Vec<usize>> = Vec::new();
    let mut a: usize = 0;
    while a < n
        invariant
            3 <= n <= usize::MAX / 2,
            2 <= k <= n,
            k % 2 == 0,
            half == k as int / 2,
            0 <= a <= n,
            adj@.len() == a,
            forall|a2: int, m: usize|
                0 <= a2 < a ==> ((#[trigger] adj_view(adj@)[a2].contains(m)) <==> ring_adj(
                    a2,
                    m as int,
                    n as int,
                    k as int,
                )),
            forall|a2: int, i: int, j: int|
                #![trigger adj_view(adj@)[a2][i], adj_view(adj@)[a2][j]]
                0 <= a2 < a && 0 <= i < j < adj_view(adj@)[a2].len() ==> adj_view(adj@)[a2][i]
                    != adj_view(adj@)[a2][j],
            forall|a2: int|
                0 <= a2 < a ==> (#[trigger] adj_view(adj@)[a2]).len() == (if k == n {
                    k - 1
                } else {
                    k as int
                }),
        decreases n - a,
    {
        let mut list: Vec<usize> = Vec::new();
        let mut o: usize = 1;
        while o <= half
            invariant
                3 <= n <= usize::MAX / 2,
                2 <= k <= n,
                k % 2 == 0,
                half == k as int / 2,
                a < n,
                1 <= o <= half + 1,
                forall|m: usize|
                    (#[trigger] list@.contains(m)) <==> ring_adj_upto(
                        a as int,
                        m as int,
                        n as int,
                        o - 1,
                    ),
                forall|i: int, j: int|
                    #![trigger list@[i], list@[j]]
                    0 <= i < j < list@.len() ==> list@[i] != list@[j],
                list@.len() == (if k == n && o == half + 1 {
                    k - 1
                } else {
                    2 * (o - 1)
                }),
            decreases half + 1 - o,
        {
            let rgt: usize = wrapping_add(a, o, n);
            let lft: usize = wrapping_sub(a, o, n);
            proof {
                lemma_mod_in_ring(a + o, n as int);
                assert(rgt as int == ring_right(a as int, o as int, n as int));
                vstd::arithmetic::div_mod::lemma_small_mod(o as nat, n as nat);
                lemma_mod_in_ring(a + n - o, n as int);
                assert(lft as int == ring_left(a as int, o as int, n as int));
                // Neither new neighbour was inserted by an earlier
                // offset: offsets this small cannot wrap around the
                // ring and collide.
                assert(2 * o <= k) by (nonlinear_arith)
                    requires o <= k as int / 2, k >= 0;
                lemma_ring_right_fresh(a as int, n as int, o as int, o - 1);
                lemma_ring_left_fresh(a as int, n as int, o as int, o - 1);
            }
            insert_if_absent(&mut list, rgt);
            insert_if_absent(&mut list, lft);
            o = o + 1;
            proof {
                broadcast use vstd::seq_lib::group_seq_properties;

                // One fresh offset adds its two sides: both when they
                // differ, one when the last offset of a full ring folds
                // onto itself.
                if rgt == lft {
                    assert(2 * (o - 1) == n as int);
                }
                assert forall|m: usize| (#[trigger] list@.contains(m)) <==> ring_adj_upto(
                    a as int,
                    m as int,
                    n as int,
                    o - 1,
                ) by {}
            }
        }
        let ghost pre = adj@;
        let ghost gl = list@;
        adj.push(list);
        a = a + 1;
        proof {
            assert(adj@.drop_last() =~= pre);
            assert forall|a2: int| 0 <= a2 < a implies (#[trigger] adj_view(adj@)[a2]) == (if a2 < a
                - 1 {
                adj_view(pre)[a2]
            } else {
                gl
            }) by {
                if a2 < a - 1 {
                    assert(adj@[a2] == pre[a2]);
                } else {
                    assert(adj@[a2] == adj@.last());
                }
            }
            assert forall|a2: int, m: usize| 0 <= a2 < a implies ((#[trigger] adj_view(
                adj@,
            )[a2].contains(m)) <==> ring_adj(a2, m as int, n as int, k as int)) by {
                if a2 < a - 1 {
                    assert(adj_view(adj@)[a2] == adj_view(pre)[a2]);
                } else {
                    assert(adj_view(adj@)[a2] == gl);
                    assert(gl.contains(m) <==> ring_adj_upto(a2, m as int, n as int, o - 1));
                    assert(o - 1 == k as int / 2);
                }
            }
        }
    }
    adj
}

/// Removes every occurrence of `x` from a duplicate-free list.
fn remove_value(list: &mut Vec<usize>, x: usize)
    requires
        forall|i: int, j: int|
            #![trigger old(list)@[i], old(list)@[j]]
            0 <= i < j < old(list)@.len() ==> old(list)@[i] != old(list)@[j],
    ensures
        forall|m: usize|
            (#[trigger] final(list)@.contains(m)) <==> (old(list)@.contains(m) && m != x),
        forall|i: int, j: int|
            #![trigger final(list)@[i], final(list)@[j]]
            0 <= i < j < final(list)@.len() ==> final(list)@[i] != final(list)@[j],
{
    let n: usize = list.len();
    let mut out: Vec<usize> = Vec::new();
    let mut i: usize = 0;
    while i < n
        invariant
            list@.len() == n,
            forall|i2: int, j2: int|
                #![trigger list@[i2], list@[j2]]
                0 <= i2 < j2 < list@.len() ==> list@[i2] != list@[j2],
            0 <= i <= n,
            forall|m: usize|
                (#[trigger] out@.contains(m)) <==> (list@.take(i as int).contains(m) && m != x),
            forall|i2: int, j2: int|
                #![trigger out@[i2], out@[j2]]
                0 <= i2 < j2 < out@.len() ==> out@[i2] != out@[j2],
        decreases n - i,
    {
        let v: usize = list[i];
        if v != x {
            proof {
                broadcast use vstd::seq_lib::group_seq_properties;
                // A later element of a duplicate-free list is not yet
                // in the filtered prefix.
                if out@.contains(v) {
                    let j = choose|j: int|
                        #![trigger list@.take(i as int)[j]]
                        0 <= j < i && list@.take(i as int)[j] == v;
                    assert(list@[j] == list@[i as int]);
                    assert(false);
                }
            }
            out.push(v);
        }
        i = i + 1;
        proof {
            broadcast use vstd::seq_lib::group_seq_properties;

            assert forall|m: usize| (#[trigger] out@.contains(m)) implies (list@.take(
                i as int,
            ).contains(m) && m != x) by {
                if m == v && v != x {
                    assert(list@.take(i as int)[i - 1] == m);
                } else {
                    let j = choose|j: int|
                        #![trigger list@.take(i - 1)[j]]
                        0 <= j < i - 1 && list@.take(i - 1)[j] == m;
                    assert(list@.take(i as int)[j] == m);
                }
            }
            assert forall|m: usize| (list@.take(i as int).contains(m) && m != x) implies (
            #[trigger] out@.contains(m)) by {
                let j = choose|j: int|
                    #![trigger list@.take(i as int)[j]]
                    0 <= j < i && list@.take(i as int)[j] == m;
                if j < i - 1 {
                    assert(list@.take(i - 1)[j] == m);
                }
            }
        }
    }
    proof {
        assert(list@.take(n as int) =~= list@);
    }
    *list = out;
}

/// Picks a uniformly random node that is neither `a` nor already a
/// neighbour of `a`, or nothing when every other node is a neighbour.
fn pick_candidate(
    adj: &Vec<Vec<usize>>,
    a: usize,
    n: usize,
    rng: &mut rand::rngs::StdRng,
) -> (r: Option<usize>)
    requires
        a < adj@.len(),
        adj@.len() == n,
    ensures
        r matches Some(c) ==> c < n && c != a && !adj@[a as int]@.contains(c),
{
    let mut cnt: u64 = 0;
    let mut c: usize = 0;
    while c < n
        invariant
            a < adj@.len() == n,
            0 <= c <= n,
            cnt <= c,
        decreases n - c,
    {
        if c != a && !crate::party::contains_id(&adj[a], c) {
            cnt = cnt + 1;
        }
        c = c + 1;
    }
    if cnt == 0 {
        return None;
    }
    let k: u64 = rng_below(rng, cnt);
    let mut seen: u64 = 0;
    let mut c2: usize = 0;
    while c2 < n
        invariant
            a < adj@.len() == n,
            0 <= c2 <= n,
            seen <= c2,
        decreases n - c2,
    {
        if c2 != a && !crate::party::contains_id(&adj[a], c2) {
            if seen == k {
                return Some(c2);
            }
            seen = seen + 1;
        }
        c2 = c2 + 1;
    }
    None
}

/// Removes the edge between `x` and `y` from both endpoint lists.
fn remove_edge(adj: &mut Vec<Vec<usize>>, n: usize, x: usize, y: usize)
    requires
        adj_wf(adj_view(old(adj)@), n as int),
        x < n,
        y < n,
        x != y,
    ensures
        adj_wf(adj_view(final(adj)@), n as int),
        forall|a: int, b: usize|
            0 <= a < n ==> ((#[trigger] adj_view(final(adj)@)[a].contains(b)) <==> (adj_view(
                old(adj)@,
            )[a].contains(b) && !((a == x && b == y) || (a == y && b == x)))),
{
    let ghost g0 = adj_view(adj@);
    proof {
        assert(g0[x as int] == adj@[x as int]@);
    }
    let lx: &mut Vec<usize> = &mut adj[x];
    remove_value(lx, y);
    let ghost g1 = adj_view(adj@);
    proof {
        assert(adj@ =~= old(adj)@.update(x as int, adj@[x as int]));
        assert forall|a: int| 0 <= a < n && a != x implies (#[trigger] g1[a]) == g0[a] by {
            assert(adj@[a] == old(adj)@[a]);
        }
        assert(g1[y as int] == adj@[y as int]@);
    }
    let ly: &mut Vec<usize> = &mut adj[y];
    remove_value(ly, x);
    proof {
        broadcast use vstd::seq_lib::group_seq_properties;

        let g2 = adj_view(adj@);
        assert forall|a: int| 0 <= a < n && a != y implies (#[trigger] g2[a]) == g1[a] by {}
        assert forall|a: int, b: usize| 0 <= a < n implies ((#[trigger] g2[a].contains(b)) <==> (
        g0[a].contains(b) && !((a == x && b == y) || (a == y && b == x)))) by {}
        // Bounds and distinctness carry over element by element;
        // symmetry survives because both directions went away.
        assert forall|a: int, i: int|
            0 <= a < n && 0 <= i < g2[a].len() implies (#[trigger] g2[a][i]) < n && g2[a][i]
            != a by {
            assert(g2[a].contains(g2[a][i]));
            let b = g2[a][i];
            assert(g0[a].contains(b));
            let j = choose|j: int| 0 <= j < g0[a].len() && g0[a][j] == b;
        }
        assert forall|a: int, b: usize|
            0 <= a < n && (#[trigger] g2[a].contains(b)) implies g2[b as int].contains(
            a as usize,
        ) by {
            assert(g0[a].contains(b));
            assert((b as int) < n) by {
                let j = choose|j: int| 0 <= j < g0[a].len() && g0[a][j] == b;
            }
            assert(g0[b as int].contains(a as usize));
        }
    }
}

/// Adds an edge between `x` and a node `c` not yet adjacent to it, in
/// both endpoint lists.
fn add_edge(adj: &mut Vec<Vec<usize>>, n: usize, x: usize, c: usize)
    requires
        adj_wf(adj_view(old(adj)@), n as int),
        x < n,
        c < n,
        x != c,
        !adj_view(old(adj)@)[x as int].contains(c),
    ensures
        adj_wf(adj_view(final(adj)@), n as int),
        forall|a: int, b: usize|
            0 <= a < n ==> ((#[trigger] adj_view(final(adj)@)[a].contains(b)) <==> (adj_view(
                old(adj)@,
            )[a].contains(b) || (a == x && b == c) || (a == c && b == x))),
{
    let ghost g0 = adj_view(adj@);
    proof {
        // Symmetry says the reverse direction is absent too.
        if g0[c as int].contains(x as usize) {
            assert(g0[x as int].contains(c));
        }
    }
    let lx: &mut Vec<usize> = &mut adj[x];
    lx.push(c);
    let ghost g1 = adj_view(adj@);
    proof {
        assert forall|a: int| 0 <= a < n && a != x implies (#[trigger] g1[a]) == g0[a] by {
            assert(adj@[a] == old(adj)@[a]);
        }
        assert(g1[x as int] == g0[x as int].push(c));
    }
    let lc: &mut Vec<usize> = &mut adj[c];
    lc.push(x);
    proof {
        broadcast use vstd::seq_lib::group_seq_properties;

        let g2 = adj_view(adj@);
        assert forall|a: int| 0 <= a < n && a != c implies (#[trigger] g2[a]) == g1[a] by {}
        assert(g2[c as int] == g1[c as int].push(x));
        assert forall|a: int, b: usize| 0 <= a < n implies ((#[trigger] g2[a].contains(b)) <==> (
        g0[a].contains(b) || (a == x && b == c) || (a == c && b == x))) by {}
        assert forall|a: int, i: int|
            0 <= a < n && 0 <= i < g2[a].len() implies (#[trigger] g2[a][i]) < n && g2[a][i]
            != a by {
            assert(g2[a].contains(g2[a][i]));
            let b = g2[a][i];
            if g0[a].contains(b) {
                let j = choose|j: int| 0 <= j < g0[a].len() && g0[a][j] == b;
            }
        }
        assert forall|a: int, i: int, j: int|
            #![trigger g2[a][i], g2[a][j]]
            0 <= a < n && 0 <= i < j < g2[a].len() implies g2[a][i] != g2[a][j] by {
            if a == x && j == g2[a].len() - 1 {
                assert(g0[a].contains(g0[a][i]));
            }
            if a == c && j == g2[a].len() - 1 {
                assert(g0[a].contains(g0[a][i]));
                if g0[c as int].contains(x as usize) {
                    assert(g0[x as int].contains(c));
                }
            }
        }
        assert forall|a: int, b: usize|
            0 <= a < n && (#[trigger] g2[a].contains(b)) implies g2[b as int].contains(
            a as usize,
        ) by {
            if g0[a].contains(b) {
                assert((b as int) < n) by {
                    let j = choose|j: int| 0 <= j < g0[a].len() && g0[a][j] == b;
                }
                assert(g0[b as int].contains(a as usize));
            }
        }
    }
}

/// The rewiring pass of the Watts-Strogatz construction: unless the
/// ring is complete, each node's right-hand ring edges are replaced,
/// with probability beta each, by an edge to a uniformly random node
/// that is not the node itself and not already a neighbour.
fn rewire(
    adj: &mut Vec<Vec<usize>>,
    num_nodes: usize,
    mean_degree: usize,
    beta: u64,
    rng: &mut rand::rngs::StdRng,
)
    requires
        adj_wf(adj_view(old(adj)@), num_nodes as int),
        3 <= num_nodes,
        num_nodes <= usize::MAX / 2,
        2 <= mean_degree <= num_nodes,
        mean_degree % 2 == 0,
        beta <= SCALE,
    ensures
        adj_wf(adj_view(final(adj)@), num_nodes as int),
        beta == 0 ==> final(adj)@ == old(adj)@,
{
    if mean_degree == num_nodes {
        return;
    }
    let n: usize = num_nodes;
    let half: usize = mean_degree / 2;
    let mut a: usize = 0;
    while a < n
        invariant
            adj_wf(adj_view(adj@), n as int),
            3 <= n <= usize::MAX / 2,
            2 <= mean_degree < n,
            half == mean_degree as int / 2,
            0 <= a <= n,
            num_nodes == n,
            beta <= SCALE,
            beta == 0 ==> adj@ == old(adj)@,
        decreases n - a,
    {
        let mut o: usize = 1;
        while o <= half
            invariant
                adj_wf(adj_view(adj@), n as int),
                3 <= n <= usize::MAX / 2,
                2 <= mean_degree < n,
                half == mean_degree as int / 2,
                a < n,
                1 <= o <= half + 1,
                beta <= SCALE,
                beta == 0 ==> adj@ == old(adj)@,
            decreases half + 1 - o,
        {
            let u: u64 = rng_below(rng, SCALE + 1);
            if u < beta {
                let old_t: usize = wrapping_add(a, o, n);
                proof {
                    lemma_mod_in_ring(a + o, n as int);
                }
                if old_t != a {
                    match pick_candidate(adj, a, n, rng) {
                        Some(c) => {
                            remove_edge(adj, n, a, old_t);
                            add_edge(adj, n, a, c);
                        },
                        None => {},
                    }
                }
            }
            o = o + 1;
        }
        a = a + 1;
    }
}

/// A normally distributed position in the unit cube: each coordinate is
/// drawn from the approximate bell curve with mean 0.5 and standard
/// deviation 0.13, clamped into [0, 1].
fn normal_position(num_preferences: usize, rng: &mut rand::rngs::StdRng) -> (r: Preferences)
    ensures
        r@.len() == num_preferences,
        r.wf(),
{
    let mut values: Vec<i64> = Vec::new();
    let mut j: usize = 0;
    while j < num_preferences
        invariant
            0 <= j <= num_preferences,
            values@.len() == j,
        decreases num_preferences - j,
    {
        let v: u64 = sample_normal(TRAIT_MEAN, TRAIT_SD, rng);
        values.push(v as i64);
        j = j + 1;
    }
    Preferences::new(&values)
}

/// A small-world social network built by the Watts-Strogatz procedure:
/// a ring lattice whose right-hand edges are rewired at random with
/// probability beta.
pub struct WattsStrogatz {
    agents: Vec<Agent>,
}

impl View for WattsStrogatz {
    type V = Seq<Agent>;

    closed spec fn view(&self) -> Seq<Agent> {
        self.agents@
    }
}

impl WattsStrogatz {
    /// Builds the network: validates the parameters, constructs the
    /// ring lattice, rewires each right-hand edge with probability
    /// beta to a uniformly random non-neighbour (both endpoint lists
    /// are kept in step, so friendship stays symmetric), and populates
    /// the arena with agents whose positions, loyalty and
    /// susceptibility are drawn from the approximate normal
    /// distribution.  Invalid parameters fail with a `ParameterError`
    /// and nothing is built.
    pub fn new(
        num_nodes: usize,
        mean_degree: usize,
        beta: i64,
        num_preferences: usize,
        rng: &mut rand::rngs::StdRng,
    ) -> (r: Result<WattsStrogatz, ElectionError>)
        requires
            num_nodes <= usize::MAX / 2,
        ensures
            !valid_ws_params(num_nodes as int, mean_degree as int, beta as int) <==> r == Err::<
                WattsStrogatz,
                ElectionError,
            >(ElectionError::ParameterError),
            valid_ws_params(num_nodes as int, mean_degree as int, beta as int) ==> (r matches Ok(
                net,
            ) && {
                let nn = num_nodes as int;
                &&& net@.len() == nn
                &&& forall|i: int| 0 <= i < nn ==> (#[trigger] net@[i]).wf()
                &&& forall|i: int| 0 <= i < nn ==> (#[trigger] net@[i]).friends_within(nn)
                &&& forall|i: int|
                    0 <= i < nn ==> (#[trigger] net@[i])@.preferences.len() == num_preferences
                &&& forall|i: int|
                    0 <= i < nn ==> (#[trigger] net@[i])@.last_vote is None && net@[i]@.current_vote
                        is None
                &&& forall|i: int, j: int|
                    0 <= i < nn && 0 <= j < net@[i]@.friends.len() ==> (#[trigger] net@[i]@.friends[j])
                        != i
                &&& forall|i: int, j1: int, j2: int|
                    #![trigger net@[i]@.friends[j1], net@[i]@.friends[j2]]
                    0 <= i < nn && 0 <= j1 < j2 < net@[i]@.friends.len() ==> net@[i]@.friends[j1]
                        != net@[i]@.friends[j2]
                &&& forall|i: int, b: usize|
                    0 <= i < nn && (#[trigger] net@[i]@.friends.contains(b)) ==> net@[b as int]@.friends.contains(
                        i as usize,
                    )
                &&& beta == 0 ==> forall|i: int|
                    0 <= i < nn ==> (#[trigger] net@[i])@.friends.len() == (
                    if mean_degree == num_nodes {
                        mean_degree - 1
                    } else {
                        mean_degree as int
                    })
                &&& beta == 0 ==> forall|i: int, b: usize|
                    0 <= i < nn ==> ((#[trigger] net@[i]@.friends.contains(b)) <==> ring_adj(
                        i,
                        b as int,
                        nn,
                        mean_degree as int,
                    ))
            }),
    {
        if !ws_params_ok(num_nodes, mean_degree, beta) {
            return Err(ElectionError::ParameterError);
        }
        proof {
            // Validity forces the mean degree up to at least 2: a
            // degree of zero fails the logarithm test for any ring of
            // three or more nodes.
            if mean_degree < 2 {
                assert(mean_degree == 0);
                assert(exp_floor(0) == 1);
                assert(false);
            }
        }
        let mut adj: Vec<Vec<usize>> = ring_adjacency(num_nodes, mean_degree);
        let ghost ring_g = adj_view(adj@);
        proof {
            let n = num_nodes as int;
            let k = mean_degree as int;
            assert forall|a: int, i: int|
                0 <= a < n && 0 <= i < ring_g[a].len() implies (#[trigger] ring_g[a][i]) < n
                && ring_g[a][i] != a by {
                broadcast use vstd::seq_lib::group_seq_properties;

                assert(ring_g[a].contains(ring_g[a][i]));
                lemma_ring_adj_bounds(a, ring_g[a][i] as int, n, k);
            }
            assert forall|a: int, b: usize|
                0 <= a < n && (#[trigger] ring_g[a].contains(b)) implies ring_g[b as int].contains(
                a as usize,
            ) by {
                lemma_ring_adj_bounds(a, b as int, n, k);
                lemma_ring_adj_symmetric(a, b as int, n, k);
            }
            assert(adj_wf(ring_g, n));
        }
        rewire(&mut adj, num_nodes, mean_degree, beta as u64, rng);
        proof {
            if beta == 0 {
                assert(adj_view(adj@) == ring_g);
            }
        }

        let mut agents: Vec<Agent> = Vec::new();
        let mut a: usize = 0;
        while a < num_nodes
            invariant
                adj_wf(adj_view(adj@), num_nodes as int),
                3 <= num_nodes <= usize::MAX / 2,
                2 <= mean_degree <= num_nodes,
                beta == 0 ==> adj_view(adj@) == ring_g,
                beta == 0 ==> forall|a2: int|
                    0 <= a2 < num_nodes ==> (#[trigger] ring_g[a2]).len() == (
                    if mean_degree == num_nodes {
                        mean_degree - 1
                    } else {
                        mean_degree as int
                    }),
                beta == 0 ==> forall|a2: int, m: usize|
                    0 <= a2 < num_nodes ==> ((#[trigger] ring_g[a2].contains(m)) <==> ring_adj(
                        a2,
                        m as int,
                        num_nodes as int,
                        mean_degree as int,
                    )),
                0 <= a <= num_nodes,
                agents@.len() == a,
                forall|i: int| 0 <= i < a ==> (#[trigger] agents@[i]).wf(),
                forall|i: int|
                    0 <= i < a ==> (#[trigger] agents@[i])@.friends == adj_view(adj@)[i],
                forall|i: int|
                    0 <= i < a ==> (#[trigger] agents@[i])@.preferences.len() == num_preferences,
                forall|i: int|
                    0 <= i < a ==> (#[trigger] agents@[i])@.last_vote is None
                        && agents@[i]@.current_vote is None,
            decreases num_nodes - a,
        {
            let deg: usize = adj[a].len();
            let mut pairs: Vec<(usize, i64)> = Vec::new();
            let mut fi: usize = 0;
            while fi < deg
                invariant
                    a < adj@.len(),
                    deg == adj@[a as int]@.len(),
                    0 <= fi <= deg,
                    pairs@.len() == fi,
                    forall|j: int| 0 <= j < fi ==> (#[trigger] pairs@[j]).0 == adj@[a as int]@[j],
                decreases deg - fi,
            {
                pairs.push((adj[a][fi], SCALE as i64));
                fi = fi + 1;
            }
            let prefs: Preferences = normal_position(num_preferences, rng);
            let ag: Agent = Agent::new(&pairs, prefs, rng);
            proof {
                assert(ag@.friends =~= adj_view(adj@)[a as int]);
            }
            agents.push(ag);
            a = a + 1;
        }
        let net = WattsStrogatz { agents };
        proof {
            let nn = num_nodes as int;
            assert forall|i: int, b: usize|
                0 <= i < nn && (#[trigger] net@[i]@.friends.contains(b)) implies net@[b as int]@.friends.contains(
                i as usize,
            ) by {
                broadcast use vstd::seq_lib::group_seq_properties;

                assert(adj_view(adj@)[i].contains(b));
                let j = choose|j: int|
                    0 <= j < adj_view(adj@)[i].len() && adj_view(adj@)[i][j] == b;
                assert((b as int) < nn);
                assert(adj_view(adj@)[b as int].contains(i as usize));
            }
            assert forall|i: int, j: int|
                0 <= i < nn && 0 <= j < net@[i]@.friends.len() implies (
            #[trigger] net@[i]@.friends[j]) != i by {
                assert(adj_view(adj@)[i][j] != i);
            }
        }
        Ok(net)
    }
}

/// A network of agents that can run elections: it owns the agent arena
/// and orchestrates voting rounds over it.
pub trait Network {
    /// The agent arena the network owns.
    spec fn arena(&self) -> Seq<Agent>;

    /// Read access to the agents.
    fn get_agents(&self) -> (r: &Vec<Agent>)
        ensures
            r@ == self.arena(),
    ;

    /// Mutable access to the agents.
    fn get_agents_mut(&mut self) -> (r: &mut Vec<Agent>)
        ensures
            (*r)@ == old(self).arena(),
            final(self).arena() == (*final(r))@,
    ;

    /// Seeds vote history before the first round: roughly
    /// `1 - new_voters` of the agents get a plausible prior vote,
    /// drawn from the ideological distance score alone; the rest stay
    /// voteless new voters.
    fn initialize_previous_votes(
        &mut self,
        parties: &Parties,
        new_voters: &Probability,
        rng: &mut rand::rngs::StdRng,
    )
        requires
            parties.wf(),
            round_ready(old(self).arena(), parties, full_order(parties@.len() as int)),
            1 <= parties@.len() <= MAX_CHOICES,
        ensures
            final(self).arena().len() == old(self).arena().len(),
            forall|a: int|
                0 <= a < old(self).arena().len() ==> ((#[trigger] final(self).arena()[a]) == old(
                    self,
                ).arena()[a] || {
                    let fv = final(self).arena()[a]@;
                    &&& fv.last_vote matches Some(v) && (v as int) < parties@.len()
                    &&& fv == (AgentView { last_vote: fv.last_vote, ..old(self).arena()[a]@ })
                }),
    ;

    /// Commits the round: every agent's last vote becomes its current
    /// vote, or is cleared if the agent has none.
    fn update_previous_votes(&mut self)
        ensures
            final(self).arena().len() == old(self).arena().len(),
            forall|a: int|
                0 <= a < old(self).arena().len() ==> (#[trigger] final(self).arena()[a])@
                    == (AgentView {
                    last_vote: old(self).arena()[a]@.current_vote,
                    ..old(self).arena()[a]@
                }),
    ;

    /// Holds an election on the network with the given parties and
    /// voting system; see `hold_election_on` for the guarantees.
    fn hold_election(
        &mut self,
        parties: &Parties,
        system: VotingSystem,
        rng: &mut rand::rngs::StdRng,
    ) -> (r: Result<ElectionResult, ElectionError>)
        requires
            parties.wf(),
            1 <= parties@.len() <= MAX_CHOICES,
            system == VotingSystem::TwoRound ==> parties@.len() >= 2,
            election_ready(old(self).arena(), parties),
        ensures
            final(self).arena().len() == old(self).arena().len(),
            forall|a: int|
                0 <= a < old(self).arena().len() ==> same_but_votes(
                    (#[trigger] final(self).arena()[a])@,
                    old(self).arena()[a]@,
                ),
            system == VotingSystem::FPTP ==> (r matches Ok(res) && res
                matches ElectionResult::FPTP(w, tally) && {
                let n = parties@.len() as int;
                &&& (w as int) < n
                &&& forall|p: usize| #[trigger] tally@.contains_key(p) <==> (p as int) < n
                &&& forall|p: int|
                    0 <= p < n ==> tally@[p as usize] as int == count_current(
                        final(self).arena(),
                        p,
                    )
                &&& w as int == winner_index(current_tally(final(self).arena(), n))
                &&& sum_seq(current_tally(final(self).arena(), n)) == old(self).arena().len()
                &&& forall|a: int|
                    0 <= a < old(self).arena().len() ==> {
                        let fv = (#[trigger] final(self).arena()[a])@;
                        &&& fv.last_vote == fv.current_vote
                        &&& fv.current_vote matches Some(v) && (v as int) < n
                    }
            }),
            system == VotingSystem::TwoRound ==> (r matches Ok(res) && res
                matches ElectionResult::TwoRound(w, ru, tallies) && {
                let n = parties@.len() as int;
                let counts1 = last_tally(final(self).arena(), n);
                let w1 = top_two_spec(counts1).0;
                let r1 = top_two_spec(counts1).1;
                &&& (w as int) < n && (ru as int) < n
                &&& forall|p: usize| #[trigger] tallies.0@.contains_key(p) <==> (p as int) < n
                &&& forall|p: int|
                    0 <= p < n ==> tallies.0@[p as usize] as int == count_last(
                        final(self).arena(),
                        p,
                    )
                &&& sum_seq(counts1) == old(self).arena().len()
                &&& ru as int == r1
                &&& w as int == (if count_current(final(self).arena(), r1) >= count_current(
                    final(self).arena(),
                    w1,
                ) {
                    r1
                } else {
                    w1
                })
                &&& forall|p: usize|
                    #[trigger] tallies.1@.contains_key(p) <==> ((p as int) == w1 || (p as int)
                        == r1)
                &&& tallies.1@[w1 as usize] as int == count_current(final(self).arena(), w1)
                &&& tallies.1@[r1 as usize] as int == count_current(final(self).arena(), r1)
                &&& count_current(final(self).arena(), w1) + count_current(final(self).arena(), r1)
                    == old(self).arena().len()
                &&& forall|a: int|
                    0 <= a < old(self).arena().len() ==> {
                        let fv = (#[trigger] final(self).arena()[a])@;
                        &&& fv.current_vote matches Some(v) && ((v as int) == w1 || (v as int)
                            == r1)
                        &&& fv.last_vote matches Some(lv) && (lv as int) < n
                    }
            }),
    ;
}

impl Network for WattsStrogatz {
    open spec fn arena(&self) -> Seq<Agent> {
        self@
    }

    fn get_agents(&self) -> (r: &Vec<Agent>) {
        &self.agents
    }

    fn get_agents_mut(&mut self) -> (r: &mut Vec<Agent>) {
        &mut self.agents
    }

    fn initialize_previous_votes(
        &mut self,
        parties: &Parties,
        new_voters: &Probability,
        rng: &mut rand::rngs::StdRng,
    ) {
        crate::election::initialize_previous_votes(&mut self.agents, parties, new_voters, rng);
    }

    fn update_previous_votes(&mut self) {
        crate::election::update_previous_votes(&mut self.agents);
    }

    fn hold_election(
        &mut self,
        parties: &Parties,
        system: VotingSystem,
        rng: &mut rand::rngs::StdRng,
    ) -> (r: Result<ElectionResult, ElectionError>) {
        hold_election_on(&mut self.agents, parties, system, rng)
    }
}

} // verus!
