//! One voting round, and the tally-scan rules.
//!
//! A round walks the agent population: for each agent it builds the
//! neighbour-support distribution from its friends' recorded votes,
//! asks the agent to vote over the candidate order, and tallies the
//! result.  The winner scan uses a `>=` comparison while iterating
//! ascending, so ties break in favour of the candidate appearing last.

use vstd::prelude::*;

use crate::agent::{Agent, AgentView};
use crate::numeric::{
    lemma_sum_seq_push, lemma_sum_seq_update, sum_seq, MAX_CHOICES, SCALE,
};
use crate::party::{index_of_id, Parties};
use crate::probability::{lemma_pos_total_matches, pos_total, zero_floor, Preferences, Probability};
use crate::rng::rng_below;

verus! {

/// How many agents in the arena currently have `id` as their vote for
/// the round being computed.
pub open spec fn count_current(agents: Seq<Agent>, id: int) -> int
    decreases agents.len(),
{
    if agents.len() == 0 {
        0
    } else {
        count_current(agents.drop_last(), id) + if agents.last()@.current_vote matches Some(v)
            && v == id {
            1int
        } else {
            0int
        }
    }
}

/// How many agents in the arena have `id` as their committed last vote.
pub open spec fn count_last(agents: Seq<Agent>, id: int) -> int
    decreases agents.len(),
{
    if agents.len() == 0 {
        0
    } else {
        count_last(agents.drop_last(), id) + if agents.last()@.last_vote matches Some(v) && v
            == id {
            1int
        } else {
            0int
        }
    }
}

/// The index of the winning tally entry: the party with the most votes,
/// ties broken in favour of the one scanned last.
pub open spec fn winner_index(votes: Seq<u64>) -> int
    recommends
        votes.len() >= 1,
    decreases votes.len(),
{
    if votes.len() <= 1 {
        0
    } else {
        let w = winner_index(votes.drop_last());
        if votes.last() >= votes[w] {
            votes.len() - 1
        } else {
            w
        }
    }
}

/// The winner has the most votes, and every later candidate has
/// strictly fewer: among equals the last one wins.
pub proof fn lemma_winner_index_is_max(votes: Seq<u64>, j: int)
    requires
        votes.len() >= 1,
        0 <= j < votes.len(),
    ensures
        0 <= winner_index(votes) < votes.len(),
        votes[j] <= votes[winner_index(votes)],
        j > winner_index(votes) ==> votes[j] < votes[winner_index(votes)],
    decreases votes.len(),
{
    if votes.len() > 1 {
        if j < votes.len() - 1 {
            lemma_winner_index_is_max(votes.drop_last(), j);
        } else {
            lemma_winner_index_is_max(votes.drop_last(), 0);
        }
    }
}

/// The winner and runner-up of a tally of at least two entries, by the
/// `>=` forward scan: entries 0 and 1 seed the pair, and each later
/// entry displaces the winner or the runner-up if it ties or beats
/// them.
pub open spec fn top_two_spec(votes: Seq<u64>) -> (int, int)
    recommends
        votes.len() >= 2,
    decreases votes.len(),
{
    if votes.len() <= 2 {
        if votes[0] > votes[1] {
            (0, 1)
        } else {
            (1, 0)
        }
    } else {
        let (w, r) = top_two_spec(votes.drop_last());
        let i = votes.len() - 1;
        if votes[i] >= votes[w] {
            (i, w)
        } else if votes[i] >= votes[r] {
            (w, i)
        } else {
            (w, r)
        }
    }
}

/// The scan really selects the two largest tallies: the runner-up is at
/// most the winner, and every other entry is at most the runner-up.
pub proof fn lemma_top_two_are_top(votes: Seq<u64>)
    requires
        votes.len() >= 2,
    ensures
        ({
            let (w, r) = top_two_spec(votes);
            &&& 0 <= w < votes.len()
            &&& 0 <= r < votes.len()
            &&& w != r
            &&& votes[r] <= votes[w]
            &&& forall|j: int| 0 <= j < votes.len() && j != w && j != r ==> votes[j] <= votes[r]
        }),
    decreases votes.len(),
{
    if votes.len() > 2 {
        let pre = votes.drop_last();
        lemma_top_two_are_top(pre);
        let (w0, r0) = top_two_spec(pre);
        let i = votes.len() - 1;
        let (w, r) = top_two_spec(votes);
        assert forall|j: int|
            0 <= j < votes.len() && j != w && j != r implies votes[j] <= votes[r] by {
            if j < i {
                assert(pre[j] == votes[j]);
                if votes[i] >= votes[w0] {
                    if j != r0 {
                        assert(pre[j] <= pre[r0]);
                    }
                } else if votes[i] >= votes[r0] {
                    if j != r0 {
                        assert(pre[j] <= pre[r0]);
                    }
                } else {
                    assert(pre[j] <= pre[r0]);
                }
            }
        }
    }
}

/// Counts are bounded by the population size.
pub proof fn lemma_count_current_bound(agents: Seq<Agent>, id: int)
    ensures
        0 <= count_current(agents, id) <= agents.len(),
    decreases agents.len(),
{
    if agents.len() > 0 {
        lemma_count_current_bound(agents.drop_last(), id);
    }
}

pub proof fn lemma_count_last_bound(agents: Seq<Agent>, id: int)
    ensures
        0 <= count_last(agents, id) <= agents.len(),
    decreases agents.len(),
{
    if agents.len() > 0 {
        lemma_count_last_bound(agents.drop_last(), id);
    }
}

/// The agent fields that a voting round never touches.
pub open spec fn same_but_votes(a: AgentView, b: AgentView) -> bool {
    &&& a.friends == b.friends
    &&& a.strengths == b.strengths
    &&& a.preferences == b.preferences
    &&& a.loyalty == b.loyalty
    &&& a.susceptibility == b.susceptibility
}

/// The preconditions a whole arena must meet for a round over the given
/// candidate order.
pub open spec fn round_ready(
    agents: Seq<Agent>,
    parties: &Parties,
    order: Seq<usize>,
) -> bool {
    &&& forall|a: int| 0 <= a < agents.len() ==> (#[trigger] agents[a]).wf()
    &&& forall|a: int|
        0 <= a < agents.len() ==> (#[trigger] agents[a]).friends_within(agents.len() as int)
    &&& forall|a: int| 0 <= a < agents.len() ==> (#[trigger] agents[a]).order_ok(parties, order)
}

/// The identity candidate order over `n` parties: all ids ascending.
pub open spec fn full_order(n: int) -> Seq<usize> {
    Seq::new(n as nat, |i: int| i as usize)
}

/// The arena is ready for an election over the whole roster.
pub open spec fn election_ready(agents: Seq<Agent>, parties: &Parties) -> bool {
    round_ready(agents, parties, full_order(parties@.len() as int))
}

/// Support counts saturate two steps below the u64 ceiling, far beyond
/// any realizable friend count, so an increment can never overflow.
pub const SUPPORT_CAP: u64 = 0xffff_ffff_ffff_fffd;

/// The vote one agent contributes to a neighbour-support tally: its
/// committed last vote, or its in-progress current vote during a
/// runoff's second round.
pub open spec fn recorded_vote(agent: Agent, use_current: bool) -> Option<usize> {
    if use_current {
        agent@.current_vote
    } else {
        agent@.last_vote
    }
}

/// How many of the given friends' recorded votes went to `id`.
pub open spec fn support_count(
    agents: Seq<Agent>,
    friends: Seq<usize>,
    id: usize,
    use_current: bool,
) -> int
    decreases friends.len(),
{
    if friends.len() == 0 {
        0
    } else {
        support_count(agents, friends.drop_last(), id, use_current) + if recorded_vote(
            agents[friends.last() as int],
            use_current,
        ) matches Some(v) && v == id {
            1int
        } else {
            0int
        }
    }
}

/// Tallies one friend's recorded vote into the per-candidate counts.
fn tally_friend_vote(counts: &mut Vec<u64>, order: &Vec<usize>, vote: Option<usize>)
    requires
        old(counts)@.len() == order@.len(),
        forall|i: int, j: int| 0 <= i < j < order@.len() ==> order@[i] != order@[j],
    ensures
        final(counts)@.len() == order@.len(),
        forall|j: int|
            0 <= j < order@.len() ==> final(counts)@[j] == (if (vote matches Some(v) && v
                == order@[j]) && old(counts)@[j] < SUPPORT_CAP {
                old(counts)@[j] + 1
            } else {
                old(counts)@[j] as int
            }),
{
    if let Some(v) = vote {
        if let Some(pi) = index_of_id(order, v) {
            if counts[pi] < SUPPORT_CAP {
                let c: u64 = counts[pi];
                counts.set(pi, c + 1);
            }
        }
    }
}

/// The support among one agent's friends for each candidate in the
/// order: how many friends' recorded vote went to each candidate.
/// Friends with no recorded vote, or one outside the order, are
/// excluded from every count.
fn neighbor_support(
    agents: &Vec<Agent>,
    idx: usize,
    order: &Vec<usize>,
    use_current: bool,
) -> (r: Vec<u64>)
    requires
        idx < agents@.len(),
        agents@[idx as int].friends_within(agents@.len() as int),
        forall|i: int, j: int| 0 <= i < j < order@.len() ==> order@[i] != order@[j],
    ensures
        r@.len() == order@.len(),
        forall|j: int|
            0 <= j < order@.len() ==> r@[j] == (if support_count(
                agents@,
                agents@[idx as int]@.friends,
                order@[j],
                use_current,
            ) < SUPPORT_CAP {
                support_count(agents@, agents@[idx as int]@.friends, order@[j], use_current)
            } else {
                SUPPORT_CAP as int
            }),
{
    let n: usize = order.len();
    let mut counts: Vec<u64> = Vec::new();
    let mut i: usize = 0;
    while i < n
        invariant
            0 <= i <= n,
            counts@.len() == i,
            forall|j: int| 0 <= j < i ==> counts@[j] == 0,
        decreases n - i,
    {
        counts.push(0);
        i = i + 1;
    }
    let friends: Vec<usize> = agents[idx].get_friends();
    let mut k: usize = 0;
    while k < friends.len()
        invariant
            friends@ == agents@[idx as int]@.friends,
            idx < agents@.len(),
            agents@[idx as int].friends_within(agents@.len() as int),
            forall|i2: int, j2: int| 0 <= i2 < j2 < order@.len() ==> order@[i2] != order@[j2],
            0 <= k <= friends@.len(),
            counts@.len() == n == order@.len(),
            forall|j: int|
                0 <= j < n ==> counts@[j] == (if support_count(
                    agents@,
                    friends@.take(k as int),
                    order@[j],
                    use_current,
                ) < SUPPORT_CAP {
                    support_count(agents@, friends@.take(k as int), order@[j], use_current)
                } else {
                    SUPPORT_CAP as int
                }),
        decreases friends@.len() - k,
    {
        let f: usize = friends[k];
        proof {
            assert(agents@[idx as int]@.friends[k as int] < agents@.len());
            lemma_support_count_nonneg(agents@, friends@.take(k as int), use_current);
        }
        let vote: Option<usize> = if use_current {
            agents[f].get_current_vote()
        } else {
            agents[f].get_last_vote()
        };
        tally_friend_vote(&mut counts, order, vote);
        k = k + 1;
        proof {
            assert(friends@.take(k as int).drop_last() =~= friends@.take(k - 1));
            assert(friends@.take(k as int).last() == friends@[k - 1]);
        }
    }
    proof {
        assert(friends@.take(friends@.len() as int) =~= friends@);
    }
    counts
}

proof fn lemma_support_count_nonneg(agents: Seq<Agent>, friends: Seq<usize>, use_current: bool)
    ensures
        forall|id: usize| 0 <= #[trigger] support_count(agents, friends, id, use_current),
    decreases friends.len(),
{
    if friends.len() > 0 {
        lemma_support_count_nonneg(agents, friends.drop_last(), use_current);
        assert forall|id: usize| 0 <= #[trigger] support_count(
            agents,
            friends,
            id,
            use_current,
        ) by {
            assert(0 <= support_count(agents, friends.drop_last(), id, use_current));
        }
    }
}

/// Turns raw support counts into a distribution over the candidates:
/// normalized to sum to one, or the all-zero vector when no friend
/// voted for any candidate (a voiceless neighbourhood exerts no pull).
/// The counts of any realizable population are far below the signed
/// ceiling, where each share is exactly its count's fraction of the
/// total.
fn support_distribution(counts: &Vec<u64>) -> (r: Preferences)
    ensures
        r@.len() == counts@.len(),
        r.wf(),
        (forall|i: int| 0 <= i < counts@.len() ==> #[trigger] counts@[i] < 0x8000_0000_0000_0000)
            ==> (forall|i: int|
            0 <= i < counts@.len() ==> r@[i] as int == (if sum_seq(counts@) == 0 {
                0int
            } else {
                counts@[i] * SCALE / sum_seq(counts@)
            })),
{
    let n: usize = counts.len();
    let mut vals: Vec<i64> = Vec::new();
    let mut any: bool = false;
    let mut i: usize = 0;
    while i < n
        invariant
            counts@.len() == n,
            0 <= i <= n,
            vals@.len() == i,
            forall|j: int| 0 <= j < i ==> #[trigger] vals@[j] >= 0,
            forall|j: int|
                0 <= j < i ==> #[trigger] vals@[j] as int == (if counts@[j]
                    < 0x8000_0000_0000_0000 {
                    counts@[j] as int
                } else {
                    0x7fff_ffff_ffff_ffffint
                }),
            any <==> exists|j: int| 0 <= j < i && #[trigger] vals@[j] > 0,
        decreases n - i,
    {
        let c: u64 = counts[i];
        // Counts far beyond any possible population are capped so the
        // signed conversion cannot wrap.
        let v: i64 = if c > 0x7fff_ffff_ffff_ffff {
            0x7fff_ffff_ffff_ffff
        } else {
            c as i64
        };
        if v > 0 {
            any = true;
        }
        let ghost pre = vals@;
        vals.push(v);
        i = i + 1;
        proof {
            if any {
                if v > 0 {
                    assert(vals@[i - 1] > 0);
                } else {
                    let j = choose|j: int| 0 <= j < i - 1 && #[trigger] pre[j] > 0;
                    assert(vals@[j] > 0);
                }
                assert(exists|j: int| 0 <= j < i && #[trigger] vals@[j] > 0);
            }
            if exists|j: int| 0 <= j < i && #[trigger] vals@[j] > 0 {
                let j = choose|j: int| 0 <= j < i && #[trigger] vals@[j] > 0;
                if j < i - 1 {
                    assert(pre[j] > 0);
                    assert(exists|j2: int| 0 <= j2 < i - 1 && #[trigger] pre[j2] > 0);
                }
            }
        }
    }
    if !any {
        // No friend voted for any candidate: zero support everywhere.
        let r = Preferences::new(&vals);
        proof {
            assert forall|i: int| 0 <= i < n implies r@[i] == 0 by {
                assert(!(vals@[i] > 0));
            }
            if forall|i: int| 0 <= i < counts@.len() ==> #[trigger] counts@[i]
                < 0x8000_0000_0000_0000 {
                assert forall|i: int| 0 <= i < n implies vals@[i] == counts@[i] by {
                    assert(counts@[i] < 0x8000_0000_0000_0000);
                }
                crate::numeric::lemma_sum_seq_bounded(counts@, 0);
                crate::numeric::lemma_sum_seq_nonneg(counts@);
            }
        }
        return r;
    }
    proof {
        // Some candidate has positive support, so the total weight is
        // positive and normalization cannot degenerate.
        let j = choose|j: int| 0 <= j < n && #[trigger] vals@[j] > 0;
        crate::probability::lemma_pos_total_elem(vals@, j);
    }
    let r = match Preferences::new_normalize(&vals) {
        Ok(p) => p,
        Err(_) => {
            proof {
                assert(false);
            }
            Preferences::new(&vals)
        },
    };
    proof {
        if forall|i: int| 0 <= i < counts@.len() ==> #[trigger] counts@[i]
            < 0x8000_0000_0000_0000 {
            // Without saturation the converted values mirror the counts,
            // so the positive total is exactly the count total.
            assert forall|i: int| 0 <= i < n implies vals@[i] == counts@[i] by {
                assert(counts@[i] < 0x8000_0000_0000_0000);
            }
            lemma_pos_total_matches(vals@, counts@);
            assert forall|i: int| 0 <= i < n implies r@[i] as int == counts@[i] * SCALE / sum_seq(
                counts@,
            ) by {
                assert(r@[i] as int == zero_floor(vals@[i] as int) * SCALE / pos_total(vals@));
            }
        }
    }
    r
}

/// Runs one voting round over the whole arena: every agent votes over
/// the given candidate order, influenced by its friends' recorded
/// votes, and the votes are tallied per candidate.  Returns the tally,
/// parallel to the order.  Every agent ends the round with its current
/// vote set to a member of the order; votes already cast influence
/// later agents only through the current-vote channel, which is read
/// instead of the committed last vote exactly in a runoff's second
/// round (`use_current`).
pub fn run_round(
    agents: &mut Vec<Agent>,
    parties: &Parties,
    order: &Vec<usize>,
    use_current: bool,
    rng: &mut rand::rngs::StdRng,
) -> (votes: Vec<u64>)
    requires
        parties.wf(),
        round_ready(old(agents)@, parties, order@),
        1 <= order@.len() <= MAX_CHOICES,
        forall|i: int, j: int| 0 <= i < j < order@.len() ==> order@[i] != order@[j],
    ensures
        final(agents)@.len() == old(agents)@.len(),
        votes@.len() == order@.len(),
        sum_seq(votes@) == old(agents)@.len(),
        forall|j: int| 0 <= j < order@.len() ==> votes@[j] == count_current(final(agents)@, order@[j] as int),
        forall|a: int|
            0 <= a < old(agents)@.len() ==> same_but_votes(
                (#[trigger] final(agents)@[a])@,
                old(agents)@[a]@,
            ),
        forall|a: int|
            0 <= a < old(agents)@.len() ==> (#[trigger] final(agents)@[a])@.last_vote == old(
                agents,
            )@[a]@.last_vote,
        forall|a: int|
            0 <= a < old(agents)@.len() ==> ((#[trigger] final(agents)@[a])@.current_vote matches Some(
                v,
            ) && order@.contains(v)),
{
    let n_agents: usize = agents.len();
    let n: usize = order.len();
    let mut votes: Vec<u64> = Vec::new();
    let mut i: usize = 0;
    while i < n
        invariant
            0 <= i <= n,
            votes@.len() == i,
            forall|j: int| 0 <= j < i ==> votes@[j] == 0,
            sum_seq(votes@) == 0,
        decreases n - i,
    {
        proof {
            lemma_sum_seq_push(votes@, 0);
        }
        votes.push(0);
        i = i + 1;
    }

    let mut a: usize = 0;
    while a < n_agents
        invariant
            parties.wf(),
            1 <= order@.len() == n <= MAX_CHOICES,
            forall|i2: int, j2: int| 0 <= i2 < j2 < order@.len() ==> order@[i2] != order@[j2],
            agents@.len() == n_agents == old(agents)@.len(),
            0 <= a <= n_agents,
            round_ready(agents@, parties, order@),
            votes@.len() == n,
            sum_seq(votes@) == a,
            forall|j: int|
                0 <= j < n ==> votes@[j] == count_current(agents@.take(a as int), order@[j] as int),
            forall|a2: int| a <= a2 < n_agents ==> agents@[a2] == old(agents)@[a2],
            forall|a2: int|
                0 <= a2 < a ==> same_but_votes((#[trigger] agents@[a2])@, old(agents)@[a2]@),
            forall|a2: int|
                0 <= a2 < a ==> (#[trigger] agents@[a2])@.last_vote == old(agents)@[a2]@.last_vote,
            forall|a2: int|
                0 <= a2 < a ==> ((#[trigger] agents@[a2])@.current_vote matches Some(v)
                    && order@.contains(v)),
        decreases n_agents - a,
    {
        let counts: Vec<u64> = neighbor_support(agents, a, order, use_current);
        let support: Preferences = support_distribution(&counts);
        let ghost pre = agents@;
        let ag: &mut Agent = &mut agents[a];
        let v: usize = ag.vote(parties, order, support, rng);
        proof {
            assert(agents@ =~= pre.update(a as int, agents@[a as int]));
        }
        let pi: usize = match index_of_id(order, v) {
            Some(pi) => pi,
            None => {
                proof {
                    assert(false);
                }
                0
            },
        };
        proof {
            lemma_sum_seq_update(votes@, pi as int, (votes@[pi as int] + 1) as u64);
            assert(votes@[pi as int] == count_current(pre.take(a as int), order@[pi as int] as int));
            lemma_count_current_bound(pre.take(a as int), order@[pi as int] as int);
        }
        let c: u64 = votes[pi];
        votes.set(pi, c + 1);
        a = a + 1;
        proof {
            assert forall|j: int| 0 <= j < n implies votes@[j] == count_current(
                agents@.take(a as int),
                order@[j] as int,
            ) by {
                let t = agents@.take(a as int);
                assert(t.drop_last() =~= pre.take(a - 1));
                assert(t.last() == agents@[a - 1]);
                if j != pi {
                    assert(order@[j] != order@[pi as int]);
                }
            }
        }
    }
    proof {
        assert(agents@.take(n_agents as int) =~= agents@);
    }
    votes
}

/// Commits the round: every agent's last vote becomes its current vote,
/// or is cleared if the agent has none.
pub fn update_previous_votes(agents: &mut Vec<Agent>)
    ensures
        final(agents)@.len() == old(agents)@.len(),
        forall|a: int|
            0 <= a < old(agents)@.len() ==> (#[trigger] final(agents)@[a])@ == (AgentView {
                last_vote: old(agents)@[a]@.current_vote,
                ..old(agents)@[a]@
            }),
{
    let n: usize = agents.len();
    let mut a: usize = 0;
    while a < n
        invariant
            agents@.len() == n == old(agents)@.len(),
            0 <= a <= n,
            forall|a2: int| a <= a2 < n ==> agents@[a2] == old(agents)@[a2],
            forall|a2: int|
                0 <= a2 < a ==> (#[trigger] agents@[a2])@ == (AgentView {
                    last_vote: old(agents)@[a2]@.current_vote,
                    ..old(agents)@[a2]@
                }),
        decreases n - a,
    {
        let ghost pre = agents@;
        let vote: Option<usize> = agents[a].get_current_vote();
        let ag: &mut Agent = &mut agents[a];
        match vote {
            Some(v) => {
                ag.set_last_vote(v);
            },
            None => {
                ag.unset_last_vote();
            },
        }
        proof {
            assert(agents@ =~= pre.update(a as int, agents@[a as int]));
        }
        a = a + 1;
    }
}

/// Seeds vote history before the first round: roughly `1 - new_voters`
/// of the agents get a plausible prior vote, drawn from the ideological
/// distance score alone; the rest stay voteless new voters.
pub fn initialize_previous_votes(
    agents: &mut Vec<Agent>,
    parties: &Parties,
    new_voters: &Probability,
    rng: &mut rand::rngs::StdRng,
)
    requires
        parties.wf(),
        election_ready(old(agents)@, parties),
        1 <= parties@.len() <= MAX_CHOICES,
    ensures
        final(agents)@.len() == old(agents)@.len(),
        forall|a: int|
            0 <= a < old(agents)@.len() ==> ((#[trigger] final(agents)@[a]) == old(agents)@[a] || {
                let fv = final(agents)@[a]@;
                &&& fv.last_vote matches Some(v) && (v as int) < parties@.len()
                &&& fv == (AgentView { last_vote: fv.last_vote, ..old(agents)@[a]@ })
            }),
{
    let order: Vec<usize> = parties.get_parties();
    proof {
        assert(order@ =~= full_order(parties@.len() as int));
    }
    let n: usize = agents.len();
    let mut a: usize = 0;
    while a < n
        invariant
            parties.wf(),
            1 <= parties@.len() <= MAX_CHOICES,
            order@ == full_order(parties@.len() as int),
            order@.len() == parties@.len(),
            agents@.len() == n == old(agents)@.len(),
            0 <= a <= n,
            round_ready(agents@, parties, order@),
            forall|a2: int| a <= a2 < n ==> agents@[a2] == old(agents)@[a2],
            forall|a2: int|
                0 <= a2 < a ==> ((#[trigger] agents@[a2]) == old(agents)@[a2] || {
                    let fv = agents@[a2]@;
                    &&& fv.last_vote matches Some(v) && (v as int) < parties@.len()
                    &&& fv == (AgentView { last_vote: fv.last_vote, ..old(agents)@[a2]@ })
                }),
        decreases n - a,
    {
        let u: u64 = rng_below(rng, SCALE);
        if u > new_voters.get_value() {
            let prefs: Preferences = agents[a].get_party_preferences_distance(parties, &order);
            let total: u64 = prefs.total_weight();
            proof {
                crate::numeric::lemma_sum_seq_bounded(prefs@, SCALE as int);
                assert(prefs@.len() * (SCALE as int) <= MAX_CHOICES * SCALE) by (nonlinear_arith)
                    requires prefs@.len() <= MAX_CHOICES, SCALE > 0;
            }
            let draw: u64 = rng_below(rng, total + 1);
            let idx: usize = prefs.choose_weighted(draw);
            let v: usize = order[idx];
            let ghost pre = agents@;
            let ag: &mut Agent = &mut agents[a];
            ag.set_last_vote(v);
            proof {
                assert(agents@ =~= pre.update(a as int, agents@[a as int]));
                assert(order@[idx as int] == idx as usize);
            }
        }
        a = a + 1;
    }
}

} // verus!
