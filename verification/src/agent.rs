//! Agents: the simulated voters.
//!
//! An agent holds an ideological position, a set of friends (indices of
//! other agents in the network's arena), loyalty and susceptibility
//! traits drawn once at creation, and a two-slot vote history: the vote
//! committed after the last concluded round, and the vote chosen in the
//! round currently being computed.

use vstd::prelude::*;

use crate::numeric::{
    clamp_spec, exp_neg, exp_neg_spec, lemma_seq_max_int_ge, lemma_seq_max_int_in_range,
    lemma_seq_min_in_range, lemma_seq_min_le, lemma_sum_seq_bounded, lemma_sum_seq_lower,
    seq_max_int, seq_min, sum_seq, MAX_CHOICES, SCALE,
};
use crate::party::{contains_id, Parties, PartyView};
use crate::probability::{
    distance_spec, lemma_pos_total_matches, pos_total, sq_dist, zero_floor, Preferences,
    Probability,
};
use crate::rng::{rng_below, sample_normal};

verus! {

/// Magnitude of the multiplier applied to ideological distance in the
/// distance score: closer parties get exponentially higher weight.
pub const DISTANCE_MULTIPLIER: u64 = 10;

/// Numerator of the peer-pressure weight 0.3.
pub const PEER_PRESSURE_NUM: u64 = 3;

/// Denominator of the peer-pressure weight 0.3.
pub const PEER_PRESSURE_DEN: u64 = 10;

/// External-events weight 0.5: attractiveness enters halved.
pub const EXTERNAL_EVENTS_DEN: u64 = 2;

/// Mean of the loyalty/susceptibility/position distribution: 0.5.
pub const TRAIT_MEAN: u64 = SCALE / 2;

/// Standard deviation of that distribution: 0.13.
pub const TRAIT_SD: u64 = 130_000;

/// A two-way relationship with another agent.  The strength field
/// exists for extensibility; the voting algorithm weighs every friend
/// equally.
#[derive(Debug, Clone, Copy)]
pub struct Friendship {
    pub agent: usize,
    pub strength: Probability,
}

/// The mathematical value of an agent.
pub struct AgentView {
    pub friends: Seq<usize>,
    pub strengths: Seq<u64>,
    pub preferences: Seq<u64>,
    pub last_vote: Option<usize>,
    pub current_vote: Option<usize>,
    pub loyalty: u64,
    pub susceptibility: u64,
}

/// A voter in the simulation, identified by its index in the network's
/// agent arena.
#[derive(Debug)]
pub struct Agent {
    friends: Vec<Friendship>,
    preferences: Preferences,
    last_vote: Option<usize>,
    current_vote: Option<usize>,
    loyalty: Probability,
    susceptibility: Probability,
}

impl View for Agent {
    type V = AgentView;

    closed spec fn view(&self) -> AgentView {
        AgentView {
            friends: self.friends@.map_values(|f: Friendship| f.agent),
            strengths: self.friends@.map_values(|f: Friendship| f.strength@),
            preferences: self.preferences@,
            last_vote: self.last_vote,
            current_vote: self.current_vote,
            loyalty: self.loyalty@,
            susceptibility: self.susceptibility@,
        }
    }
}

impl Agent {
    /// Traits and position are unit-interval scalars.
    pub open spec fn wf(&self) -> bool {
        &&& self@.loyalty <= SCALE
        &&& self@.susceptibility <= SCALE
        &&& forall|i: int| 0 <= i < self@.preferences.len() ==> self@.preferences[i] <= SCALE
    }

    /// Every friend index points into an arena of `n` agents.
    pub open spec fn friends_within(&self, n: int) -> bool {
        forall|i: int| 0 <= i < self@.friends.len() ==> self@.friends[i] < n
    }

    /// Creates an agent with the given friends (index and raw strength)
    /// and position.  Loyalty and susceptibility are drawn once from
    /// the approximate normal distribution with mean 0.5 and standard
    /// deviation 0.13, clamped into [0, 1].
    pub fn new(friends: &Vec<(usize, i64)>, preferences: Preferences, rng: &mut rand::rngs::StdRng) -> (r:
        Agent)
        ensures
            r@.friends.len() == friends@.len(),
            forall|i: int| 0 <= i < friends@.len() ==> r@.friends[i] == friends@[i].0,
            forall|i: int|
                0 <= i < friends@.len() ==> r@.strengths[i] as int == clamp_spec(
                    friends@[i].1 as int,
                ),
            r@.preferences == preferences@,
            r@.last_vote is None,
            r@.current_vote is None,
            preferences.wf() ==> r.wf(),
    {
        let mut fs: Vec<Friendship> = Vec::new();
        let mut i: usize = 0;
        while i < friends.len()
            invariant
                0 <= i <= friends@.len(),
                fs@.len() == i,
                forall|j: int| 0 <= j < i ==> fs@[j].agent == friends@[j].0,
                forall|j: int|
                    0 <= j < i ==> fs@[j].strength@ as int == clamp_spec(friends@[j].1 as int),
            decreases friends@.len() - i,
        {
            let (a, s): (usize, i64) = friends[i];
            fs.push(Friendship { agent: a, strength: Probability::new(s) });
            i = i + 1;
        }
        let loyalty = Probability::new(sample_normal(TRAIT_MEAN, TRAIT_SD, rng) as i64);
        let susceptibility = Probability::new(sample_normal(TRAIT_MEAN, TRAIT_SD, rng) as i64);
        Agent {
            friends: fs,
            preferences,
            last_vote: None,
            current_vote: None,
            loyalty,
            susceptibility,
        }
    }

    pub fn get_preferences(&self) -> (r: &Preferences)
        ensures
            r@ == self@.preferences,
            self.wf() ==> r.wf(),
    {
        proof {
            if self.wf() {
                assert forall|i: int|
                    0 <= i < self.preferences@.len() implies self.preferences@[i]
                    <= SCALE by {
                    assert(self@.preferences[i] == self.preferences@[i]);
                }
            }
        }
        &self.preferences
    }

    /// The indices of this agent's friends.
    pub fn get_friends(&self) -> (r: Vec<usize>)
        ensures
            r@ == self@.friends,
    {
        let mut out: Vec<usize> = Vec::new();
        let mut i: usize = 0;
        while i < self.friends.len()
            invariant
                0 <= i <= self.friends@.len(),
                out@.len() == i,
                forall|j: int| 0 <= j < i ==> out@[j] == self.friends@[j].agent,
            decreases self.friends@.len() - i,
        {
            out.push(self.friends[i].agent);
            i = i + 1;
        }
        proof {
            assert(out@ =~= self@.friends);
        }
        out
    }

    pub fn get_last_vote(&self) -> (r: Option<usize>)
        ensures
            r == self@.last_vote,
    {
        self.last_vote
    }

    pub fn set_last_vote(&mut self, vote: usize)
        ensures
            final(self)@ == (AgentView { last_vote: Some(vote), ..old(self)@ }),
    {
        self.last_vote = Some(vote);
    }

    pub fn unset_last_vote(&mut self)
        ensures
            final(self)@ == (AgentView { last_vote: None, ..old(self)@ }),
    {
        self.last_vote = None;
    }

    pub fn get_current_vote(&self) -> (r: Option<usize>)
        ensures
            r == self@.current_vote,
    {
        self.current_vote
    }

    /// The party order is usable by this agent: every id names a
    /// registered party whose position has the agent's dimension.
    pub open spec fn order_ok(&self, parties: &Parties, order: Seq<usize>) -> bool {
        &&& forall|i: int| 0 <= i < order.len() ==> (#[trigger] order[i]) < parties@.len()
        &&& forall|i: int|
            0 <= i < order.len() ==> parties@[#[trigger] order[i] as int].preferences.len()
                == self@.preferences.len()
    }

    /// Calculates the agent's ideological-distance score over the given
    /// party order: the decaying exponential of ten times each party's
    /// distance, normalized across all candidates.  Closer ideological
    /// match means exponentially higher weight.
    pub fn get_party_preferences_distance(&self, parties: &Parties, party_order: &Vec<usize>) -> (r:
        Preferences)
        requires
            self.wf(),
            parties.wf(),
            self.order_ok(parties, party_order@),
            party_order@.len() <= MAX_CHOICES,
        ensures
            r@.len() == party_order@.len(),
            r.wf(),
            party_order@.len() > 0 ==> r@ == normalized(
                dist_raw_seq(self@.preferences, parties@, party_order@),
            ),
    {
        let n: usize = party_order.len();
        if n == 0 {
            let empty: Vec<i64> = Vec::new();
            return Preferences::new(&empty);
        }
        let ghost ds = dist_seq(self@.preferences, parties@, party_order@);

        // The distance from this agent to each candidate party.
        let mut dists: Vec<u64> = Vec::new();
        let mut i: usize = 0;
        while i < n
            invariant
                self.wf(),
                parties.wf(),
                self.order_ok(parties, party_order@),
                party_order@.len() == n,
                ds == dist_seq(self@.preferences, parties@, party_order@),
                0 <= i <= n,
                dists@.len() == i,
                forall|j: int| 0 <= j < i ==> dists@[j] == ds[j],
                forall|j: int| 0 <= j < i ==> dists@[j] < 0x10_0000_0000_0000,
            decreases n - i,
        {
            let id: usize = party_order[i];
            let d: u64 = match parties.get_party(id) {
                Some(p) => {
                    proof {
                        assert(p@ == parties@[id as int]);
                        assert forall|j: int|
                            0 <= j < p@.preferences.len() implies p@.preferences[j] <= SCALE by {
                            assert(parties@[id as int].preferences[j] <= SCALE);
                        }
                        if !self.preferences.wf() {
                            let k = choose|k: int|
                                0 <= k < self.preferences@.len() && self.preferences@[k] > SCALE;
                            assert(self@.preferences[k] <= SCALE);
                        }
                    }
                    match self.preferences.distance(p.get_preferences()) {
                        Ok(d) => d,
                        Err(_) => {
                            proof {
                                assert(false);
                            }
                            0
                        },
                    }
                },
                None => {
                    proof {
                        assert(false);
                    }
                    0
                },
            };
            dists.push(d);
            i = i + 1;
        }
        proof {
            assert(dists@ =~= ds);
        }

        // The closest party sets the zero point of the decay.
        let mut dmin: u64 = dists[0];
        let mut k: usize = 1;
        while k < n
            invariant
                1 <= k <= n,
                dists@.len() == n >= 1,
                dmin == seq_min(dists@.take(k as int)),
            decreases n - k,
        {
            proof {
                assert(dists@.take(k + 1).drop_last() =~= dists@.take(k as int));
            }
            if dists[k] < dmin {
                dmin = dists[k];
            }
            k = k + 1;
        }
        proof {
            assert(dists@.take(n as int) =~= dists@);
        }

        // Raw scores decay with distance beyond the closest party.
        let ghost raws = dist_raw_seq(self@.preferences, parties@, party_order@);
        let mut raw: Vec<u64> = Vec::new();
        let mut m: usize = 0;
        while m < n
            invariant
                0 <= m <= n,
                dists@ == ds,
                dists@.len() == n >= 1,
                dmin == seq_min(ds),
                forall|j: int| 0 <= j < n ==> ds[j] < 0x10_0000_0000_0000,
                raws == dist_raw_seq(self@.preferences, parties@, party_order@),
                party_order@.len() == n,
                ds == dist_seq(self@.preferences, parties@, party_order@),
                raw@.len() == m,
                forall|j: int| 0 <= j < m ==> raw@[j] == raws[j],
                forall|j: int| 0 <= j < m ==> 1 <= #[trigger] raw@[j] <= SCALE,
            decreases n - m,
        {
            proof {
                lemma_seq_min_le(ds, m as int);
                lemma_seq_min_in_range(ds, 0, 0x10_0000_0000_0000);
            }
            let gap: u64 = dists[m] - dmin;
            let e: u64 = exp_neg(DISTANCE_MULTIPLIER * gap);
            raw.push(e);
            m = m + 1;
        }
        let r = normalize_raw(&raw);
        proof {
            assert(raw@ =~= raws);
        }
        r
    }

    /// Calculates the agent's social/attractiveness score over the
    /// given party order: the decaying exponential of each party's
    /// shortfall from the best combination of peer pressure (weighted
    /// by the agent's susceptibility) and attractiveness, normalized
    /// across all candidates.
    pub fn get_party_preferences(
        &self,
        parties: &Parties,
        party_order: &Vec<usize>,
        neighbor_support: &Preferences,
    ) -> (r: Preferences)
        requires
            self.wf(),
            parties.wf(),
            self.order_ok(parties, party_order@),
            party_order@.len() <= MAX_CHOICES,
            neighbor_support@.len() == party_order@.len(),
            neighbor_support.wf(),
        ensures
            r@.len() == party_order@.len(),
            r.wf(),
            party_order@.len() > 0 ==> r@ == normalized(
                social_raw_seq(self@.susceptibility, neighbor_support@, parties@, party_order@),
            ),
    {
        let n: usize = party_order.len();
        if n == 0 {
            let empty: Vec<i64> = Vec::new();
            return Preferences::new(&empty);
        }
        let ghost xs = social_exponent_seq(
            self@.susceptibility,
            neighbor_support@,
            parties@,
            party_order@,
        );

        // The peer-pressure/attractiveness exponent for each party.
        let mut exps: Vec<i128> = Vec::new();
        let mut i: usize = 0;
        while i < n
            invariant
                self.wf(),
                parties.wf(),
                self.order_ok(parties, party_order@),
                neighbor_support@.len() == party_order@.len(),
                neighbor_support.wf(),
                party_order@.len() == n,
                xs == social_exponent_seq(
                    self@.susceptibility,
                    neighbor_support@,
                    parties@,
                    party_order@,
                ),
                0 <= i <= n,
                exps@.len() == i,
                forall|j: int| 0 <= j < i ==> exps@[j] as int == xs[j],
                forall|j: int|
                    0 <= j < i ==> -0x4000_0000_0000_0000 <= (#[trigger] exps@[j]) as int
                        <= 0x4000_0000_0000_0000 + SCALE,
            decreases n - i,
        {
            let id: usize = party_order[i];
            let attract: i64 = match parties.get_party(id) {
                Some(p) => p.get_attractiveness(),
                None => {
                    proof {
                        assert(false);
                    }
                    0
                },
            };
            let support: u64 = neighbor_support.get_preference(i).get_value();
            let susc: u64 = self.susceptibility.get_value();
            proof {
                assert(PEER_PRESSURE_NUM * susc * support <= 3 * (SCALE as int) * SCALE)
                    by (nonlinear_arith)
                    requires susc <= SCALE, support <= SCALE, PEER_PRESSURE_NUM == 3;
            }
            let peer: u64 = PEER_PRESSURE_NUM * susc * support / (PEER_PRESSURE_DEN * SCALE);
            proof {
                assert(peer <= SCALE) by (nonlinear_arith)
                    requires
                        peer == PEER_PRESSURE_NUM * susc * support as int / (PEER_PRESSURE_DEN
                            * SCALE) as int,
                        PEER_PRESSURE_NUM * susc * support <= 3 * (SCALE as int) * SCALE,
                        PEER_PRESSURE_NUM * susc * support >= 0,
                        PEER_PRESSURE_DEN == 10,
                        PEER_PRESSURE_NUM == 3,
                        SCALE == 1_000_000;
            }
            let half: i128 = if attract >= 0 {
                attract as i128 / (EXTERNAL_EVENTS_DEN as i128)
            } else {
                -((-(attract as i128)) / (EXTERNAL_EVENTS_DEN as i128))
            };
            let x: i128 = peer as i128 + half;
            exps.push(x);
            i = i + 1;
        }

        // The most favourable exponent sets the zero point of the decay.
        let mut best: i128 = exps[0];
        let mut k: usize = 1;
        while k < n
            invariant
                1 <= k <= n,
                exps@.len() == n >= 1,
                xs.len() == n,
                forall|j: int| 0 <= j < n ==> exps@[j] as int == xs[j],
                forall|j: int|
                    0 <= j < n ==> -0x4000_0000_0000_0000 <= (#[trigger] exps@[j]) as int
                        <= 0x4000_0000_0000_0000 + SCALE,
                best as int == seq_max_int(xs.take(k as int)),
                -0x4000_0000_0000_0000 <= best as int <= 0x4000_0000_0000_0000 + SCALE,
            decreases n - k,
        {
            proof {
                assert(xs.take(k + 1).drop_last() =~= xs.take(k as int));
                assert(xs.take(k + 1).last() == xs[k as int]);
            }
            if exps[k] > best {
                best = exps[k];
            }
            k = k + 1;
        }
        proof {
            assert(xs.take(n as int) =~= xs);
        }

        // Raw scores decay with shortfall from the best exponent.
        let ghost raws = social_raw_seq(
            self@.susceptibility,
            neighbor_support@,
            parties@,
            party_order@,
        );
        let mut raw: Vec<u64> = Vec::new();
        let mut m: usize = 0;
        while m < n
            invariant
                0 <= m <= n,
                exps@.len() == n >= 1,
                xs.len() == n,
                forall|j: int| 0 <= j < n ==> exps@[j] as int == xs[j],
                forall|j: int|
                    0 <= j < n ==> -0x4000_0000_0000_0000 <= (#[trigger] exps@[j]) as int
                        <= 0x4000_0000_0000_0000 + SCALE,
                best as int == seq_max_int(xs),
                raws == social_raw_seq(
                    self@.susceptibility,
                    neighbor_support@,
                    parties@,
                    party_order@,
                ),
                xs == social_exponent_seq(
                    self@.susceptibility,
                    neighbor_support@,
                    parties@,
                    party_order@,
                ),
                party_order@.len() == n,
                raw@.len() == m,
                forall|j: int| 0 <= j < m ==> raw@[j] == raws[j],
                forall|j: int| 0 <= j < m ==> 1 <= #[trigger] raw@[j] <= SCALE,
            decreases n - m,
        {
            proof {
                lemma_seq_max_int_ge(xs, m as int);
                assert forall|j: int|
                    0 <= j < xs.len() implies -0x4000_0000_0000_0000 <= #[trigger] xs[j]
                    <= 0x4000_0000_0000_0000 + SCALE by {
                    assert(exps@[j] as int == xs[j]);
                }
                lemma_seq_max_int_in_range(
                    xs,
                    -0x4000_0000_0000_0000,
                    0x4000_0000_0000_0000 + SCALE,
                );
            }
            let gap: i128 = best - exps[m];
            let e: u64 = exp_neg(gap as u64);
            raw.push(e);
            m = m + 1;
        }
        let r = normalize_raw(&raw);
        proof {
            assert(raw@ =~= raws);
        }
        r
    }

    /// Gets this agent's vote over the given party order, given its
    /// neighbours' support for those parties.  With probability
    /// 1 - loyalty, or unconditionally when the agent's prior vote is
    /// absent or not in the candidate set, the agent draws a fresh vote
    /// by weighted random selection over the product of its distance
    /// and social scores; otherwise it repeats its prior vote.  The
    /// chosen party id is recorded as the current vote and returned,
    /// and is always a member of the supplied order.
    pub fn vote(
        &mut self,
        parties: &Parties,
        party_order: &Vec<usize>,
        neighbor_support: Preferences,
        rng: &mut rand::rngs::StdRng,
    ) -> (r: usize)
        requires
            old(self).wf(),
            parties.wf(),
            old(self).order_ok(parties, party_order@),
            1 <= party_order@.len() <= MAX_CHOICES,
            neighbor_support@.len() == party_order@.len(),
            neighbor_support.wf(),
        ensures
            party_order@.contains(r),
            final(self)@ == (AgentView { current_vote: Some(r), ..old(self)@ }),
    {
        let party_scores = self.get_party_preferences(parties, party_order, &neighbor_support);
        let party_distances = self.get_party_preferences_distance(parties, party_order);
        let party_preferences = party_distances.pointwise_mul(&party_scores);

        // Keep the prior vote only if loyalty wins the draw and the
        // prior vote is still on the ballot.
        let u: u64 = rng_below(rng, SCALE);
        let keep: bool = u <= self.loyalty.get_value() && (match self.last_vote {
            Some(v) => contains_id(party_order, v),
            None => false,
        });
        if keep {
            let v: usize = match self.last_vote {
                Some(v) => v,
                None => {
                    proof {
                        assert(false);
                    }
                    0
                },
            };
            self.current_vote = Some(v);
            v
        } else {
            let total: u64 = party_preferences.total_weight();
            proof {
                lemma_sum_seq_bounded(party_preferences@, SCALE as int);
                assert(party_preferences@.len() * (SCALE as int) <= MAX_CHOICES * SCALE)
                    by (nonlinear_arith)
                    requires party_preferences@.len() <= MAX_CHOICES, SCALE > 0;
            }
            let draw: u64 = rng_below(rng, total + 1);
            let idx: usize = party_preferences.choose_weighted(draw);
            let v: usize = party_order[idx];
            self.current_vote = Some(v);
            proof {
                assert(party_order@[idx as int] == v);
                assert(party_order@.contains(v));
            }
            v
        }
    }
}

/// Truncating halving, matching the executable division: attractiveness
/// enters the social exponent at half weight.
pub open spec fn half_toward_zero(a: int) -> int {
    if a >= 0 {
        a / (EXTERNAL_EVENTS_DEN as int)
    } else {
        -((-a) / (EXTERNAL_EVENTS_DEN as int))
    }
}

/// The exponent of the social score for one party: peer pressure scaled
/// by susceptibility and neighbour support, plus halved attractiveness.
pub open spec fn social_exponent(susceptibility: u64, support: u64, attractiveness: int) -> int {
    PEER_PRESSURE_NUM * susceptibility * support / ((PEER_PRESSURE_DEN * SCALE) as int)
        + half_toward_zero(attractiveness)
}

/// The social exponent of every party in the order.
pub open spec fn social_exponent_seq(
    susceptibility: u64,
    support: Seq<u64>,
    parties: Seq<PartyView>,
    order: Seq<usize>,
) -> Seq<int> {
    Seq::new(
        order.len(),
        |i: int| social_exponent(susceptibility, support[i], parties[order[i] as int].attractiveness),
    )
}

/// Raw social scores: the decaying exponential of each party's
/// shortfall from the most favourable exponent.
pub open spec fn social_raw_seq(
    susceptibility: u64,
    support: Seq<u64>,
    parties: Seq<PartyView>,
    order: Seq<usize>,
) -> Seq<u64> {
    let xs = social_exponent_seq(susceptibility, support, parties, order);
    Seq::new(order.len(), |i: int| exp_neg_spec((seq_max_int(xs) - xs[i]) as u64) as u64)
}

/// The ideological distance from an agent's position to each party in
/// the order.
pub open spec fn dist_seq(agent: Seq<u64>, parties: Seq<PartyView>, order: Seq<usize>) -> Seq<
    u64,
> {
    Seq::new(
        order.len(),
        |i: int| distance_spec(agent, parties[order[i] as int].preferences) as u64,
    )
}

/// Raw distance scores: the decaying exponential of ten times each
/// party's distance beyond the closest one.
pub open spec fn dist_raw_seq(agent: Seq<u64>, parties: Seq<PartyView>, order: Seq<usize>) -> Seq<
    u64,
> {
    let ds = dist_seq(agent, parties, order);
    Seq::new(
        order.len(),
        |i: int| exp_neg_spec((DISTANCE_MULTIPLIER * (ds[i] - seq_min(ds))) as u64) as u64,
    )
}

/// A party roster whose positions are unit-cube points of the agent's
/// dimension, reachable through the given order.
pub open spec fn roster_ok(agent: Seq<u64>, parties: Seq<PartyView>, order: Seq<usize>) -> bool {
    &&& agent.len() <= 0x1_0000_0000_0000_0000
    &&& forall|m: int| 0 <= m < agent.len() ==> agent[m] <= SCALE
    &&& forall|m: int| 0 <= m < order.len() ==> (#[trigger] order[m]) < parties.len()
    &&& forall|m: int|
        0 <= m < order.len() ==> parties[#[trigger] order[m] as int].preferences.len()
            == agent.len()
    &&& forall|p: int, q: int|
        0 <= p < parties.len() && 0 <= q < parties[p].preferences.len()
            ==> #[trigger] parties[p].preferences[q] <= SCALE
}

/// Every candidate's distance to the agent is a genuine, bounded square
/// root.
proof fn lemma_dist_seq_bounded(agent: Seq<u64>, parties: Seq<PartyView>, order: Seq<usize>)
    requires
        roster_ok(agent, parties, order),
    ensures
        forall|m: int|
            #![trigger dist_seq(agent, parties, order)[m]]
            0 <= m < order.len() ==> (0 <= dist_seq(agent, parties, order)[m]
                < 0x10_0000_0000_0000 && dist_seq(agent, parties, order)[m] == distance_spec(
                agent,
                parties[order[m] as int].preferences,
            )),
{
    let ds = dist_seq(agent, parties, order);
    assert forall|m: int| 0 <= m < order.len() implies {
        &&& 0 <= #[trigger] ds[m] < 0x10_0000_0000_0000
        &&& ds[m] == distance_spec(agent, parties[order[m] as int].preferences)
    } by {
        let q = parties[order[m] as int].preferences;
        crate::probability::lemma_sq_dist_nonneg(agent, q);
        crate::probability::lemma_sq_dist_bounded(agent, q, SCALE as int);
        crate::numeric::lemma_isqrt_exists(sq_dist(agent, q));
        assert(sq_dist(agent, q) < 0x10_0000_0000_0000 * 0x10_0000_0000_0000)
            by (nonlinear_arith)
            requires
                sq_dist(agent, q) <= agent.len() * ((SCALE * SCALE) as int),
                agent.len() <= 0x1_0000_0000_0000_0000,
                SCALE == 1_000_000;
        crate::numeric::lemma_isqrt_below(
            sq_dist(agent, q),
            distance_spec(agent, q),
            0x10_0000_0000_0000,
        );
    }
}

/// The ideological-distance model favours nearby parties: a candidate
/// at least as close to the agent as another never receives a smaller
/// raw distance score.
pub proof fn lemma_closer_party_scores_higher(
    agent: Seq<u64>,
    parties: Seq<PartyView>,
    order: Seq<usize>,
    i: int,
    j: int,
)
    requires
        roster_ok(agent, parties, order),
        0 <= i < order.len(),
        0 <= j < order.len(),
        distance_spec(agent, parties[order[i] as int].preferences) <= distance_spec(
            agent,
            parties[order[j] as int].preferences,
        ),
    ensures
        dist_raw_seq(agent, parties, order)[i] >= dist_raw_seq(agent, parties, order)[j],
{
    let ds = dist_seq(agent, parties, order);
    lemma_dist_seq_bounded(agent, parties, order);
    lemma_seq_min_le(ds, i);
    lemma_seq_min_le(ds, j);
    lemma_seq_min_in_range(ds, 0, 0x10_0000_0000_0000);
    let ai = DISTANCE_MULTIPLIER * (ds[i] - seq_min(ds));
    let aj = DISTANCE_MULTIPLIER * (ds[j] - seq_min(ds));
    assert(ds[i] <= ds[j]);
    assert(0 <= ai <= aj < 0x100_0000_0000_0000);
    crate::numeric::lemma_exp_neg_monotone(ai as u64, aj as u64);
    crate::numeric::lemma_exp_neg_in_range(ai as u64);
    crate::numeric::lemma_exp_neg_in_range(aj as u64);
    assert(dist_raw_seq(agent, parties, order)[i] == exp_neg_spec(ai as u64) as u64);
    assert(dist_raw_seq(agent, parties, order)[j] == exp_neg_spec(aj as u64) as u64);
}

/// The decay starts from the nearest candidate: a party closest to the
/// agent receives exactly the full raw score.
pub proof fn lemma_closest_party_scores_one(
    agent: Seq<u64>,
    parties: Seq<PartyView>,
    order: Seq<usize>,
    i: int,
)
    requires
        roster_ok(agent, parties, order),
        0 <= i < order.len(),
        forall|j: int|
            0 <= j < order.len() ==> distance_spec(agent, parties[order[i] as int].preferences)
                <= distance_spec(agent, parties[#[trigger] order[j] as int].preferences),
    ensures
        dist_raw_seq(agent, parties, order)[i] == SCALE,
{
    let ds = dist_seq(agent, parties, order);
    lemma_dist_seq_bounded(agent, parties, order);
    let m = crate::numeric::lemma_seq_min_witness(ds);
    lemma_seq_min_le(ds, i);
    assert(ds[i] <= ds[m]);
    assert(ds[i] == seq_min(ds));
    crate::numeric::lemma_exp_neg_zero();
}

/// A raw weight vector scaled so its elements sum to one (give or take
/// one rounding unit per element).
pub open spec fn normalized(raw: Seq<u64>) -> Seq<u64> {
    Seq::new(raw.len(), |i: int| (raw[i] * SCALE / sum_seq(raw)) as u64)
}

/// Scales a vector of positive raw weights into a distribution.
fn normalize_raw(raw: &Vec<u64>) -> (r: Preferences)
    requires
        1 <= raw@.len() <= MAX_CHOICES,
        forall|i: int| 0 <= i < raw@.len() ==> 1 <= #[trigger] raw@[i] <= SCALE,
    ensures
        r@.len() == raw@.len(),
        r@ == normalized(raw@),
        r.wf(),
{
    let n: usize = raw.len();
    let mut vals: Vec<i64> = Vec::new();
    let mut i: usize = 0;
    while i < n
        invariant
            raw@.len() == n,
            forall|j: int| 0 <= j < n ==> 1 <= #[trigger] raw@[j] <= SCALE,
            0 <= i <= n,
            vals@.len() == i,
            forall|j: int| 0 <= j < i ==> vals@[j] == raw@[j],
        decreases n - i,
    {
        vals.push(raw[i] as i64);
        i = i + 1;
    }
    proof {
        lemma_pos_total_matches(vals@, raw@);
        lemma_sum_seq_lower(raw@, 1);
    }
    let r = match Preferences::new_normalize(&vals) {
        Ok(p) => p,
        Err(_) => {
            proof {
                assert(false);
            }
            let empty: Vec<i64> = Vec::new();
            Preferences::new(&empty)
        },
    };
    proof {
        let t = pos_total(vals@);
        assert forall|j: int| 0 <= j < n implies r@[j] as int == normalized(raw@)[j] as int by {
            assert(r@[j] as int == zero_floor(vals@[j] as int) * SCALE / t);
        }
        assert(r@ =~= normalized(raw@));
    }
    r
}

} // verus!
