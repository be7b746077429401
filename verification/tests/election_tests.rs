use election_simulator::agent::Agent;
use election_simulator::network::{
    hold_election_on, top_two, ElectionResult, Network, VotingSystem, WattsStrogatz,
};
use election_simulator::numeric::SCALE;
use election_simulator::party::Parties;
use election_simulator::probability::{Preferences, Probability};
use election_simulator::rng::rng_from_seed;

fn two_party_registry() -> Parties {
    let names = vec![String::from("Close"), String::from("Far")];
    let prefs = vec![vec![100_000], vec![900_000]];
    Parties::new(2, &names, &prefs).unwrap()
}

fn population_at(position: i64, count: usize, rng: &mut rand::rngs::StdRng) -> Vec<Agent> {
    let mut agents = Vec::new();
    for _ in 0..count {
        agents.push(Agent::new(&vec![], Preferences::new(&vec![position]), rng));
    }
    agents
}

#[test]
fn agent_vote_history_accessors() {
    let mut rng = rng_from_seed(3);
    let mut agent = Agent::new(&vec![(2, 1_000_000)], Preferences::new(&vec![500_000]), &mut rng);
    assert_eq!(agent.get_last_vote(), None);
    assert_eq!(agent.get_current_vote(), None);
    assert_eq!(agent.get_friends(), vec![2]);
    agent.set_last_vote(1);
    assert_eq!(agent.get_last_vote(), Some(1));
    agent.unset_last_vote();
    assert_eq!(agent.get_last_vote(), None);
}

#[test]
fn distance_score_prefers_the_closest_party() {
    let mut rng = rng_from_seed(3);
    let agent = Agent::new(&vec![], Preferences::new(&vec![100_000]), &mut rng);
    let parties = two_party_registry();
    let order = parties.get_parties();
    let scores = agent.get_party_preferences_distance(&parties, &order);
    assert_eq!(scores.len(), 2);
    let close = scores.get_preference(0).get_value();
    let far = scores.get_preference(1).get_value();
    assert!(close > far);
    // The steep multiplier pushes nearly all mass onto the close party.
    assert!(close > 990_000);
    assert!(close + far <= SCALE);
}

#[test]
fn distance_score_is_uniform_for_a_single_party() {
    let mut rng = rng_from_seed(3);
    let agent = Agent::new(&vec![], Preferences::new(&vec![300_000]), &mut rng);
    let names = vec![String::from("Only")];
    let prefs = vec![vec![800_000]];
    let parties = Parties::new(1, &names, &prefs).unwrap();
    let order = parties.get_parties();
    let scores = agent.get_party_preferences_distance(&parties, &order);
    assert_eq!(scores.len(), 1);
    assert_eq!(scores.get_preference(0).get_value(), SCALE);
}

#[test]
fn social_score_follows_attractiveness() {
    let mut rng = rng_from_seed(9);
    let agent = Agent::new(&vec![], Preferences::new(&vec![500_000]), &mut rng);
    let names = vec![String::from("Dull"), String::from("Shiny")];
    let prefs = vec![vec![500_000], vec![500_000]];
    let mut parties = Parties::new(2, &names, &prefs).unwrap();
    parties.set_attractiveness(1, 10_000_000);
    let order = parties.get_parties();
    let support = Preferences::new(&vec![0, 0]);
    let scores = agent.get_party_preferences(&parties, &order, &support);
    assert!(scores.get_preference(1).get_value() > scores.get_preference(0).get_value());
}

#[test]
fn vote_lands_in_the_candidate_set_and_records_current() {
    let mut rng = rng_from_seed(17);
    let parties = two_party_registry();
    let order = parties.get_parties();
    let mut agent = Agent::new(&vec![], Preferences::new(&vec![100_000]), &mut rng);
    let support = Preferences::new(&vec![0, 0]);
    let v = agent.vote(&parties, &order, support, &mut rng);
    assert!(v < 2);
    assert_eq!(agent.get_current_vote(), Some(v));
}

#[test]
fn plurality_dominates_for_a_clustered_population() {
    let mut rng = rng_from_seed(2024);
    let parties = two_party_registry();
    // Every agent sits exactly on the close party's position.
    let mut agents = population_at(100_000, 200, &mut rng);
    let result = hold_election_on(&mut agents, &parties, VotingSystem::FPTP, &mut rng).unwrap();
    match result {
        ElectionResult::FPTP(winner, tally) => {
            assert_eq!(winner, 0);
            let close = tally[&0];
            let far = tally[&1];
            assert_eq!(close + far, 200);
            assert!(close > 180, "close party only got {close} votes");
        },
        _ => panic!("expected a plurality result"),
    }
}

#[test]
fn fptp_commits_votes_into_history() {
    let mut rng = rng_from_seed(7);
    let parties = two_party_registry();
    let mut agents = population_at(100_000, 20, &mut rng);
    hold_election_on(&mut agents, &parties, VotingSystem::FPTP, &mut rng).unwrap();
    for agent in &agents {
        let v = agent.get_current_vote();
        assert!(v.is_some());
        assert_eq!(agent.get_last_vote(), v);
    }
}

#[test]
fn runoff_keeps_the_top_two_and_counts_everyone() {
    let mut rng = rng_from_seed(99);
    let names = vec![
        String::from("0"),
        String::from("1"),
        String::from("2"),
        String::from("3"),
        String::from("4"),
    ];
    // One clear outlier party far from everyone.
    let prefs = vec![
        vec![100_000],
        vec![150_000],
        vec![500_000],
        vec![850_000],
        vec![900_000],
    ];
    let parties = Parties::new(5, &names, &prefs).unwrap();
    let mut agents = Vec::new();
    for i in 0..60 {
        let pos: i64 = if i % 2 == 0 { 120_000 } else { 880_000 };
        agents.push(Agent::new(&vec![], Preferences::new(&vec![pos]), &mut rng));
    }
    let population = agents.len();
    let result = hold_election_on(&mut agents, &parties, VotingSystem::TwoRound, &mut rng).unwrap();
    match result {
        ElectionResult::TwoRound(winner, runner_up, (t1, t2)) => {
            // Round one counted everyone over the full roster.
            let sum1: usize = (0..5).map(|p| t1[&p]).sum();
            assert_eq!(sum1, population);
            // The runoff candidate set is exactly the top two
            // first-round vote-getters, by the documented scan.
            let counts1: Vec<u64> = (0..5).map(|p| t1[&p] as u64).collect();
            let (w1, r1) = top_two(&counts1);
            assert_eq!(runner_up, r1);
            assert_eq!(t2.len(), 2);
            assert!(t2.contains_key(&w1));
            assert!(t2.contains_key(&r1));
            assert!(winner == w1 || winner == r1);
            // Every agent cast exactly one second-round vote.
            assert_eq!(t2[&w1] + t2[&r1], population);
            for agent in &agents {
                let v = agent.get_current_vote().unwrap();
                assert!(v == w1 || v == r1);
            }
        },
        _ => panic!("expected a two-round result"),
    }
}

#[test]
fn runoff_winner_follows_the_tie_break_rule() {
    let mut rng = rng_from_seed(31);
    let parties = two_party_registry();
    let mut agents = population_at(100_000, 30, &mut rng);
    let result = hold_election_on(&mut agents, &parties, VotingSystem::TwoRound, &mut rng).unwrap();
    match result {
        ElectionResult::TwoRound(winner, runner_up, (_, t2)) => {
            // The higher second-round count wins; on a tie the
            // runner-up (scanned later) wins.
            let wv = t2[&winner];
            let ov = t2.iter().filter(|(k, _)| **k != winner).map(|(_, v)| *v).next().unwrap();
            assert!(wv > ov || (wv == ov && winner == runner_up));
        },
        _ => panic!("expected a two-round result"),
    }
}

#[test]
fn seeding_gives_history_to_settled_voters() {
    let mut rng = rng_from_seed(55);
    let parties = two_party_registry();
    let mut net = WattsStrogatz::new(12, 4, 300_000, 1, &mut rng).unwrap();
    // A new-voter share of zero seeds everyone.
    net.initialize_previous_votes(&parties, &Probability::new(0), &mut rng);
    for agent in net.get_agents() {
        let v = agent.get_last_vote();
        assert!(matches!(v, Some(p) if p < 2));
    }
}

#[test]
fn seeding_leaves_new_voters_untouched() {
    let mut rng = rng_from_seed(55);
    let parties = two_party_registry();
    let mut net = WattsStrogatz::new(12, 4, 300_000, 1, &mut rng).unwrap();
    // A new-voter share of one seeds nobody.
    net.initialize_previous_votes(&parties, &Probability::new(SCALE as i64), &mut rng);
    for agent in net.get_agents() {
        assert_eq!(agent.get_last_vote(), None);
    }
}

#[test]
fn network_trait_runs_an_election_end_to_end() {
    let mut rng = rng_from_seed(321);
    let parties = two_party_registry();
    let mut net = WattsStrogatz::new(24, 4, 500_000, 1, &mut rng).unwrap();
    net.initialize_previous_votes(&parties, &Probability::new(500_000), &mut rng);
    let result = net.hold_election(&parties, VotingSystem::FPTP, &mut rng).unwrap();
    match result {
        ElectionResult::FPTP(winner, tally) => {
            assert!(winner < 2);
            assert_eq!(tally[&0] + tally[&1], 24);
        },
        _ => panic!("expected a plurality result"),
    }
    // A second election reuses the committed history.
    let again = net.hold_election(&parties, VotingSystem::TwoRound, &mut rng).unwrap();
    assert!(matches!(again, ElectionResult::TwoRound(..)));
}

#[test]
fn same_seed_reproduces_the_election() {
    let run = |seed: u64| {
        let mut rng = rng_from_seed(seed);
        let parties = two_party_registry();
        let mut agents = population_at(400_000, 50, &mut rng);
        match hold_election_on(&mut agents, &parties, VotingSystem::FPTP, &mut rng).unwrap() {
            ElectionResult::FPTP(winner, tally) => (winner, tally[&0], tally[&1]),
            _ => panic!("expected a plurality result"),
        }
    };
    assert_eq!(run(777), run(777));
}

#[test]
fn update_previous_votes_copies_current_votes() {
    let mut rng = rng_from_seed(8);
    let parties = two_party_registry();
    let mut net = WattsStrogatz::new(10, 4, 0, 1, &mut rng).unwrap();
    {
        let agents = net.get_agents_mut();
        agents[0].set_last_vote(1);
    }
    net.update_previous_votes();
    // No agent has voted yet, so every slot is cleared, including the
    // one set by hand.
    for agent in net.get_agents() {
        assert_eq!(agent.get_last_vote(), None);
    }
}
