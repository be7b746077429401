use election_simulator::errors::ElectionError;
use election_simulator::network::{
    find_winner, top_two, wrapping_add, wrapping_sub, Network, WattsStrogatz,
};
use election_simulator::numeric::SCALE;
use election_simulator::rng::rng_from_seed;

#[test]
fn wrapping_helpers_do_ring_arithmetic() {
    assert_eq!(wrapping_add(8, 5, 10), 3);
    assert_eq!(wrapping_add(2, 3, 10), 5);
    assert_eq!(wrapping_sub(2, 5, 10), 7);
    assert_eq!(wrapping_sub(5, 2, 10), 3);
    assert_eq!(wrapping_sub(0, 1, 4), 3);
}

#[test]
fn find_winner_breaks_ties_toward_later_candidate() {
    assert_eq!(find_winner(&vec![5, 7, 7]), 2);
    assert_eq!(find_winner(&vec![7, 7, 5]), 1);
    assert_eq!(find_winner(&vec![3, 3, 3]), 2);
    assert_eq!(find_winner(&vec![9, 1, 2]), 0);
    assert_eq!(find_winner(&vec![3]), 0);
}

#[test]
fn top_two_selects_highest_pair() {
    assert_eq!(top_two(&vec![5, 3, 4]), (0, 2));
    assert_eq!(top_two(&vec![2, 9, 5, 6]), (1, 3));
    assert_eq!(top_two(&vec![1, 2, 3, 4]), (3, 2));
    // Ties go to the later-scanned entry.
    assert_eq!(top_two(&vec![4, 4]), (1, 0));
    assert_eq!(top_two(&vec![4, 4, 4]), (2, 1));
}

#[test]
fn watts_strogatz_rejects_odd_degree() {
    let mut rng = rng_from_seed(1);
    assert!(matches!(
        WattsStrogatz::new(10, 3, 0, 1, &mut rng),
        Err(ElectionError::ParameterError)
    ));
}

#[test]
fn watts_strogatz_rejects_beta_outside_unit_interval() {
    let mut rng = rng_from_seed(1);
    assert!(matches!(
        WattsStrogatz::new(10, 4, -1, 1, &mut rng),
        Err(ElectionError::ParameterError)
    ));
    assert!(matches!(
        WattsStrogatz::new(10, 4, SCALE as i64 + 1, 1, &mut rng),
        Err(ElectionError::ParameterError)
    ));
}

#[test]
fn watts_strogatz_rejects_too_few_nodes() {
    let mut rng = rng_from_seed(1);
    assert!(matches!(
        WattsStrogatz::new(2, 2, 0, 1, &mut rng),
        Err(ElectionError::ParameterError)
    ));
    assert!(matches!(
        WattsStrogatz::new(3, 4, 0, 1, &mut rng),
        Err(ElectionError::ParameterError)
    ));
}

#[test]
fn watts_strogatz_enforces_logarithm_bound() {
    let mut rng = rng_from_seed(1);
    // ln 7 < 2 < ln 8, so degree 2 admits seven nodes but not eight.
    assert!(WattsStrogatz::new(7, 2, 0, 1, &mut rng).is_ok());
    assert!(matches!(
        WattsStrogatz::new(8, 2, 0, 1, &mut rng),
        Err(ElectionError::ParameterError)
    ));
}

#[test]
fn ring_lattice_has_exact_degree_sequence() {
    let mut rng = rng_from_seed(5);
    let net = WattsStrogatz::new(20, 4, 0, 1, &mut rng).unwrap();
    let agents = net.get_agents();
    assert_eq!(agents.len(), 20);
    for (i, agent) in agents.iter().enumerate() {
        let friends = agent.get_friends();
        assert_eq!(friends.len(), 4);
        let mut sorted = friends.clone();
        sorted.sort();
        let expected = vec![
            (i + 18) % 20,
            (i + 19) % 20,
            (i + 1) % 20,
            (i + 2) % 20,
        ];
        let mut expected_sorted = expected.clone();
        expected_sorted.sort();
        assert_eq!(sorted, expected_sorted);
    }
}

#[test]
fn complete_ring_connects_everyone() {
    let mut rng = rng_from_seed(5);
    // With K == N the lattice is the complete graph and rewiring is
    // skipped; each node has N - 1 friends.
    let net = WattsStrogatz::new(4, 4, 700_000, 1, &mut rng).unwrap();
    for agent in net.get_agents() {
        assert_eq!(agent.get_friends().len(), 3);
    }
}

#[test]
fn rewired_network_stays_symmetric_without_self_loops() {
    let mut rng = rng_from_seed(42);
    let net = WattsStrogatz::new(30, 4, SCALE as i64, 2, &mut rng).unwrap();
    let agents = net.get_agents();
    assert_eq!(agents.len(), 30);
    for (i, agent) in agents.iter().enumerate() {
        for f in agent.get_friends() {
            assert!(f < 30);
            assert_ne!(f, i);
            assert!(agents[f].get_friends().contains(&i));
        }
        assert_eq!(agent.get_preferences().len(), 2);
    }
}

#[test]
fn full_rewiring_changes_the_ring() {
    let mut rng = rng_from_seed(42);
    let net = WattsStrogatz::new(30, 4, SCALE as i64, 1, &mut rng).unwrap();
    // A statistical check: with beta at 1 every right-hand edge is
    // offered for rewiring, so the exact ring degree sequence is
    // overwhelmingly unlikely to survive (checked for this seed).
    let mut any_changed = false;
    for agent in net.get_agents() {
        if agent.get_friends().len() != 4 {
            any_changed = true;
        }
    }
    assert!(any_changed);
}

#[test]
fn same_seed_reproduces_the_network() {
    let mut rng_a = rng_from_seed(123);
    let mut rng_b = rng_from_seed(123);
    let net_a = WattsStrogatz::new(16, 4, 500_000, 1, &mut rng_a).unwrap();
    let net_b = WattsStrogatz::new(16, 4, 500_000, 1, &mut rng_b).unwrap();
    for (a, b) in net_a.get_agents().iter().zip(net_b.get_agents().iter()) {
        let mut fa = a.get_friends();
        let mut fb = b.get_friends();
        fa.sort();
        fb.sort();
        assert_eq!(fa, fb);
    }
}
