use election_simulator::errors::ElectionError;
use election_simulator::numeric::SCALE;
use election_simulator::party::{contains_id, index_of_id, Parties, Party};
use election_simulator::probability::Preferences;
use election_simulator::rng::rng_from_seed;

#[test]
fn party_new_has_default_attractiveness_one() {
    let p = Party::new(String::from("Left"), Preferences::new(&vec![100_000]));
    assert_eq!(p.get_attractiveness(), SCALE as i64);
    assert_eq!(p.get_name(), "Left");
    assert_eq!(p.get_preferences().len(), 1);
    assert_eq!(p.get_preferences().get_preference(0).get_value(), 100_000);
}

#[test]
fn party_set_attractiveness_is_unconstrained() {
    let mut p = Party::new(String::from("X"), Preferences::new(&vec![0]));
    p.set_attractiveness(-3_000_000);
    assert_eq!(p.get_attractiveness(), -3_000_000);
    p.set_attractiveness(9_000_000);
    assert_eq!(p.get_attractiveness(), 9_000_000);
}

#[test]
fn parties_new_builds_sequential_ids() {
    let names = vec![String::from("A"), String::from("B"), String::from("C")];
    let prefs = vec![vec![0], vec![500_000], vec![1_000_000]];
    let ps = Parties::new(3, &names, &prefs).unwrap();
    assert_eq!(ps.len(), 3);
    assert_eq!(ps.get_parties(), vec![0, 1, 2]);
    assert_eq!(ps.get_party(1).unwrap().get_name(), "B");
    assert_eq!(
        ps.get_party(2).unwrap().get_preferences().get_preference(0).get_value(),
        1_000_000
    );
    assert!(ps.get_party(3).is_none());
}

#[test]
fn parties_new_clamps_positions() {
    let names = vec![String::from("A")];
    let prefs = vec![vec![-44, 2_000_000]];
    let ps = Parties::new(1, &names, &prefs).unwrap();
    let party = ps.get_party(0).unwrap();
    assert_eq!(party.get_preferences().get_preference(0).get_value(), 0);
    assert_eq!(party.get_preferences().get_preference(1).get_value(), SCALE);
}

#[test]
fn parties_new_rejects_mismatched_arities() {
    let names = vec![String::from("A"), String::from("B")];
    let prefs = vec![vec![0], vec![1], vec![2]];
    assert!(matches!(
        Parties::new(3, &names, &prefs),
        Err(ElectionError::ArityMismatch)
    ));
    let prefs2 = vec![vec![0], vec![1]];
    assert!(matches!(
        Parties::new(3, &names, &prefs2),
        Err(ElectionError::ArityMismatch)
    ));
}

#[test]
fn parties_new_random_names_by_digit() {
    let mut rng = rng_from_seed(7);
    let ps = Parties::new_random(4, 2, &mut rng);
    assert_eq!(ps.len(), 4);
    assert_eq!(ps.get_party(0).unwrap().get_name(), "0");
    assert_eq!(ps.get_party(3).unwrap().get_name(), "3");
    for id in 0..4 {
        let p = ps.get_party(id).unwrap();
        assert_eq!(p.get_preferences().len(), 2);
        for d in 0..2 {
            assert!(p.get_preferences().get_preference(d).get_value() <= SCALE);
        }
        assert_eq!(p.get_attractiveness(), SCALE as i64);
    }
}

#[test]
fn parties_new_with_names_keeps_names() {
    let mut rng = rng_from_seed(11);
    let names = vec![String::from("Left"), String::from("Right")];
    let ps = Parties::new_with_names(2, 3, &names, &mut rng).unwrap();
    assert_eq!(ps.get_party(0).unwrap().get_name(), "Left");
    assert_eq!(ps.get_party(1).unwrap().get_name(), "Right");
    assert_eq!(ps.get_party(0).unwrap().get_preferences().len(), 3);
}

#[test]
fn parties_new_with_names_rejects_wrong_count() {
    let mut rng = rng_from_seed(11);
    let names = vec![String::from("Left")];
    assert!(matches!(
        Parties::new_with_names(2, 1, &names, &mut rng),
        Err(ElectionError::ArityMismatch)
    ));
}

#[test]
fn parties_set_attractiveness_targets_one_party() {
    let names = vec![String::from("A"), String::from("B")];
    let prefs = vec![vec![0], vec![1]];
    let mut ps = Parties::new(2, &names, &prefs).unwrap();
    ps.set_attractiveness(1, 42);
    assert_eq!(ps.get_party(0).unwrap().get_attractiveness(), SCALE as i64);
    assert_eq!(ps.get_party(1).unwrap().get_attractiveness(), 42);
}

#[test]
fn order_lookup_helpers() {
    let order = vec![4usize, 7, 2];
    assert!(contains_id(&order, 7));
    assert!(!contains_id(&order, 5));
    assert_eq!(index_of_id(&order, 2), Some(2));
    assert_eq!(index_of_id(&order, 4), Some(0));
    assert_eq!(index_of_id(&order, 9), None);
}
