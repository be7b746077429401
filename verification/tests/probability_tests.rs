use election_simulator::errors::ElectionError;
use election_simulator::numeric::SCALE;
use election_simulator::probability::{Preferences, Probability};

#[test]
fn probability_new_clamps_negative_to_zero() {
    assert_eq!(Probability::new(-5).get_value(), 0);
    assert_eq!(Probability::new(i64::MIN).get_value(), 0);
}

#[test]
fn probability_new_clamps_above_one_to_one() {
    assert_eq!(Probability::new(1_500_000).get_value(), SCALE);
    assert_eq!(Probability::new(i64::MAX).get_value(), SCALE);
}

#[test]
fn probability_new_keeps_unit_interval_values() {
    assert_eq!(Probability::new(0).get_value(), 0);
    assert_eq!(Probability::new(250_000).get_value(), 250_000);
    assert_eq!(Probability::new(1_000_000).get_value(), SCALE);
}

#[test]
fn probability_difference_is_absolute() {
    let a = Probability::new(300_000);
    let b = Probability::new(700_000);
    assert_eq!(a.difference(&b).get_value(), 400_000);
    assert_eq!(b.difference(&a).get_value(), 400_000);
    assert_eq!(a.difference(&a).get_value(), 0);
}

#[test]
fn probability_powi_stays_in_unit_interval() {
    let half = Probability::new(500_000);
    assert_eq!(half.powi(0).get_value(), SCALE);
    assert_eq!(half.powi(1).get_value(), 500_000);
    assert_eq!(half.powi(2).get_value(), 250_000);
    let one = Probability::new(1_000_000);
    assert_eq!(one.powi(5).get_value(), SCALE);
    let zero = Probability::new(0);
    assert_eq!(zero.powi(3).get_value(), 0);
}

#[test]
fn preferences_new_clamps_each_value() {
    let p = Preferences::new(&vec![-10, 2_000_000, 400_000]);
    assert_eq!(p.len(), 3);
    assert_eq!(p.get_preference(0).get_value(), 0);
    assert_eq!(p.get_preference(1).get_value(), SCALE);
    assert_eq!(p.get_preference(2).get_value(), 400_000);
}

#[test]
fn preferences_from_iter_matches_new() {
    let p = Preferences::from_iter(vec![100_000, -7, 1_200_000]);
    assert_eq!(p.len(), 3);
    assert_eq!(p.get_preference(0).get_value(), 100_000);
    assert_eq!(p.get_preference(1).get_value(), 0);
    assert_eq!(p.get_preference(2).get_value(), SCALE);
}

#[test]
fn normalize_divides_by_total() {
    let p = Preferences::new_normalize(&vec![100_000, 300_000, 600_000]).unwrap();
    assert_eq!(p.get_preference(0).get_value(), 100_000);
    assert_eq!(p.get_preference(1).get_value(), 300_000);
    assert_eq!(p.get_preference(2).get_value(), 600_000);
}

#[test]
fn normalize_floors_negatives_and_sums_to_one() {
    let p = Preferences::new_normalize(&vec![-50, 1, 1, 2]).unwrap();
    assert_eq!(p.get_preference(0).get_value(), 0);
    assert_eq!(p.get_preference(1).get_value(), 250_000);
    assert_eq!(p.get_preference(2).get_value(), 250_000);
    assert_eq!(p.get_preference(3).get_value(), 500_000);
    let total: u64 = (0..p.len()).map(|i| p.get_preference(i).get_value()).sum();
    assert_eq!(total, SCALE);
}

#[test]
fn normalize_sum_is_within_rounding_of_one() {
    // 3 does not divide the scale, so each entry rounds down.
    let p = Preferences::new_normalize(&vec![7, 7, 7]).unwrap();
    let total: u64 = (0..p.len()).map(|i| p.get_preference(i).get_value()).sum();
    assert!(total <= SCALE);
    assert!(total > SCALE - 3);
    for i in 0..p.len() {
        assert_eq!(p.get_preference(i).get_value(), 333_333);
    }
}

#[test]
fn normalize_rejects_zero_total() {
    assert!(matches!(
        Preferences::new_normalize(&vec![0, -3, 0]),
        Err(ElectionError::DegenerateNormalization)
    ));
}

#[test]
fn normalize_of_empty_is_empty() {
    let p = Preferences::new_normalize(&vec![]).unwrap();
    assert_eq!(p.len(), 0);
}

#[test]
fn distance_to_self_is_zero() {
    let p = Preferences::new(&vec![123_456, 654_321, 42]);
    assert_eq!(p.distance(&p).unwrap(), 0);
}

#[test]
fn distance_is_symmetric() {
    let a = Preferences::new(&vec![100_000, 900_000]);
    let b = Preferences::new(&vec![250_000, 400_000]);
    assert_eq!(a.distance(&b).unwrap(), b.distance(&a).unwrap());
}

#[test]
fn distance_is_euclidean() {
    // A 3-4-5 right triangle in preference space.
    let a = Preferences::new(&vec![0, 0]);
    let b = Preferences::new(&vec![300_000, 400_000]);
    assert_eq!(a.distance(&b).unwrap(), 500_000);
    // One dimension: plain absolute difference.
    let c = Preferences::new(&vec![100_000]);
    let d = Preferences::new(&vec![900_000]);
    assert_eq!(c.distance(&d).unwrap(), 800_000);
}

#[test]
fn distance_rejects_mismatched_dimensions() {
    let a = Preferences::new(&vec![1, 2, 3]);
    let b = Preferences::new(&vec![1, 2]);
    assert_eq!(a.distance(&b), Err(ElectionError::DimensionMismatch));
    assert_eq!(b.distance(&a), Err(ElectionError::DimensionMismatch));
}

#[test]
fn choose_weighted_hits_cumulative_boundaries() {
    let p = Preferences::new(&vec![100_000, 300_000, 600_000]);
    assert_eq!(p.choose_weighted(0), 0);
    assert_eq!(p.choose_weighted(100_000), 0);
    assert_eq!(p.choose_weighted(100_001), 1);
    assert_eq!(p.choose_weighted(400_000), 1);
    assert_eq!(p.choose_weighted(400_001), 2);
    assert_eq!(p.choose_weighted(1_000_000), 2);
}

#[test]
fn choose_weighted_falls_back_to_last_index() {
    let p = Preferences::new(&vec![100_000, 300_000, 600_000]);
    assert_eq!(p.choose_weighted(1_000_001), 2);
    assert_eq!(p.choose_weighted(u64::MAX), 2);
}

#[test]
fn choose_weighted_skips_zero_weights() {
    let p = Preferences::new(&vec![0, 500_000, 500_000]);
    assert_eq!(p.choose_weighted(1), 1);
    let q = Preferences::new(&vec![0, 0, 1]);
    assert_eq!(q.choose_weighted(1), 2);
}

#[test]
fn pointwise_mul_multiplies_elementwise() {
    let a = Preferences::new(&vec![500_000, 1_000_000, 0]);
    let b = Preferences::new(&vec![500_000, 300_000, 900_000]);
    let c = a.pointwise_mul(&b);
    assert_eq!(c.get_preference(0).get_value(), 250_000);
    assert_eq!(c.get_preference(1).get_value(), 300_000);
    assert_eq!(c.get_preference(2).get_value(), 0);
}

#[test]
fn total_weight_sums_elements() {
    let p = Preferences::new(&vec![100_000, 300_000, 600_000]);
    assert_eq!(p.total_weight(), 1_000_000);
    let empty = Preferences::new(&vec![]);
    assert_eq!(empty.total_weight(), 0);
}

#[test]
fn error_messages_describe_each_kind() {
    assert!(ElectionError::ParameterError.message().contains("even"));
    assert!(ElectionError::ArityMismatch.message().contains("count"));
    assert!(ElectionError::DimensionMismatch.message().contains("dimension"));
    assert!(ElectionError::DegenerateNormalization.message().contains("zero"));
    assert!(ElectionError::InvariantViolation.message().contains("eliminated"));
}
