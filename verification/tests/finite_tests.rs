use markov_dist::distribution::Distribution;
use markov_dist::finite::{
    checked_total, has_duplicates, position_in, Categorical, FiniteDistribution, ProbabilityTable,
    TableError,
};
use markov_dist::ratio::Ratio;

fn coin() -> ProbabilityTable<u64> {
    ProbabilityTable::new(vec![0, 1], vec![1, 1], 2).unwrap()
}

#[test]
fn table_keeps_outcomes_weights_and_denominator() {
    let t = ProbabilityTable::new(vec![7u64, 9, 4], vec![1, 2, 3], 10).unwrap();
    assert_eq!(t.len(), 3);
    assert_eq!(t.outcome_list(), &vec![7u64, 9, 4]);
    assert_eq!(t.weight_list(), &vec![1u64, 2, 3]);
    assert_eq!(t.common_denominator(), 10);
    assert_eq!(t.sum_of_weights(), 6);
}

#[test]
fn table_refuses_length_mismatch() {
    let r = ProbabilityTable::new(vec![1u64, 2], vec![1], 1);
    assert_eq!(r.err(), Some(TableError::LengthMismatch));
}

#[test]
fn table_refuses_duplicate_outcome() {
    let r = ProbabilityTable::new(vec![1u64, 2, 1], vec![1, 1, 1], 3);
    assert_eq!(r.err(), Some(TableError::DuplicateOutcome));
}

#[test]
fn table_refuses_weight_overflow() {
    let r = ProbabilityTable::new(vec![1u64, 2], vec![u64::MAX, 1], 3);
    assert_eq!(r.err(), Some(TableError::WeightOverflow));
}

#[test]
fn table_refuses_zero_denominator() {
    let r = ProbabilityTable::new(vec![1u64, 2], vec![1, 1], 0);
    assert_eq!(r.err(), Some(TableError::ZeroDenominator));
}

#[test]
fn table_reports_first_defect() {
    // Both a duplicate and a zero denominator: the duplicate is named.
    let r = ProbabilityTable::new(vec![1u64, 1], vec![1, 1], 0);
    assert_eq!(r.err(), Some(TableError::DuplicateOutcome));
    // A length mismatch comes before everything else.
    let r = ProbabilityTable::new(vec![1u64, 1], vec![1], 0);
    assert_eq!(r.err(), Some(TableError::LengthMismatch));
}

#[test]
fn total_weight_of_exactly_u64_max_is_accepted() {
    let t = ProbabilityTable::new(vec![1u64, 2], vec![u64::MAX - 1, 1], 5).unwrap();
    assert_eq!(t.sum_of_weights(), u64::MAX);
}

#[test]
fn unnormalized_table_is_accepted() {
    let t = ProbabilityTable::new(vec![1u64, 2], vec![1, 1], 4).unwrap();
    assert_eq!(t.probability(&1), Ratio::new(1, 4));
    assert_eq!(t.sum_of_weights(), 2);
}

#[test]
fn normalized_table_has_total_weight_as_denominator() {
    let t = ProbabilityTable::normalized(vec![5u64, 6, 7], vec![2, 3, 5]).unwrap();
    assert_eq!(t.common_denominator(), 10);
    assert_eq!(t.sum_of_weights(), t.common_denominator());
}

#[test]
fn normalized_table_refuses_zero_total() {
    let r = ProbabilityTable::normalized(vec![5u64, 6], vec![0, 0]);
    assert_eq!(r.err(), Some(TableError::ZeroDenominator));
    let r = ProbabilityTable::<u64>::normalized(vec![], vec![]);
    assert_eq!(r.err(), Some(TableError::ZeroDenominator));
}

#[test]
fn normalized_table_refuses_other_defects() {
    let r = ProbabilityTable::normalized(vec![5u64, 6], vec![1]);
    assert_eq!(r.err(), Some(TableError::LengthMismatch));
    let r = ProbabilityTable::normalized(vec![5u64, 5], vec![1, 1]);
    assert_eq!(r.err(), Some(TableError::DuplicateOutcome));
    let r = ProbabilityTable::normalized(vec![5u64, 6], vec![u64::MAX, u64::MAX]);
    assert_eq!(r.err(), Some(TableError::WeightOverflow));
}

#[test]
fn probabilities_of_normalized_table_sum_to_one() {
    let t = ProbabilityTable::normalized(vec![5u64, 6, 7], vec![2, 3, 5]).unwrap();
    let mut num: i128 = 0;
    for k in t.outcome_list() {
        let p = t.probability(k);
        assert_eq!(p.den, 10);
        num += p.num;
    }
    assert_eq!(num, 10);
    let as_float: f64 = t
        .outcome_list()
        .iter()
        .map(|k| {
            let p = t.probability(k);
            p.num as f64 / p.den as f64
        })
        .sum();
    assert!((as_float - 1.0).abs() < 1e-12);
}

#[test]
fn probability_of_unknown_key_is_zero() {
    let t = coin();
    assert_eq!(t.probability(&17), Ratio::new(0, 2));
    assert_eq!(t.weight(&17), 0);
    assert_eq!(t.position(&17), None);
}

#[test]
fn probability_of_known_key_is_stored_weight() {
    let t = ProbabilityTable::new(vec![7u64, 9, 4], vec![1, 2, 3], 6).unwrap();
    assert_eq!(t.probability(&9), Ratio::new(2, 6));
    assert_eq!(t.weight(&4), 3);
    assert_eq!(t.position(&4), Some(2));
}

#[test]
fn draw_falls_on_outcome_by_cumulative_weight() {
    let t = ProbabilityTable::new(vec![7u64, 9, 4], vec![2, 0, 3], 5).unwrap();
    assert_eq!(t.position_of_draw(0), 0);
    assert_eq!(t.position_of_draw(1), 0);
    // The outcome of weight zero is never hit.
    assert_eq!(t.position_of_draw(2), 2);
    assert_eq!(t.position_of_draw(4), 2);
}

#[test]
fn draw_skips_leading_zero_weights() {
    let t = ProbabilityTable::new(vec![7u64, 9, 4], vec![0, 0, 1], 1).unwrap();
    assert_eq!(t.position_of_draw(0), 2);
}

#[test]
fn outcome_for_draw_inverts_cumulative_weights() {
    let t = ProbabilityTable::normalized(vec![10u64, 20, 30], vec![1, 2, 3]).unwrap();
    let c = Categorical::new(t).unwrap();
    let got: Vec<u64> = (0..6).map(|d| c.outcome_for(d)).collect();
    assert_eq!(got, vec![10, 20, 20, 30, 30, 30]);
}

#[test]
fn categorical_needs_positive_total_weight() {
    let t = ProbabilityTable::new(vec![1u64, 2], vec![0, 0], 1).unwrap();
    assert!(Categorical::new(t).is_none());
    assert!(Categorical::new(coin()).is_some());
}

#[test]
fn categorical_sample_has_positive_weight() {
    // Was the draw not below the total weight, the outcome of weight zero
    // at the front would come out.
    let t = ProbabilityTable::new(vec![1u64, 2, 3], vec![0, 5, 0], 5).unwrap();
    let c = Categorical::new(t).unwrap();
    for _ in 0..200 {
        assert_eq!(c.sample(), 2);
    }
}

#[test]
fn categorical_sample_reaches_every_outcome_of_positive_weight() {
    let c = Categorical::new(coin()).unwrap();
    let mut seen = [false, false];
    for _ in 0..2000 {
        seen[c.sample() as usize] = true;
    }
    assert!(seen[0] && seen[1]);
}

#[test]
fn categorical_table_and_probability() {
    let c = Categorical::new(coin()).unwrap();
    assert_eq!(c.table().len(), 2);
    assert_eq!(FiniteDistribution::probability(&c, &1), Ratio::new(1, 2));
    assert_eq!(FiniteDistribution::probability(&c, &5), Ratio::new(0, 2));
}

#[test]
fn exact_expectation_with_sample_size_one_is_weighted_sum() {
    let c = Categorical::new(coin()).unwrap();
    let e = c.exact_expectation(|x: &u64| *x as i64, 1);
    assert_eq!(e, Ratio::new(1, 2));
    // The estimator of the general interface is exact as well.
    let e = Distribution::expectation(&c, |x: &u64| *x as i64, 1);
    assert_eq!(e, Ratio::new(1, 2));
}

#[test]
fn exact_expectation_of_three_outcomes() {
    let t = ProbabilityTable::normalized(vec![1u64, 2, 3], vec![1, 2, 3]).unwrap();
    let c = Categorical::new(t).unwrap();
    // (1*10 + 2*20 + 3*30) / 6 = 140 / 6
    let e = c.exact_expectation(|x: &u64| (*x as i64) * 10, 1);
    assert_eq!(e, Ratio::new(140, 6));
}

#[test]
fn exact_expectation_divides_by_sample_size() {
    let c = Categorical::new(coin()).unwrap();
    let e = c.exact_expectation(|x: &u64| *x as i64, 4);
    assert_eq!(e, Ratio::new(1, 8));
    let e = c.exact_expectation(|x: &u64| *x as i64, 0);
    assert_eq!(e, Ratio::new(1, 0));
}

#[test]
fn exact_expectation_of_negative_values() {
    let t = ProbabilityTable::normalized(vec![1u64, 2], vec![3, 1]).unwrap();
    let e = t.exact_expectation(&|x: &u64| if *x == 1 { -5 } else { 7 }, 1);
    assert_eq!(e, Ratio::new(-8, 4));
    assert_eq!(t.weighted_total(&|x: &u64| if *x == 1 { -5 } else { 7 }), -8);
}

#[test]
fn exact_expectation_at_the_limits() {
    let t = ProbabilityTable::new(vec![1u64], vec![u64::MAX], u64::MAX).unwrap();
    let e = t.exact_expectation(&|_: &u64| i64::MIN, usize::MAX);
    assert_eq!(e.num, (u64::MAX as i128) * (i64::MIN as i128));
    assert_eq!(e.den, (u64::MAX as u128) * (usize::MAX as u128));
}

#[test]
fn expectation_does_not_call_function_on_zero_weight() {
    let t = ProbabilityTable::new(vec![1u64, 2], vec![0, 1], 1).unwrap();
    let e = t.exact_expectation(
        &|x: &u64| {
            assert_ne!(*x, 1);
            3
        },
        1,
    );
    assert_eq!(e, Ratio::new(3, 1));
}

#[test]
fn helpers_on_plain_vectors() {
    assert_eq!(position_in(&vec![4u64, 5, 4], &4), Some(0));
    assert_eq!(position_in(&vec![4u64, 5, 4], &6), None);
    assert!(has_duplicates(&vec![4u64, 5, 4]));
    assert!(!has_duplicates(&vec![4u64, 5, 6]));
    assert!(!has_duplicates::<u64>(&vec![]));
    assert_eq!(checked_total(&vec![1, 2, 3]), Some(6));
    assert_eq!(checked_total(&vec![]), Some(0));
    assert_eq!(checked_total(&vec![u64::MAX, 1]), None);
}
