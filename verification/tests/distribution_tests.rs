use markov_dist::distribution::{mean_of_draws, DistMap, Distribution, SampledDist};
use markov_dist::finite::{Categorical, ProbabilityTable};
use markov_dist::ratio::Ratio;
use std::cell::Cell;

fn uniform(outcomes: Vec<u64>) -> Categorical<u64> {
    let weights = vec![1; outcomes.len()];
    Categorical::new(ProbabilityTable::normalized(outcomes, weights).unwrap()).unwrap()
}

#[test]
fn map_does_not_call_function_before_a_sample_is_asked_for() {
    let calls = Cell::new(0u32);
    let mapped = uniform(vec![3]).map(|x: u64| {
        calls.set(calls.get() + 1);
        x * 2
    });
    assert_eq!(calls.get(), 0);
    assert_eq!(mapped.sample(), 6);
    assert_eq!(calls.get(), 1);
    let e = mapped.expectation(|u: &u64| *u as i64, 5);
    assert_eq!(e, Ratio::new(30, 5));
    assert_eq!(calls.get(), 6);
}

#[test]
fn apply_does_not_call_function_before_a_sample_is_asked_for() {
    let calls = Cell::new(0u32);
    let bound: SampledDist<_, _, _, u64> = uniform(vec![3]).apply(|x: u64| {
        calls.set(calls.get() + 1);
        uniform(vec![x + 1])
    });
    assert_eq!(calls.get(), 0);
    assert_eq!(bound.sample(), 4);
    assert_eq!(calls.get(), 1);
}

#[test]
fn map_samples_are_images_of_source_outcomes() {
    let mapped = uniform(vec![1, 2, 3]).map(|x: u64| x * 10);
    for _ in 0..200 {
        let u = mapped.sample();
        assert!(u == 10 || u == 20 || u == 30);
    }
}

#[test]
fn apply_samples_source_then_dependent_distribution() {
    // First a fair coin t, then a fair choice between 10 t and 10 t + 1:
    // each of 0, 1, 10, 11 has probability 1/4.
    let bound: SampledDist<_, _, _, u64> =
        uniform(vec![0, 1]).apply(|t: u64| uniform(vec![10 * t, 10 * t + 1]));
    let n = 40000;
    let mut counts = [0u32; 4];
    for _ in 0..n {
        let slot = match bound.sample() {
            0 => 0,
            1 => 1,
            10 => 2,
            11 => 3,
            other => panic!("impossible outcome {}", other),
        };
        counts[slot] += 1;
    }
    for c in counts {
        let freq = c as f64 / n as f64;
        assert!((freq - 0.25).abs() < 0.02, "frequency {}", freq);
    }
}

#[test]
fn apply_expectation_is_sample_mean() {
    let bound: SampledDist<_, _, _, u64> = uniform(vec![2]).apply(|t: u64| uniform(vec![t + 5]));
    let e = bound.expectation(|u: &u64| *u as i64, 3);
    assert_eq!(e, Ratio::new(21, 3));
}

fn mean_error(sample_size: usize, trials: usize) -> f64 {
    let coin = uniform(vec![0, 1]).map(|x: u64| x);
    let mut total = 0.0;
    for _ in 0..trials {
        let e = coin.expectation(|x: &u64| *x as i64, sample_size);
        assert_eq!(e.den, sample_size as u128);
        total += (e.num as f64 / e.den as f64 - 0.5).abs();
    }
    total / trials as f64
}

#[test]
fn sampled_expectation_of_fair_coin_converges_to_one_half() {
    let coarse = mean_error(20, 40);
    let fine = mean_error(20000, 40);
    assert!(fine < 0.02, "error {}", fine);
    assert!(fine < coarse, "errors {} and {}", fine, coarse);
}

#[test]
fn sampled_expectation_with_no_samples_is_undefined() {
    let coin = uniform(vec![0, 1]).map(|x: u64| x);
    let e = coin.expectation(|x: &u64| *x as i64, 0);
    assert_eq!(e, Ratio::new(0, 0));
}

#[test]
fn mean_of_draws_sums_values_over_sample_size() {
    let next = Cell::new(0i64);
    let draw = || {
        next.set(next.get() + 1);
        next.get()
    };
    let e = mean_of_draws(&draw, &|x: &i64| *x * 2, 4);
    assert_eq!(e, Ratio::new(20, 4));
}

#[test]
fn mean_of_draws_at_the_limits_of_the_values() {
    let e = mean_of_draws(&|| 0u8, &|_: &u8| i64::MIN, 3);
    assert_eq!(e, Ratio::new(3 * (i64::MIN as i128), 3));
}

#[test]
fn sample_iter_never_runs_dry() {
    let mut iter = uniform(vec![4, 5]).sample_iter();
    for _ in 0..100 {
        let item = iter.next();
        assert!(item == Some(4) || item == Some(5));
    }
}

#[test]
fn sample_iter_take_returns_requested_count() {
    let mut iter = uniform(vec![8]).sample_iter();
    assert_eq!(iter.take(5), vec![8, 8, 8, 8, 8]);
    assert_eq!(iter.take(0), Vec::<u64>::new());
    assert_eq!(iter.next(), Some(8));
}

#[test]
fn map_of_map_composes() {
    let d: DistMap<_, _, _, u64> = uniform(vec![1]).map(|x: u64| x + 1).map(|x: u64| x * 3);
    assert_eq!(d.sample(), 6);
}
