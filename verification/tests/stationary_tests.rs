use markov_dist::distribution::Distribution;
use markov_dist::elimination::{solve, Fraction, Solution};
use markov_dist::finite::{Categorical, FiniteDistribution, ProbabilityTable};
use markov_dist::markov_process::FiniteMarkovProcess;
use markov_dist::ratio::Ratio;
use markov_dist::state::NonTerminal;
use markov_dist::stationary::{balance_equations, stationary_weights, StationaryError};

type Chain = FiniteMarkovProcess<u64, Categorical<u64>>;

fn chain(rows: Vec<(u64, Vec<u64>, Vec<u64>)>) -> Chain {
    let states = rows.iter().map(|r| NonTerminal::new(r.0)).collect();
    let map = rows
        .into_iter()
        .map(|(s, outcomes, weights)| {
            let table = ProbabilityTable::normalized(outcomes, weights).unwrap();
            (NonTerminal::new(s), Categorical::new(table).unwrap())
        })
        .collect();
    FiniteMarkovProcess::new(states, map).unwrap()
}

fn same_fraction(p: Ratio, num: i128, den: u128) -> bool {
    p.den != 0 && p.num * den as i128 == num * p.den as i128
}

fn values(found: &Solution) -> Vec<(i128, i128)> {
    match found {
        Solution::Unique(x) => x
            .iter()
            .map(|f| {
                assert_ne!(f.den, 0);
                // In lowest terms, with a positive denominator.
                let mut a = f.num.abs();
                let mut b = f.den.abs();
                while b != 0 {
                    let r = a % b;
                    a = b;
                    b = r;
                }
                let sign = if f.den < 0 { -1 } else { 1 };
                (sign * f.num / a, sign * f.den / a)
            })
            .collect(),
        other => panic!("no unique solution: {:?}", other),
    }
}

#[test]
fn solve_finds_the_solution_of_a_regular_system() {
    // 2x + y = 5, x - y = 1: x = 2, y = 1.
    let found = solve(vec![vec![2, 1, 5], vec![1, -1, 1]], 2);
    assert_eq!(values(&found), vec![(2, 1), (1, 1)]);
}

#[test]
fn solve_finds_fractions() {
    // 2x = 1, 3y = -2.
    let found = solve(vec![vec![2, 0, 1], vec![0, 3, -2]], 2);
    assert_eq!(values(&found), vec![(1, 2), (-2, 3)]);
}

#[test]
fn solve_exchanges_rows_to_find_a_pivot() {
    // y = 3, x + y = 4: the first row has no entry in the first column.
    let found = solve(vec![vec![0, 1, 3], vec![1, 1, 4]], 2);
    assert_eq!(values(&found), vec![(1, 1), (3, 1)]);
}

#[test]
fn solve_accepts_redundant_equations() {
    // x + y = 3, 2x + 2y = 6, x - y = 1: x = 2, y = 1.
    let found = solve(vec![vec![1, 1, 3], vec![2, 2, 6], vec![1, -1, 1]], 2);
    assert_eq!(values(&found), vec![(2, 1), (1, 1)]);
}

#[test]
fn solve_reports_contradiction() {
    // x + y = 1, x + y = 2.
    assert_eq!(solve(vec![vec![1, 1, 1], vec![1, 1, 2]], 2), Solution::NotUnique);
    // x = 1, x = 2.
    assert_eq!(solve(vec![vec![1, 1], vec![1, 2]], 1), Solution::NotUnique);
}

#[test]
fn solve_reports_free_unknown() {
    // x + y = 1 alone.
    assert_eq!(solve(vec![vec![1, 1, 1]], 2), Solution::NotUnique);
    // x + y = 1, 2x + 2y = 2.
    assert_eq!(solve(vec![vec![1, 1, 1], vec![2, 2, 2]], 2), Solution::NotUnique);
    // No equation at all.
    assert_eq!(solve(vec![], 1), Solution::NotUnique);
}

#[test]
fn solve_without_unknowns() {
    assert_eq!(solve(vec![], 0), Solution::Unique(vec![]));
    assert_eq!(solve(vec![vec![0]], 0), Solution::Unique(vec![]));
    assert_eq!(solve(vec![vec![1]], 0), Solution::NotUnique);
}

#[test]
fn solve_reports_overflow() {
    let big = i128::MAX / 2;
    let found = solve(vec![vec![big, 1, 1], vec![1, big, 1]], 2);
    assert_eq!(found, Solution::Overflow);
}

#[test]
fn solve_returns_pivot_and_right_hand_side() {
    // 3x = 6: the fraction is kept as it comes out.
    let found = solve(vec![vec![3, 6]], 1);
    assert_eq!(found, Solution::Unique(vec![Fraction { num: 6, den: 3 }]));
}

#[test]
fn balance_equations_of_swap_chain() {
    let rows = balance_equations(&vec![vec![0, 1], vec![1, 0]], &vec![1, 1]);
    assert_eq!(rows, vec![vec![-1, 1, 0], vec![1, -1, 0], vec![1, 1, 1]]);
}

#[test]
fn balance_equations_use_denominators() {
    // From 0: to 0 with 1/4, to 1 with 3/4. From 1: to 0 with 2/2.
    let rows = balance_equations(&vec![vec![1, 3], vec![2, 0]], &vec![4, 2]);
    assert_eq!(rows, vec![vec![-3, 2, 0], vec![3, -2, 0], vec![4, 2, 1]]);
}

#[test]
fn stationary_weights_of_swap_chain() {
    let (a, d) = stationary_weights(&vec![vec![0, 1], vec![1, 0]], &vec![1, 1]).unwrap();
    assert_eq!(a.len(), 2);
    assert_eq!(a[0] * 2, d);
    assert_eq!(a[1] * 2, d);
}

#[test]
fn stationary_weights_add_up_to_denominator() {
    let (a, d) =
        stationary_weights(&vec![vec![1, 3], vec![2, 0]], &vec![4, 2]).unwrap();
    assert_eq!(a.iter().sum::<u64>(), d);
    // pi = (4/7, 3/7)
    assert_eq!(a[0] * 7, 4 * d);
    assert_eq!(a[1] * 7, 3 * d);
}

#[test]
fn stationary_distribution_of_swap_chain_is_uniform() {
    let p = chain(vec![(0, vec![1], vec![1]), (1, vec![0], vec![1])]);
    let pi = p.get_stationary_distribution().unwrap();
    assert_eq!(pi.table().outcome_list(), &vec![0, 1]);
    for state in [0u64, 1] {
        let prob = FiniteDistribution::probability(&pi, &state);
        assert!(same_fraction(prob, 1, 2));
        assert!((prob.num as f64 / prob.den as f64 - 0.5).abs() < 1e-12);
    }
    assert_eq!(pi.table().sum_of_weights(), pi.table().common_denominator());
}

#[test]
fn stationary_distribution_of_three_states() {
    // A walk on 0 - 1 - 2 that stays with probability 1/2:
    // pi = (1/4, 1/2, 1/4).
    let p = chain(vec![
        (0, vec![0, 1], vec![1, 1]),
        (1, vec![0, 1, 2], vec![1, 2, 1]),
        (2, vec![1, 2], vec![1, 1]),
    ]);
    let pi = p.get_stationary_distribution().unwrap();
    assert!(same_fraction(FiniteDistribution::probability(&pi, &0), 1, 4));
    assert!(same_fraction(FiniteDistribution::probability(&pi, &1), 1, 2));
    assert!(same_fraction(FiniteDistribution::probability(&pi, &2), 1, 4));
    assert!(same_fraction(FiniteDistribution::probability(&pi, &7), 0, 1));
}

#[test]
fn stationary_distribution_follows_order_of_states() {
    let p = chain(vec![(1, vec![0], vec![1]), (0, vec![0, 1], vec![1, 3])]);
    let pi = p.get_stationary_distribution().unwrap();
    assert_eq!(pi.table().outcome_list(), &vec![1, 0]);
    // pi(0) = 4/7, pi(1) = 3/7
    assert!(same_fraction(FiniteDistribution::probability(&pi, &0), 4, 7));
    assert!(same_fraction(FiniteDistribution::probability(&pi, &1), 3, 7));
}

#[test]
fn stationary_distribution_can_be_sampled() {
    let p = chain(vec![(0, vec![1], vec![1]), (1, vec![0], vec![1])]);
    let pi = p.get_stationary_distribution().unwrap();
    let mut seen = [false, false];
    for _ in 0..2000 {
        seen[pi.sample() as usize] = true;
    }
    assert!(seen[0] && seen[1]);
}

#[test]
fn stationary_distribution_of_single_state() {
    let p = chain(vec![(5, vec![5], vec![1])]);
    let pi = p.get_stationary_distribution().unwrap();
    assert!(same_fraction(FiniteDistribution::probability(&pi, &5), 1, 1));
}

#[test]
fn chain_that_is_absorbed_has_no_stationary_distribution() {
    // 0 -> 1 for sure, 1 -> 0 or the absorbing 2.
    let p = chain(vec![(0, vec![1], vec![1]), (1, vec![0, 2], vec![1, 1])]);
    assert_eq!(
        p.get_stationary_distribution().err(),
        Some(StationaryError::NoUniqueStationaryDistribution)
    );
    // The sole active state leads to the absorbing state for sure.
    let p = chain(vec![(0, vec![1], vec![1])]);
    assert_eq!(
        p.get_stationary_distribution().err(),
        Some(StationaryError::NoUniqueStationaryDistribution)
    );
}

#[test]
fn chain_of_two_closed_classes_has_no_unique_stationary_distribution() {
    let p = chain(vec![(0, vec![0], vec![1]), (1, vec![1], vec![1])]);
    assert_eq!(
        p.get_stationary_distribution().err(),
        Some(StationaryError::NoUniqueStationaryDistribution)
    );
}

#[test]
fn process_without_states_has_no_stationary_distribution() {
    let p: Chain = FiniteMarkovProcess::new(vec![], vec![]).unwrap();
    assert_eq!(
        p.get_stationary_distribution().err(),
        Some(StationaryError::NoUniqueStationaryDistribution)
    );
}

#[test]
fn stationary_distribution_reports_overflow() {
    let big = 1u64 << 62;
    let p = chain(vec![
        (0, vec![0, 1, 2], vec![big, big - 1, 1]),
        (1, vec![0, 1, 2], vec![1, big, big - 1]),
        (2, vec![0, 1, 2], vec![big - 1, 1, big]),
    ]);
    assert_eq!(p.get_stationary_distribution().err(), Some(StationaryError::Overflow));
}

#[test]
fn transition_weights_are_rows_of_the_matrix() {
    let p = chain(vec![(0, vec![0, 1, 2], vec![1, 1, 2]), (1, vec![2], vec![1])]);
    let (w, t) = p.transition_weights();
    assert_eq!(w, vec![vec![1, 1], vec![0, 0]]);
    assert_eq!(t, vec![4, 1]);
}
