use markov_dist::finite::{Categorical, ProbabilityTable};
use markov_dist::markov_process::{
    state_values, transition_keys, FiniteMarkovProcess, MarkovProcess, ProcessError,
};
use markov_dist::ratio::Ratio;
use markov_dist::state::{NonTerminal, State, Terminal};

type Chain = FiniteMarkovProcess<u64, Categorical<u64>>;

fn dist(outcomes: Vec<u64>, weights: Vec<u64>) -> Categorical<u64> {
    Categorical::new(ProbabilityTable::normalized(outcomes, weights).unwrap()).unwrap()
}

fn chain(rows: Vec<(u64, Vec<u64>, Vec<u64>)>) -> Result<Chain, ProcessError> {
    let states = rows.iter().map(|r| NonTerminal::new(r.0)).collect();
    let map = rows
        .into_iter()
        .map(|(s, outcomes, weights)| (NonTerminal::new(s), dist(outcomes, weights)))
        .collect();
    FiniteMarkovProcess::new(states, map)
}

fn swap_chain() -> Chain {
    chain(vec![(0, vec![1], vec![1]), (1, vec![0], vec![1])]).unwrap()
}

fn absorbing_chain() -> Chain {
    chain(vec![(0, vec![1], vec![1])]).unwrap()
}

fn tag(s: &State<u64>) -> (bool, u64) {
    (s.is_terminal(), *s.state())
}

#[test]
fn state_wrappers_keep_their_value() {
    assert_eq!(*Terminal::new(3u64).state(), 3);
    assert_eq!(Terminal::new(3u64).into_inner(), 3);
    assert_eq!(*NonTerminal::new(4u64).state(), 4);
    assert_eq!(NonTerminal::new(4u64).into_inner(), 4);
    assert_eq!(Terminal::new(3u64), Terminal::new(3u64));
    assert_ne!(NonTerminal::new(3u64), NonTerminal::new(4u64));
    let t = State::Terminal(Terminal::new(5u64));
    let n = State::NonTerminal(NonTerminal::new(6u64));
    assert!(t.is_terminal() && !t.is_non_terminal());
    assert!(n.is_non_terminal() && !n.is_terminal());
    assert_eq!(*t.state(), 5);
    assert_eq!(*n.state(), 6);
}

#[test]
fn process_keeps_order_of_states() {
    let p = chain(vec![(5, vec![9], vec![1]), (2, vec![5], vec![1]), (9, vec![2], vec![1])])
        .unwrap();
    assert_eq!(p.len(), 3);
    assert_eq!(state_values(p.non_terminal_states()), vec![5, 2, 9]);
    assert_eq!(p.index_of(&2), Some(1));
    assert_eq!(p.index_of(&7), None);
}

#[test]
fn process_finds_transition_wherever_it_is_listed() {
    let states = vec![NonTerminal::new(1u64), NonTerminal::new(2)];
    let map = vec![
        (NonTerminal::new(2u64), dist(vec![1], vec![1])),
        (NonTerminal::new(1u64), dist(vec![7], vec![1])),
    ];
    assert_eq!(transition_keys(&map), vec![2, 1]);
    let p = FiniteMarkovProcess::new(states, map).unwrap();
    assert_eq!(p.transition(&NonTerminal::new(1)).outcome_for(0), 7);
    assert_eq!(p.transition(&NonTerminal::new(2)).outcome_for(0), 1);
    assert_eq!(p.transition_at(0).outcome_for(0), 7);
}

#[test]
fn process_refuses_duplicate_state() {
    let states = vec![NonTerminal::new(1u64), NonTerminal::new(1)];
    let map = vec![(NonTerminal::new(1u64), dist(vec![1], vec![1]))];
    assert_eq!(FiniteMarkovProcess::new(states, map).err(), Some(ProcessError::DuplicateState));
}

#[test]
fn process_refuses_duplicate_transition() {
    let states = vec![NonTerminal::new(1u64)];
    let map = vec![
        (NonTerminal::new(1u64), dist(vec![1], vec![1])),
        (NonTerminal::new(1u64), dist(vec![2], vec![1])),
    ];
    assert_eq!(
        FiniteMarkovProcess::new(states, map).err(),
        Some(ProcessError::DuplicateTransition)
    );
}

#[test]
fn process_refuses_state_without_transition() {
    let states = vec![NonTerminal::new(1u64), NonTerminal::new(2)];
    let map = vec![(NonTerminal::new(1u64), dist(vec![2], vec![1]))];
    assert_eq!(
        FiniteMarkovProcess::new(states, map).err(),
        Some(ProcessError::MissingTransition)
    );
}

#[test]
fn process_refuses_transition_of_unlisted_state() {
    let states = vec![NonTerminal::new(1u64)];
    let map = vec![
        (NonTerminal::new(1u64), dist(vec![2], vec![1])),
        (NonTerminal::new(2u64), dist(vec![1], vec![1])),
    ];
    assert_eq!(FiniteMarkovProcess::new(states, map).err(), Some(ProcessError::UnknownState));
}

#[test]
fn process_without_states_is_accepted() {
    let p: Chain = FiniteMarkovProcess::new(vec![], vec![]).unwrap();
    assert_eq!(p.len(), 0);
    assert_eq!(p.get_transition_matrix(), vec![]);
    assert!(p.classify(3).is_terminal());
}

#[test]
fn classify_tags_listed_states_as_active() {
    let p = absorbing_chain();
    assert_eq!(tag(&p.classify(0)), (false, 0));
    assert_eq!(tag(&p.classify(1)), (true, 1));
}

#[test]
fn transition_matrix_of_swap_chain() {
    let m = swap_chain().get_transition_matrix();
    assert_eq!(m, vec![Ratio::new(0, 1), Ratio::new(1, 1), Ratio::new(1, 1), Ratio::new(0, 1)]);
}

#[test]
fn transition_matrix_follows_order_of_states() {
    // The same chain with its states listed the other way round.
    let p = chain(vec![(1, vec![0, 1], vec![1, 3]), (0, vec![1], vec![1])]).unwrap();
    let m = p.get_transition_matrix();
    assert_eq!(m, vec![Ratio::new(3, 4), Ratio::new(1, 4), Ratio::new(1, 1), Ratio::new(0, 1)]);
}

#[test]
fn transition_matrix_leaves_out_absorbing_states() {
    // From 0: to 0 with 1/4, to 1 with 1/4, to the absorbing 2 with 1/2.
    let p = chain(vec![(0, vec![0, 1, 2], vec![1, 1, 2]), (1, vec![2], vec![1])]).unwrap();
    let m = p.get_transition_matrix();
    assert_eq!(m, vec![Ratio::new(1, 4), Ratio::new(1, 4), Ratio::new(0, 1), Ratio::new(0, 1)]);
}

#[test]
fn simulation_ends_in_absorbing_state() {
    let p = absorbing_chain();
    let start = dist(vec![0], vec![1]);
    let mut sim = p.simulate_iter(&start);
    let first = sim.next().unwrap();
    assert_eq!(tag(&first), (false, 0));
    let second = sim.next().unwrap();
    assert_eq!(tag(&second), (true, 1));
    assert!(sim.next().is_none());
    assert!(sim.next().is_none());
}

#[test]
fn simulation_take_stops_at_absorbing_state() {
    let p = absorbing_chain();
    let start = dist(vec![0], vec![1]);
    let mut sim = p.simulate_iter(&start);
    let states: Vec<(bool, u64)> = sim.take(10).iter().map(tag).collect();
    assert_eq!(states, vec![(false, 0), (true, 1)]);
    assert!(sim.take(10).is_empty());
}

#[test]
fn simulation_that_starts_in_absorbing_state_has_one_element() {
    let p = absorbing_chain();
    let start = dist(vec![1], vec![1]);
    let mut sim = p.simulate_iter(&start);
    let states: Vec<(bool, u64)> = sim.take(5).iter().map(tag).collect();
    assert_eq!(states, vec![(true, 1)]);
}

#[test]
fn simulation_of_chain_without_absorbing_state_goes_on() {
    let p = swap_chain();
    let start = dist(vec![0], vec![1]);
    let mut sim = p.simulate_iter(&start);
    let states: Vec<(bool, u64)> = sim.take(5).iter().map(tag).collect();
    assert_eq!(states, vec![(false, 0), (false, 1), (false, 0), (false, 1), (false, 0)]);
    // The trajectory goes on where it stopped.
    let more: Vec<(bool, u64)> = sim.take(2).iter().map(tag).collect();
    assert_eq!(more, vec![(false, 1), (false, 0)]);
}

#[test]
fn simulation_follows_possible_transitions_only() {
    // 0 -> 0 or 1, 1 -> 2 (absorbing).
    let p = chain(vec![(0, vec![0, 1], vec![1, 1]), (1, vec![2], vec![1])]).unwrap();
    let start = dist(vec![0], vec![1]);
    for _ in 0..50 {
        let mut sim = p.simulate_iter(&start);
        let states: Vec<(bool, u64)> = sim.take(1000).iter().map(tag).collect();
        assert!(states.len() >= 3);
        let n = states.len();
        assert_eq!(states[n - 1], (true, 2));
        assert_eq!(states[n - 2], (false, 1));
        assert!(states[..n - 2].iter().all(|s| *s == (false, 0)));
    }
}

#[test]
fn traces_are_new_trajectories() {
    let p = absorbing_chain();
    let start = dist(vec![0], vec![1]);
    let mut traces = p.traces_iter(&start);
    for _ in 0..3 {
        let mut sim = traces.next().unwrap();
        let states: Vec<(bool, u64)> = sim.take(10).iter().map(tag).collect();
        assert_eq!(states, vec![(false, 0), (true, 1)]);
    }
}

#[test]
fn traces_start_from_independent_draws() {
    let p = chain(vec![(0, vec![2], vec![1]), (1, vec![2], vec![1])]).unwrap();
    let start = dist(vec![0, 1], vec![1, 1]);
    let mut traces = p.traces_iter(&start);
    let mut seen = [false, false];
    for _ in 0..2000 {
        let mut sim = traces.next().unwrap();
        let first = sim.next().unwrap();
        seen[*first.state() as usize] = true;
    }
    assert!(seen[0] && seen[1]);
}
