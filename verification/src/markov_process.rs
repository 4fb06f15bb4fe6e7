//! Markov processes: a transition kernel over states, trajectories drawn
//! from it, and the tabular process over finitely many states.
use crate::distribution::Distribution;
use crate::absorption::{is_absorbed, is_substochastic, row_total};
use crate::finite::{
    eq_is_equality, has_duplicates, lemma_listed_sum, listed_sum, position_in, Categorical,
    FiniteDistribution, ProbabilityTable,
};
use crate::ratio::Ratio;
use crate::state::{NonTerminal, State};
use crate::stationary::{
    denominators_view, exactly_solvable, has_unique_stationary, is_kernel, is_unique_stationary,
    probabilities, stationary_weights, weights_view, StationaryError,
};
use vstd::prelude::*;

verus! {

/// A process whose next state depends on the current state alone.
pub trait MarkovProcess<S> {
    /// The distributions over the next state.
    type Transition: Distribution<S>;

    /// Whether the process is well formed.
    spec fn wf(&self) -> bool;

    /// Whether `state` is an active state of the process. Every other state
    /// is absorbing.
    spec fn is_active(&self, state: S) -> bool;

    /// The distribution over the state that follows the active state
    /// `state`.
    spec fn kernel(&self, state: S) -> Self::Transition;

    /// Tags `state` as active or absorbing.
    fn classify(&self, state: S) -> (tagged: State<S>)
        requires
            self.wf(),
        ensures
            tagged.value() == state,
            (tagged is NonTerminal) == self.is_active(state),
    ;

    /// The distribution over the state that follows `state`. It is defined
    /// for the active states of the process only.
    fn transition(&self, state: &NonTerminal<S>) -> (next: &Self::Transition)
        requires
            self.wf(),
            self.is_active(state@),
        ensures
            *next == self.kernel(state@),
            next.wf(),
    ;

    /// A trajectory of the process that starts in a state drawn from
    /// `start`. Nothing is drawn before the first element is asked for.
    fn simulate_iter<'a, D>(&'a self, start: &'a D) -> (sim: Simulation<'a, Self, S, D>) where
        Self: Sized,
        D: Distribution<S>,

        ensures
            sim.process() == self,
            sim.start() == start,
            sim.last() is None,
    {
        Simulation { process: self, start, last: None }
    }

    /// An endless sequence of trajectories, each of which starts in a
    /// state drawn anew from `start`.
    fn traces_iter<'a, D>(&'a self, start: &'a D) -> (traces: Traces<'a, Self, S, D>) where
        Self: Sized,
        D: Distribution<S>,

        ensures
            traces.process() == self,
            traces.start() == start,
    {
        Traces { process: self, start, _phantom: std::marker::PhantomData }
    }
}

/// A Markov process in which a reward is earned on each transition.
pub trait MarkovRewardProcess<S>: MarkovProcess<S> {
    /// The distributions over the next state and the reward.
    type RewardTransition: Distribution<(State<S>, Ratio)>;

    /// The distribution over the state that follows `state`, paired with
    /// the reward earned on the way.
    fn transition_reward(&self, state: &NonTerminal<S>) -> (next: &Self::RewardTransition)
        requires
            self.wf(),
            self.is_active(state@),
        ensures
            next.wf(),
    ;
}

/// A trajectory of a process, produced one state at a time.
pub struct Simulation<'a, P, S, D> {
    process: &'a P,
    start: &'a D,
    last: Option<State<S>>,
}

impl<'a, P, S, D> Simulation<'a, P, S, D> {
    /// The process that is simulated.
    pub closed spec fn process(&self) -> P {
        *self.process
    }

    /// The distribution of the first state.
    pub closed spec fn start(&self) -> D {
        *self.start
    }

    /// The state produced last, if one has been produced.
    pub closed spec fn last(&self) -> Option<State<S>> {
        self.last
    }
}

/// Whether `next` may come after `prev` in a trajectory of `process` that
/// starts from `start`: it is tagged as the process tags it, and it is a
/// possible draw from `start` at the beginning, or from the kernel at the
/// active state before it. Nothing comes after an absorbing state.
pub open spec fn may_follow<P: MarkovProcess<S>, S, D: Distribution<S>>(
    process: P,
    start: D,
    prev: Option<State<S>>,
    next: State<S>,
) -> bool {
    &&& (next is NonTerminal) == process.is_active(next.value())
    &&& match prev {
        None => start.can_yield(next.value()),
        Some(State::NonTerminal(n)) => process.kernel(n@).can_yield(next.value()),
        Some(State::Terminal(_)) => false,
    }
}

/// Whether `states` is a stretch of a trajectory that comes after `prev`.
pub open spec fn is_trajectory<P: MarkovProcess<S>, S, D: Distribution<S>>(
    process: P,
    start: D,
    prev: Option<State<S>>,
    states: Seq<State<S>>,
) -> bool {
    forall|i: int|
        0 <= i < states.len() ==> may_follow(
            process,
            start,
            if i == 0 {
                prev
            } else {
                Some(states[i - 1])
            },
            #[trigger] states[i],
        )
}

impl<'a, P: MarkovProcess<S>, S: Copy, D: Distribution<S>> Simulation<'a, P, S, D> {
    /// The invariant of a simulation.
    pub open spec fn wf(&self) -> bool {
        &&& self.process().wf()
        &&& self.start().wf()
        &&& match self.last() {
            Some(st) => (st is NonTerminal) == self.process().is_active(st.value()),
            None => true,
        }
    }

    /// The next state of the trajectory: a draw from the start
    /// distribution first, then a draw from the kernel at the state
    /// before. After an absorbing state the trajectory has ended.
    pub fn next(&mut self) -> (item: Option<State<S>>)
        requires
            old(self).wf(),
        ensures
            final(self).wf(),
            final(self).process() == old(self).process(),
            final(self).start() == old(self).start(),
            match item {
                Some(st) => {
                    &&& may_follow(old(self).process(), old(self).start(), old(self).last(), st)
                    &&& final(self).last() == Some(st)
                },
                None => {
                    &&& old(self).last() matches Some(State::Terminal(_))
                    &&& final(self).last() == old(self).last()
                },
            },
    {
        let drawn: S = match self.last {
            None => self.start.sample(),
            Some(State::NonTerminal(n)) => self.process.transition(&n).sample(),
            Some(State::Terminal(_)) => {
                return None;
            },
        };
        let tagged = self.process.classify(drawn);
        self.last = Some(tagged);
        Some(tagged)
    }

    /// The next states of the trajectory, `count` of them at most: fewer
    /// only where the trajectory ends in an absorbing state.
    pub fn take(&mut self, count: usize) -> (states: Vec<State<S>>)
        requires
            old(self).wf(),
        ensures
            final(self).wf(),
            final(self).process() == old(self).process(),
            final(self).start() == old(self).start(),
            states.len() <= count,
            is_trajectory(old(self).process(), old(self).start(), old(self).last(), states@),
            states.len() < count ==> final(self).last() matches Some(State::Terminal(_)),
            final(self).last() == if states.len() == 0 {
                old(self).last()
            } else {
                Some(states@.last())
            },
    {
        let mut states: Vec<State<S>> = Vec::new();
        while states.len() < count
            invariant
                self.wf(),
                self.process() == old(self).process(),
                self.start() == old(self).start(),
                states.len() <= count,
                is_trajectory(self.process(), self.start(), old(self).last(), states@),
                self.last() == if states.len() == 0 {
                    old(self).last()
                } else {
                    Some(states@.last())
                },
            decreases count - states.len(),
        {
            match self.next() {
                None => {
                    return states;
                },
                Some(st) => {
                    states.push(st);
                },
            }
        }
        states
    }
}

/// An endless sequence of trajectories of a process.
pub struct Traces<'a, P, S, D> {
    process: &'a P,
    start: &'a D,
    _phantom: std::marker::PhantomData<S>,
}

impl<'a, P, S, D> Traces<'a, P, S, D> {
    /// The process that is simulated.
    pub closed spec fn process(&self) -> P {
        *self.process
    }

    /// The distribution of the first state of each trajectory.
    pub closed spec fn start(&self) -> D {
        *self.start
    }
}

impl<'a, P: MarkovProcess<S>, S: Copy, D: Distribution<S>> Traces<'a, P, S, D> {
    /// The next trajectory: a new one, of which nothing has been drawn. It
    /// is never `None`.
    pub fn next(&mut self) -> (item: Option<Simulation<'a, P, S, D>>)
        ensures
            final(self).process() == old(self).process(),
            final(self).start() == old(self).start(),
            item matches Some(sim) && sim.process() == old(self).process() && sim.start()
                == old(self).start() && sim.last() is None,
    {
        Some(Simulation { process: self.process, start: self.start, last: None })
    }
}

/// Why a finite Markov process is refused.
#[derive(Clone, Copy, Debug, PartialEq, Eq)]
pub enum ProcessError {
    /// A state is listed twice.
    DuplicateState,
    /// Two transitions are given for one state.
    DuplicateTransition,
    /// A listed state has no transition.
    MissingTransition,
    /// A transition is given for a state that is not listed.
    UnknownState,
}

/// The state values that a list of active states wraps.
pub open spec fn values_of<S>(states: Seq<NonTerminal<S>>) -> Seq<S> {
    Seq::new(states.len(), |i: int| states[i]@)
}

/// The state values for which a list of transitions is given.
pub open spec fn keys_of<S, X>(transitions: Seq<(NonTerminal<S>, X)>) -> Seq<S> {
    Seq::new(transitions.len(), |i: int| transitions[i].0@)
}

/// The first reason for which a process with the active states `states`
/// and transitions for the states `keys` is refused, if there is one.
pub open spec fn process_defect<S>(states: Seq<S>, keys: Seq<S>) -> Option<ProcessError> {
    if !states.no_duplicates() {
        Some(ProcessError::DuplicateState)
    } else if !keys.no_duplicates() {
        Some(ProcessError::DuplicateTransition)
    } else if exists|i: int| 0 <= i < states.len() && !keys.contains(#[trigger] states[i]) {
        Some(ProcessError::MissingTransition)
    } else if exists|k: int| 0 <= k < keys.len() && !states.contains(#[trigger] keys[k]) {
        Some(ProcessError::UnknownState)
    } else {
        None
    }
}

/// A Markov process with finitely many active states, each with a
/// finite distribution over the next state. The order of the active
/// states is the order of the rows and columns of its transition matrix.
pub struct FiniteMarkovProcess<S, X> {
    non_terminal_states: Vec<NonTerminal<S>>,
    transition_map: Vec<(NonTerminal<S>, X)>,
    entry_of: Vec<usize>,
}

impl<S, X> FiniteMarkovProcess<S, X> {
    /// The active states, in their order.
    pub closed spec fn states(&self) -> Seq<S> {
        values_of(self.non_terminal_states@)
    }

    /// The transitions as they were given, each with its state.
    pub closed spec fn transitions(&self) -> Seq<(NonTerminal<S>, X)> {
        self.transition_map@
    }

    /// For each active state, the position of its transition.
    pub closed spec fn entries(&self) -> Seq<usize> {
        self.entry_of@
    }

    /// The distribution over the state that follows the `i`-th active
    /// state.
    pub open spec fn transition_of(&self, i: int) -> X {
        self.transitions()[self.entries()[i] as int].1
    }
}

impl<S: PartialEq + Copy, X: FiniteDistribution<S>> FiniteMarkovProcess<S, X> {
    /// The invariant of a process: no state is listed twice, and each
    /// listed state has its transition.
    pub open spec fn wf(&self) -> bool {
        &&& eq_is_equality::<S>()
        &&& self.states().no_duplicates()
        &&& self.entries().len() == self.states().len()
        &&& forall|i: int|
            0 <= i < self.states().len() ==> {
                &&& (#[trigger] self.entries()[i]) < self.transitions().len()
                &&& self.transitions()[self.entries()[i] as int].0@ == self.states()[i]
            }
        &&& forall|k: int|
            0 <= k < self.transitions().len() ==> (#[trigger] self.transitions()[k]).1.wf()
    }

    /// The probability, as the table of the `i`-th active state gives it,
    /// that the `j`-th active state follows the `i`-th.
    pub open spec fn transition_probability(&self, i: int, j: int) -> Ratio {
        Ratio {
            num: self.transition_of(i).pdf().weight_of(self.states()[j]) as i128,
            den: self.transition_of(i).pdf().denominator() as u128,
        }
    }

    /// The process with the active states `non_terminal_states`, in this
    /// order, and the transitions `transition_map`: one for each listed
    /// state and none for another.
    pub fn new(
        non_terminal_states: Vec<NonTerminal<S>>,
        transition_map: Vec<(NonTerminal<S>, X)>,
    ) -> (r: Result<Self, ProcessError>)
        requires
            eq_is_equality::<S>(),
            forall|k: int| 0 <= k < transition_map.len() ==> (#[trigger] transition_map[k]).1.wf(),
        ensures
            match r {
                Ok(p) => {
                    &&& process_defect(values_of(non_terminal_states@), keys_of(transition_map@))
                        is None
                    &&& p.wf()
                    &&& p.states() == values_of(non_terminal_states@)
                    &&& p.transitions() == transition_map@
                },
                Err(e) => process_defect(
                    values_of(non_terminal_states@),
                    keys_of(transition_map@),
                ) == Some(e),
            },
    {
        let ghost states = values_of(non_terminal_states@);
        let ghost keys = keys_of(transition_map@);
        let values = state_values(&non_terminal_states);
        let given = transition_keys(&transition_map);
        if has_duplicates(&values) {
            return Err(ProcessError::DuplicateState);
        }
        if has_duplicates(&given) {
            return Err(ProcessError::DuplicateTransition);
        }
        let mut entry_of: Vec<usize> = Vec::new();
        let mut i: usize = 0;
        while i < values.len()
            invariant
                eq_is_equality::<S>(),
                values@ == states,
                given@ == keys,
                states == values_of(non_terminal_states@),
                keys == keys_of(transition_map@),
                states.no_duplicates(),
                keys.no_duplicates(),
                i <= values.len(),
                entry_of.len() == i,
                forall|a: int|
                    0 <= a < i ==> (#[trigger] entry_of[a]) < keys.len() && keys[entry_of[a] as int]
                        == states[a],
            decreases values.len() - i,
        {
            match position_in(&given, &values[i]) {
                None => {
                    assert(!keys.contains(states[i as int]));
                    return Err(ProcessError::MissingTransition);
                },
                Some(k) => {
                    entry_of.push(k);
                },
            }
            i += 1;
        }
        assert forall|a: int| 0 <= a < states.len() implies keys.contains(#[trigger] states[a]) by {
            assert(keys[entry_of[a] as int] == states[a]);
        }
        let mut k: usize = 0;
        while k < given.len()
            invariant
                eq_is_equality::<S>(),
                values@ == states,
                given@ == keys,
                states == values_of(non_terminal_states@),
                keys == keys_of(transition_map@),
                states.no_duplicates(),
                keys.no_duplicates(),
                forall|a: int| 0 <= a < states.len() ==> keys.contains(#[trigger] states[a]),
                k <= given.len(),
                forall|b: int| 0 <= b < k ==> states.contains(#[trigger] keys[b]),
            decreases given.len() - k,
        {
            if position_in(&values, &given[k]).is_none() {
                assert(!states.contains(keys[k as int]));
                return Err(ProcessError::UnknownState);
            }
            k += 1;
        }
        Ok(FiniteMarkovProcess { non_terminal_states, transition_map, entry_of })
    }

    /// The number of active states.
    pub fn len(&self) -> (n: usize)
        ensures
            n == self.states().len(),
    {
        self.non_terminal_states.len()
    }

    /// The active states, in their order.
    pub fn non_terminal_states(&self) -> (states: &Vec<NonTerminal<S>>)
        ensures
            values_of(states@) == self.states(),
    {
        &self.non_terminal_states
    }

    /// The position of `state` among the active states, if it is one.
    pub fn index_of(&self, state: &S) -> (r: Option<usize>)
        requires
            self.wf(),
        ensures
            match r {
                Some(i) => i < self.states().len() && self.states()[i as int] == *state,
                None => !self.states().contains(*state),
            },
    {
        let mut i: usize = 0;
        while i < self.non_terminal_states.len()
            invariant
                eq_is_equality::<S>(),
                i <= self.non_terminal_states.len(),
                forall|j: int| 0 <= j < i ==> self.states()[j] != *state,
            decreases self.non_terminal_states.len() - i,
        {
            if *self.non_terminal_states[i].state() == *state {
                return Some(i);
            }
            i += 1;
        }
        None
    }

    /// The distribution over the state that follows the `i`-th active
    /// state.
    pub fn transition_at(&self, i: usize) -> (next: &X)
        requires
            self.wf(),
            i < self.states().len(),
        ensures
            *next == self.transition_of(i as int),
            next.wf(),
    {
        &self.transition_map[self.entry_of[i]].1
    }

    /// The transition matrix, row by row: its entry in row `i` and column
    /// `j` is the probability that the `j`-th active state follows the
    /// `i`-th. Transitions into absorbing states have no column.
    pub fn get_transition_matrix(&self) -> (matrix: Vec<Ratio>)
        requires
            self.wf(),
        ensures
            matrix.len() == self.states().len() * self.states().len(),
            forall|i: int, j: int|
                0 <= i < self.states().len() && 0 <= j < self.states().len() ==> matrix[i
                    * self.states().len() + j] == #[trigger] self.transition_probability(i, j),
    {
        let n = self.non_terminal_states.len();
        let mut matrix: Vec<Ratio> = Vec::new();
        let mut i: usize = 0;
        while i < n
            invariant
                self.wf(),
                n == self.states().len(),
                i <= n,
                matrix.len() == i * n,
                forall|a: int, b: int|
                    0 <= a < i && 0 <= b < n ==> matrix[a * n + b]
                        == #[trigger] self.transition_probability(a, b),
            decreases n - i,
        {
            let table = self.transition_at(i).table();
            let mut j: usize = 0;
            while j < n
                invariant
                    self.wf(),
                    n == self.states().len(),
                    i < n,
                    j <= n,
                    table.wf(),
                    *table == self.transition_of(i as int).pdf(),
                    matrix.len() == i * n + j,
                    forall|a: int, b: int|
                        0 <= a < i && 0 <= b < n ==> matrix[a * n + b]
                            == #[trigger] self.transition_probability(a, b),
                    forall|b: int|
                        0 <= b < j ==> matrix[i * n + b] == #[trigger] self.transition_probability(
                            i as int,
                            b,
                        ),
                decreases n - j,
            {
                let p = table.probability(self.non_terminal_states[j].state());
                let ghost before = matrix@;
                matrix.push(p);
                proof {
                    assert forall|a: int, b: int| 0 <= a < i && 0 <= b < n implies matrix[a * n
                        + b] == #[trigger] self.transition_probability(a, b) by {
                        assert(a * n + n <= i * n) by (nonlinear_arith)
                            requires
                                a + 1 <= i,
                                0 <= n,
                        ;
                        assert(matrix[a * n + b] == before[a * n + b]);
                    }
                }
                j += 1;
            }
            proof {
                assert((i + 1) * n == i * n + n) by (nonlinear_arith);
            }
            i += 1;
        }
        matrix
    }
}

impl<S: PartialEq + Copy, X: FiniteDistribution<S>> FiniteMarkovProcess<S, X> {
    /// The weights of the steps between active states: the entry in row
    /// `i` and column `j` is the weight that the table of the `i`-th
    /// active state gives to the `j`-th.
    pub open spec fn weight_matrix(&self) -> Seq<Seq<int>> {
        Seq::new(
            self.states().len(),
            |i: int|
                Seq::new(
                    self.states().len(),
                    |j: int| self.transition_of(i).pdf().weight_of(self.states()[j]) as int,
                ),
        )
    }

    /// The denominators of the tables of the active states.
    pub open spec fn denominators(&self) -> Seq<int> {
        Seq::new(self.states().len(), |i: int| self.transition_of(i).pdf().denominator() as int)
    }

    /// The probabilities that `dist` gives to the active states, in their
    /// order.
    pub open spec fn probabilities_of(&self, dist: Categorical<S>) -> Seq<real> {
        Seq::new(self.states().len(), |i: int| dist@.probability_of(self.states()[i]))
    }

    /// Whether no table of the process gives more weight than its
    /// denominator: the probabilities of the steps from a state add up to
    /// one at most.
    pub open spec fn has_proper_tables(&self) -> bool {
        forall|i: int|
            0 <= i < self.states().len() ==> (#[trigger] self.transition_of(
                i,
            )).pdf().total_weight() <= self.transition_of(i).pdf().denominator()
    }

    /// The first `k` weights of a row of the weight matrix add up to what
    /// the table of the row gives to the first `k` active states.
    pub proof fn lemma_row_is_listed_sum(&self, i: int, k: int)
        requires
            self.wf(),
            0 <= i < self.states().len(),
            0 <= k <= self.states().len(),
        ensures
            row_total(self.weight_matrix(), i, k) == listed_sum(
                self.transition_of(i).pdf().outcomes(),
                self.transition_of(i).pdf().weights(),
                self.states(),
                k,
            ),
        decreases k,
    {
        if k > 0 {
            self.lemma_row_is_listed_sum(i, k - 1);
        }
    }

    /// The steps between the active states of a process with proper
    /// tables have probabilities that add up to one at most for each
    /// state.
    pub proof fn lemma_substochastic(&self)
        requires
            self.wf(),
            self.has_proper_tables(),
        ensures
            is_substochastic(self.weight_matrix(), self.denominators()),
    {
        let w = self.weight_matrix();
        let t = self.denominators();
        let n = self.states().len() as int;
        assert forall|i: int| 0 <= i < t.len() implies (#[trigger] t[i]) > 0 && row_total(w, i, n)
            <= t[i] by {
            let dist = self.transition_of(i);
            assert(self.transitions()[self.entries()[i] as int].1.wf());
            dist.lemma_table_wf();
            self.lemma_row_is_listed_sum(i, n);
            lemma_listed_sum(dist.pdf().outcomes(), dist.pdf().weights(), self.states(), n);
        }
    }

    /// A process with proper tables from whose every active state an
    /// absorbing state is reached with positive probability has no
    /// stationary distribution over its active states.
    pub proof fn lemma_absorbed_has_no_stationary(&self)
        requires
            self.wf(),
            self.has_proper_tables(),
            is_absorbed(self.weight_matrix(), self.denominators()),
        ensures
            !has_unique_stationary(self.weight_matrix(), self.denominators()),
    {
        self.lemma_substochastic();
        crate::absorption::lemma_absorbed_has_no_stationary(
            self.weight_matrix(),
            self.denominators(),
        );
    }

    /// The weights of the steps between active states, row by row, and
    /// the denominator of each row.
    pub fn transition_weights(&self) -> (kernel: (Vec<Vec<u64>>, Vec<u64>))
        requires
            self.wf(),
        ensures
            weights_view(kernel.0@) == self.weight_matrix(),
            denominators_view(kernel.1@) == self.denominators(),
            is_kernel(self.weight_matrix(), self.denominators()),
    {
        let n = self.non_terminal_states.len();
        let mut weights: Vec<Vec<u64>> = Vec::new();
        let mut denominators: Vec<u64> = Vec::new();
        let mut i: usize = 0;
        while i < n
            invariant
                self.wf(),
                n == self.states().len(),
                i <= n,
                weights.len() == i,
                denominators.len() == i,
                forall|a: int|
                    0 <= a < i ==> (#[trigger] denominators[a]) == self.transition_of(
                        a,
                    ).pdf().denominator() && denominators[a] > 0,
                forall|a: int|
                    0 <= a < i ==> (#[trigger] weights[a])@.len() == n && forall|b: int|
                        0 <= b < n ==> (#[trigger] weights[a]@[b]) == self.transition_of(
                            a,
                        ).pdf().weight_of(self.states()[b]),
            decreases n - i,
        {
            let table = self.transition_at(i).table();
            let mut row: Vec<u64> = Vec::new();
            let mut j: usize = 0;
            while j < n
                invariant
                    self.wf(),
                    n == self.states().len(),
                    i < n,
                    j <= n,
                    table.wf(),
                    *table == self.transition_of(i as int).pdf(),
                    row.len() == j,
                    forall|b: int|
                        0 <= b < j ==> (#[trigger] row[b]) == table.weight_of(self.states()[b]),
                decreases n - j,
            {
                row.push(table.weight(self.non_terminal_states[j].state()));
                j += 1;
            }
            weights.push(row);
            denominators.push(table.common_denominator());
            i += 1;
        }
        assert(weights_view(weights@) =~~= self.weight_matrix());
        assert(denominators_view(denominators@) =~= self.denominators());
        (weights, denominators)
    }

    /// The stationary distribution of the process over its active states:
    /// the distribution that a step of the process leaves as it is.
    ///
    /// It is found exactly, in machine integers. There is none where the
    /// probability leaves the active states for good, and it is not
    /// unique where a step leaves more than one vector, with entries that
    /// add up to one, as it is.
    pub fn get_stationary_distribution(&self) -> (r: Result<Categorical<S>, StationaryError>)
        requires
            self.wf(),
        ensures
            match r {
                Ok(dist) => {
                    &&& dist.wf()
                    &&& dist@.outcomes() == self.states()
                    &&& dist@.is_normalized()
                    &&& is_unique_stationary(
                        self.weight_matrix(),
                        self.denominators(),
                        self.probabilities_of(dist),
                    )
                },
                Err(StationaryError::NoUniqueStationaryDistribution) => !has_unique_stationary(
                    self.weight_matrix(),
                    self.denominators(),
                ),
                Err(StationaryError::Overflow) => !exactly_solvable(
                    self.weight_matrix(),
                    self.denominators(),
                ),
            },
    {
        let (weights, denominators) = self.transition_weights();
        let (stationary, denominator) = match stationary_weights(&weights, &denominators) {
            Err(e) => {
                return Err(e);
            },
            Ok(found) => found,
        };
        let outcomes = state_values(&self.non_terminal_states);
        let ghost pi = probabilities(stationary@, denominator);
        let table = match ProbabilityTable::new(outcomes, stationary, denominator) {
            Ok(table) => table,
            Err(_) => vstd::pervasive::unreached(),
        };
        let dist = match Categorical::new(table) {
            Some(dist) => dist,
            None => vstd::pervasive::unreached(),
        };
        proof {
            assert forall|i: int| 0 <= i < self.states().len() implies self.probabilities_of(
                dist,
            )[i] == pi[i] by {
                dist@.lemma_weight_at(i);
            }
            assert(self.probabilities_of(dist) =~= pi);
        }
        Ok(dist)
    }
}

impl<S: PartialEq + Copy, X: FiniteDistribution<S>> MarkovProcess<S> for FiniteMarkovProcess<S, X> {
    type Transition = X;

    open spec fn wf(&self) -> bool {
        FiniteMarkovProcess::wf(self)
    }

    open spec fn is_active(&self, state: S) -> bool {
        self.states().contains(state)
    }

    open spec fn kernel(&self, state: S) -> X {
        self.transition_of(self.states().index_of(state))
    }

    fn classify(&self, state: S) -> (tagged: State<S>) {
        match self.index_of(&state) {
            Some(_) => State::NonTerminal(NonTerminal::new(state)),
            None => State::Terminal(crate::state::Terminal::new(state)),
        }
    }

    fn transition(&self, state: &NonTerminal<S>) -> (next: &X) {
        match self.index_of(state.state()) {
            Some(i) => {
                proof {
                    let j = self.states().index_of(state@);
                    assert(self.states()[j] == state@);
                }
                self.transition_at(i)
            },
            None => vstd::pervasive::unreached(),
        }
    }
}

/// The state values that `states` wraps, in their order.
pub fn state_values<S: Copy>(states: &Vec<NonTerminal<S>>) -> (values: Vec<S>)
    ensures
        values@ == values_of(states@),
{
    let mut values: Vec<S> = Vec::new();
    let mut i: usize = 0;
    while i < states.len()
        invariant
            i <= states.len(),
            values.len() == i,
            forall|j: int| 0 <= j < i ==> values[j] == states[j]@,
        decreases states.len() - i,
    {
        values.push(*states[i].state());
        i += 1;
    }
    assert(values@ =~= values_of(states@));
    values
}

/// The state values for which `transitions` gives a transition, in their
/// order.
pub fn transition_keys<S: Copy, X>(transitions: &Vec<(NonTerminal<S>, X)>) -> (keys: Vec<S>)
    ensures
        keys@ == keys_of(transitions@),
{
    let mut keys: Vec<S> = Vec::new();
    let mut i: usize = 0;
    while i < transitions.len()
        invariant
            i <= transitions.len(),
            keys.len() == i,
            forall|j: int| 0 <= j < i ==> keys[j] == transitions[j].0@,
        decreases transitions.len() - i,
    {
        keys.push(*transitions[i].0.state());
        i += 1;
    }
    assert(keys@ =~= keys_of(transitions@));
    keys
}

} // verus!
