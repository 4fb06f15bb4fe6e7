//! Distributions with finitely many outcomes, given by an exact table.
use crate::distribution::{results_of, Distribution};
use crate::random::uniform_below;
use crate::ratio::{
    lemma_quotient_sum, lemma_quotient_times, lemma_quotient_zero_one, quotient, Ratio,
};
use vstd::prelude::*;
use vstd::std_specs::cmp::PartialEqSpec;

verus! {

/// Whether `==` on `T` decides equality of values.
pub open spec fn eq_is_equality<T: PartialEq>() -> bool {
    &&& T::obeys_eq_spec()
    &&& forall|a: T, b: T| #[trigger] a.eq_spec(&b) <==> a == b
}

/// The sum of a sequence of weights.
pub open spec fn total(weights: Seq<u64>) -> nat
    decreases weights.len(),
{
    if weights.len() == 0 {
        0
    } else {
        total(weights.drop_last()) + weights.last() as nat
    }
}

/// The sum of the products of weights and values at equal positions.
pub open spec fn weighted_sum(weights: Seq<u64>, values: Seq<i64>) -> int
    decreases weights.len(),
{
    if weights.len() == 0 || values.len() != weights.len() {
        0
    } else {
        weighted_sum(weights.drop_last(), values.drop_last()) + weights.last() * values.last()
    }
}

/// The total of a prefix grows by the weight that the prefix is extended by.
pub proof fn lemma_total_step(weights: Seq<u64>, i: int)
    requires
        0 <= i < weights.len(),
    ensures
        total(weights.take(i + 1)) == total(weights.take(i)) + weights[i],
{
    assert(weights.take(i + 1).drop_last() == weights.take(i));
}

/// The total of a prefix is at most the total of the whole sequence.
pub proof fn lemma_total_prefix(weights: Seq<u64>, i: int)
    requires
        0 <= i <= weights.len(),
    ensures
        total(weights.take(i)) <= total(weights),
    decreases weights.len() - i,
{
    if i == weights.len() {
        assert(weights.take(i) == weights);
    } else {
        lemma_total_step(weights, i);
        lemma_total_prefix(weights, i + 1);
    }
}

/// A weighted sum of `i64` values is bounded by the total weight times the
/// largest magnitude of an `i64`.
pub proof fn lemma_weighted_sum_bounds(weights: Seq<u64>, values: Seq<i64>)
    requires
        weights.len() == values.len(),
    ensures
        -(total(weights) * 0x8000_0000_0000_0000) <= weighted_sum(weights, values) <= total(
            weights,
        ) * 0x8000_0000_0000_0000,
    decreases weights.len(),
{
    if weights.len() > 0 {
        lemma_weighted_sum_bounds(weights.drop_last(), values.drop_last());
        let w = weights.last() as int;
        let v = values.last() as int;
        assert(-(w * 0x8000_0000_0000_0000) <= w * v <= w * 0x8000_0000_0000_0000)
            by (nonlinear_arith)
            requires
                0 <= w,
                -0x8000_0000_0000_0000 <= v <= 0x8000_0000_0000_0000,
        ;
        assert((total(weights.drop_last()) + w) * 0x8000_0000_0000_0000 == total(
            weights.drop_last(),
        ) * 0x8000_0000_0000_0000 + w * 0x8000_0000_0000_0000) by (nonlinear_arith);
    }
}

/// Why a table is refused.
#[derive(Clone, Copy, Debug, PartialEq, Eq)]
pub enum TableError {
    /// There are not as many weights as outcomes.
    LengthMismatch,
    /// An outcome is listed twice.
    DuplicateOutcome,
    /// The weights add up to more than a `u64` holds.
    WeightOverflow,
    /// The denominator is zero.
    ZeroDenominator,
}

/// A table of probabilities: each listed outcome has the probability
/// `weight / denominator`, every other outcome has probability zero.
///
/// The weights need not add up to the denominator: a table whose weights
/// do is called normalized.
#[derive(Debug)]
pub struct ProbabilityTable<T> {
    outcomes: Vec<T>,
    weights: Vec<u64>,
    denominator: u64,
    total: u64,
}

impl<T> ProbabilityTable<T> {
    /// The listed outcomes, in the order of the table.
    pub closed spec fn outcomes(&self) -> Seq<T> {
        self.outcomes@
    }

    /// The weights of the listed outcomes, in the same order.
    pub closed spec fn weights(&self) -> Seq<u64> {
        self.weights@
    }

    /// The common denominator of the probabilities.
    pub closed spec fn denominator(&self) -> u64 {
        self.denominator
    }

    /// Whether the cached total is the sum of the weights.
    pub closed spec fn total_is_cached(&self) -> bool {
        self.total == total(self.weights@)
    }

    /// The sum of the weights.
    pub open spec fn total_weight(&self) -> nat {
        total(self.weights())
    }

    /// The weight of `outcome`: its entry where it is listed, zero otherwise.
    pub open spec fn weight_of(&self, outcome: T) -> u64 {
        weight_at(self.outcomes(), self.weights(), outcome)
    }

    /// The probability of `outcome`.
    pub open spec fn probability_of(&self, outcome: T) -> real {
        quotient(self.weight_of(outcome) as int, self.denominator() as int)
    }

    /// Whether the probabilities add up to one.
    pub open spec fn is_normalized(&self) -> bool {
        self.total_weight() == self.denominator()
    }

    /// A draw below the total weight falls on position `i` when it is at
    /// least the total weight before `i` and below the total weight up to
    /// and including `i`.
    pub open spec fn falls_on(&self, draw: u64, i: int) -> bool {
        &&& 0 <= i < self.weights().len()
        &&& total(self.weights().take(i)) <= draw < total(self.weights().take(i + 1))
    }

    /// The draws that fall on a position are as many as its weight: they
    /// begin at the total weight before the position.
    pub proof fn lemma_share_of_draws(&self, i: int)
        requires
            0 <= i < self.weights().len(),
        ensures
            forall|draw: u64| #[trigger]
                self.falls_on(draw, i) <==> total(self.weights().take(i)) <= draw < total(
                    self.weights().take(i),
                ) + self.weights()[i],
    {
        lemma_total_step(self.weights(), i);
    }
}

impl<T: PartialEq> ProbabilityTable<T> {
    /// The invariant of a table.
    pub open spec fn wf(&self) -> bool {
        &&& eq_is_equality::<T>()
        &&& self.outcomes().len() == self.weights().len()
        &&& self.outcomes().no_duplicates()
        &&& self.total_weight() <= u64::MAX
        &&& self.denominator() > 0
        &&& self.total_is_cached()
    }

    /// The first reason for which a table of these parts is refused, if
    /// there is one.
    pub open spec fn defect(outcomes: Seq<T>, weights: Seq<u64>, denominator: u64) -> Option<
        TableError,
    > {
        if outcomes.len() != weights.len() {
            Some(TableError::LengthMismatch)
        } else if !outcomes.no_duplicates() {
            Some(TableError::DuplicateOutcome)
        } else if total(weights) > u64::MAX {
            Some(TableError::WeightOverflow)
        } else if denominator == 0 {
            Some(TableError::ZeroDenominator)
        } else {
            None
        }
    }

    /// The position of an outcome that is listed is the position at which
    /// it is listed.
    pub proof fn lemma_weight_at(&self, i: int)
        requires
            self.wf(),
            0 <= i < self.outcomes().len(),
        ensures
            self.weight_of(self.outcomes()[i]) == self.weights()[i],
    {
        let k = self.outcomes()[i];
        assert(self.outcomes().contains(k));
        let j = self.outcomes().index_of(k);
        assert(self.outcomes()[j] == k);
    }

    /// A table of the given outcomes and weights with the given
    /// denominator.
    pub fn new(outcomes: Vec<T>, weights: Vec<u64>, denominator: u64) -> (r: Result<
        Self,
        TableError,
    >)
        requires
            eq_is_equality::<T>(),
        ensures
            match r {
                Ok(t) => {
                    &&& Self::defect(outcomes@, weights@, denominator) is None
                    &&& t.wf()
                    &&& t.outcomes() == outcomes@
                    &&& t.weights() == weights@
                    &&& t.denominator() == denominator
                },
                Err(e) => Self::defect(outcomes@, weights@, denominator) == Some(e),
            },
    {
        if outcomes.len() != weights.len() {
            return Err(TableError::LengthMismatch);
        }
        if has_duplicates(&outcomes) {
            return Err(TableError::DuplicateOutcome);
        }
        match checked_total(&weights) {
            None => Err(TableError::WeightOverflow),
            Some(total) => {
                if denominator == 0 {
                    Err(TableError::ZeroDenominator)
                } else {
                    Ok(ProbabilityTable { outcomes, weights, denominator, total })
                }
            },
        }
    }

    /// The normalized table of the given outcomes and weights: its
    /// denominator is the sum of the weights.
    pub fn normalized(outcomes: Vec<T>, weights: Vec<u64>) -> (r: Result<Self, TableError>)
        requires
            eq_is_equality::<T>(),
        ensures
            match r {
                Ok(t) => {
                    &&& Self::defect(outcomes@, weights@, total(weights@) as u64) is None
                    &&& t.wf()
                    &&& t.is_normalized()
                    &&& t.outcomes() == outcomes@
                    &&& t.weights() == weights@
                },
                Err(e) => Self::defect(outcomes@, weights@, total(weights@) as u64) == Some(e),
            },
    {
        if outcomes.len() != weights.len() {
            return Err(TableError::LengthMismatch);
        }
        if has_duplicates(&outcomes) {
            return Err(TableError::DuplicateOutcome);
        }
        match checked_total(&weights) {
            None => Err(TableError::WeightOverflow),
            Some(total) => {
                if total == 0 {
                    Err(TableError::ZeroDenominator)
                } else {
                    Ok(ProbabilityTable { outcomes, weights, denominator: total, total })
                }
            },
        }
    }

    /// The number of listed outcomes.
    pub fn len(&self) -> (n: usize)
        ensures
            n == self.outcomes().len(),
    {
        self.outcomes.len()
    }

    /// The listed outcomes, in the order of the table.
    pub fn outcome_list(&self) -> (o: &Vec<T>)
        ensures
            o@ == self.outcomes(),
    {
        &self.outcomes
    }

    /// The weights of the listed outcomes, in the same order.
    pub fn weight_list(&self) -> (w: &Vec<u64>)
        ensures
            w@ == self.weights(),
    {
        &self.weights
    }

    /// The common denominator of the probabilities.
    pub fn common_denominator(&self) -> (d: u64)
        ensures
            d == self.denominator(),
    {
        self.denominator
    }

    /// The sum of the weights.
    pub fn sum_of_weights(&self) -> (t: u64)
        requires
            self.wf(),
        ensures
            t == self.total_weight(),
    {
        self.total
    }

    /// The position at which `outcome` is listed, if it is.
    pub fn position(&self, outcome: &T) -> (r: Option<usize>)
        requires
            self.wf(),
        ensures
            match r {
                Some(i) => i < self.outcomes().len() && self.outcomes()[i as int] == *outcome,
                None => !self.outcomes().contains(*outcome),
            },
    {
        position_in(&self.outcomes, outcome)
    }

    /// The weight of `outcome`: zero for one that is not listed.
    pub fn weight(&self, outcome: &T) -> (w: u64)
        requires
            self.wf(),
        ensures
            w == self.weight_of(*outcome),
    {
        match self.position(outcome) {
            Some(i) => {
                proof {
                    self.lemma_weight_at(i as int);
                }
                self.weights[i]
            },
            None => 0,
        }
    }

    /// The probability of `outcome`, as the fraction of its weight and the
    /// denominator: zero for one that is not listed.
    pub fn probability(&self, outcome: &T) -> (p: Ratio)
        requires
            self.wf(),
        ensures
            p.num == self.weight_of(*outcome),
            p.den == self.denominator(),
            p.value() == self.probability_of(*outcome),
            !self.outcomes().contains(*outcome) ==> p.num == 0,
    {
        let w = self.weight(outcome);
        Ratio::new(w as i128, self.denominator as u128)
    }

    /// The position on which a draw below the total weight falls: outcomes
    /// are laid out one after the other, each as wide as its weight.
    pub fn position_of_draw(&self, draw: u64) -> (i: usize)
        requires
            self.wf(),
            draw < self.total_weight(),
        ensures
            self.falls_on(draw, i as int),
            self.weights()[i as int] > 0,
    {
        let mut i: usize = 0;
        let mut below: u64 = 0;
        while i < self.weights.len()
            invariant
                self.wf(),
                draw < self.total_weight(),
                i <= self.weights.len(),
                below == total(self.weights@.take(i as int)),
                below <= draw,
            decreases self.weights.len() - i,
        {
            proof {
                lemma_total_step(self.weights@, i as int);
                lemma_total_prefix(self.weights@, i + 1);
            }
            let upto = below + self.weights[i];
            if draw < upto {
                return i;
            }
            below = upto;
            i += 1;
        }
        proof {
            // The total weight has been reached, and the draw is below it.
            assert(self.weights@.take(i as int) == self.weights@);
        }
        vstd::pervasive::unreached()
    }

    /// The sum over the table of weight times the value of `f` at the
    /// outcome. `f` is called on the outcomes of positive weight only.
    pub fn weighted_total<Func>(&self, f: &Func) -> (s: i128) where Func: Fn(&T) -> i64
        requires
            self.wf(),
            forall|t: T| self.weight_of(t) > 0 ==> call_requires(*f, (&t,)),
        ensures
            self.is_weighted_total(results_of(*f), s as int),
    {
        let mut s: i128 = 0;
        let mut i: usize = 0;
        let ghost mut values: Seq<i64> = Seq::empty();
        while i < self.outcomes.len()
            invariant
                self.wf(),
                i <= self.outcomes.len(),
                forall|t: T| self.weight_of(t) > 0 ==> call_requires(*f, (&t,)),
                values.len() == i,
                forall|j: int|
                    0 <= j < i && self.weights()[j] > 0 ==> call_ensures(
                        *f,
                        (&self.outcomes()[j],),
                        #[trigger] values[j],
                    ),
                s == weighted_sum(self.weights@.take(i as int), values),
            decreases self.outcomes.len() - i,
        {
            let w = self.weights[i];
            let mut v: i64 = 0;
            if w > 0 {
                proof {
                    self.lemma_weight_at(i as int);
                }
                v = f(&self.outcomes[i]);
            }
            proof {
                let next = values.push(v);
                let prefix = self.weights@.take(i + 1);
                assert(prefix.drop_last() == self.weights@.take(i as int));
                assert(next.drop_last() == values);
                lemma_weighted_sum_bounds(prefix, next);
                lemma_total_prefix(self.weights@, i + 1);
                assert(total(prefix) * 0x8000_0000_0000_0000 <= 0xffff_ffff_ffff_ffff
                    * 0x8000_0000_0000_0000) by (nonlinear_arith)
                    requires
                        total(prefix) <= 0xffff_ffff_ffff_ffff,
                ;
                assert(-(0xffff_ffff_ffff_ffff * 0x8000_0000_0000_0000) <= w * v
                    <= 0xffff_ffff_ffff_ffff * 0x8000_0000_0000_0000) by (nonlinear_arith)
                    requires
                        0 <= w <= 0xffff_ffff_ffff_ffff,
                        -0x8000_0000_0000_0000 <= v <= 0x8000_0000_0000_0000,
                ;
                values = next;
            }
            s = s + (w as i128) * (v as i128);
            i += 1;
        }
        proof {
            assert(self.weights@.take(i as int) == self.weights@);
            let value_of = results_of(*f);
            assert(forall|j: int|
                0 <= j < values.len() && self.weights()[j] > 0 ==> value_of(
                    self.outcomes()[j],
                    #[trigger] values[j],
                ));
            assert(self.is_valuation(value_of, values));
        }
        s
    }

    /// Whether `s` is the sum over the table of weight times a value that
    /// `value_of` relates to the outcome.
    pub open spec fn is_weighted_total(&self, value_of: spec_fn(T, i64) -> bool, s: int) -> bool {
        exists|values: Seq<i64>| #[trigger]
            self.is_valuation(value_of, values) && s == weighted_sum(self.weights(), values)
    }

    /// Whether `values` are, one for one, values that `value_of` relates to
    /// the listed outcomes. The value at an outcome of weight zero is
    /// free: it does not enter a weighted sum.
    pub open spec fn is_valuation(&self, value_of: spec_fn(T, i64) -> bool, values: Seq<i64>) -> bool {
        &&& values.len() == self.outcomes().len()
        &&& forall|j: int|
            0 <= j < values.len() && self.weights()[j] > 0 ==> value_of(
                self.outcomes()[j],
                #[trigger] values[j],
            )
    }

    /// Whether `e` is the exact expectation over the table of a function
    /// with the results `value_of`, divided by `sample_size`: the numerator
    /// is the weighted total, the denominator is the table's denominator
    /// times `sample_size`.
    pub open spec fn is_exact_expectation(
        &self,
        value_of: spec_fn(T, i64) -> bool,
        sample_size: usize,
        e: Ratio,
    ) -> bool {
        &&& self.is_weighted_total(value_of, e.num as int)
        &&& e.den == self.denominator() * sample_size
    }

    /// The exact expectation of `f` over the table, divided by
    /// `sample_size`.
    pub fn exact_expectation<Func>(&self, f: &Func, sample_size: usize) -> (e: Ratio) where
        Func: Fn(&T) -> i64,

        requires
            self.wf(),
            forall|t: T| self.weight_of(t) > 0 ==> call_requires(*f, (&t,)),
        ensures
            self.is_exact_expectation(results_of(*f), sample_size, e),
    {
        let num = self.weighted_total(f);
        assert(self.denominator * sample_size <= 0xffff_ffff_ffff_ffff * 0xffff_ffff_ffff_ffff)
            by (nonlinear_arith)
            requires
                0 <= self.denominator <= 0xffff_ffff_ffff_ffff,
                0 <= sample_size <= 0xffff_ffff_ffff_ffff,
        ;
        let den = (self.denominator as u128) * (sample_size as u128);
        Ratio::new(num, den)
    }
}

/// A distribution with finitely many outcomes, whose probabilities can be
/// read from a table.
pub trait FiniteDistribution<T: PartialEq>: Distribution<T> {
    /// The table of the distribution.
    spec fn pdf(&self) -> ProbabilityTable<T>;

    /// The table of a well-formed distribution is well formed.
    proof fn lemma_table_wf(&self)
        requires
            self.wf(),
        ensures
            self.pdf().wf(),
    ;

    /// A draw produces only outcomes to which the table gives a positive
    /// probability.
    proof fn lemma_yields_listed(&self, outcome: T)
        requires
            self.wf(),
            self.can_yield(outcome),
        ensures
            self.pdf().weight_of(outcome) > 0,
    ;

    /// Returns the table of the distribution.
    fn table(&self) -> (t: &ProbabilityTable<T>)
        requires
            self.wf(),
        ensures
            *t == self.pdf(),
            t.wf(),
    ;

    /// Returns the probability of the given outcome: zero for an outcome
    /// that the table does not list.
    fn probability(&self, outcome: &T) -> (p: Ratio)
        requires
            self.wf(),
        ensures
            p.num == self.pdf().weight_of(*outcome),
            p.den == self.pdf().denominator(),
            p.value() == self.pdf().probability_of(*outcome),
            !self.pdf().outcomes().contains(*outcome) ==> p.num == 0,
    {
        self.table().probability(outcome)
    }

    /// The exact expectation of `f`, divided by `sample_size`: pass 1 as
    /// `sample_size` for the expectation itself. Nothing is sampled.
    fn exact_expectation<Func>(&self, f: Func, sample_size: usize) -> (e: Ratio) where
        Func: Fn(&T) -> i64,

        requires
            self.wf(),
            forall|t: T| self.pdf().weight_of(t) > 0 ==> call_requires(f, (&t,)),
        ensures
            self.pdf().is_exact_expectation(results_of(f), sample_size, e),
    {
        self.table().exact_expectation(&f, sample_size)
    }
}

/// The distribution that a table describes: a draw produces a listed
/// outcome with a chance proportional to its weight.
#[derive(Debug)]
pub struct Categorical<T> {
    table: ProbabilityTable<T>,
}

impl<T> Categorical<T> {
    /// The table that describes the distribution.
    pub closed spec fn view(&self) -> ProbabilityTable<T> {
        self.table
    }
}

impl<T: PartialEq + Copy> Categorical<T> {
    /// The distribution that `table` describes, unless all its weights are
    /// zero: then no outcome can be drawn.
    pub fn new(table: ProbabilityTable<T>) -> (r: Option<Self>)
        requires
            table.wf(),
        ensures
            match r {
                Some(c) => c@ == table && table.total_weight() > 0 && c.wf(),
                None => table.total_weight() == 0,
            },
    {
        if table.sum_of_weights() == 0 {
            None
        } else {
            Some(Categorical { table })
        }
    }

    /// The outcome on which a draw below the total weight falls, by
    /// inversion of the cumulative weights: the outcomes are laid out one
    /// after the other, each as wide as its weight.
    pub fn outcome_for(&self, draw: u64) -> (outcome: T)
        requires
            self.wf(),
            draw < self@.total_weight(),
        ensures
            exists|i: int| #[trigger] self@.falls_on(draw, i) && outcome == self@.outcomes()[i],
            self.can_yield(outcome),
    {
        let i = self.table.position_of_draw(draw);
        proof {
            self.table.lemma_weight_at(i as int);
        }
        self.table.outcomes[i]
    }
}

impl<T: PartialEq + Copy> Distribution<T> for Categorical<T> {
    open spec fn wf(&self) -> bool {
        self@.wf() && self@.total_weight() > 0
    }

    open spec fn can_yield(&self, outcome: T) -> bool {
        self@.weight_of(outcome) > 0
    }

    open spec fn estimates(
        &self,
        value_of: spec_fn(T, i64) -> bool,
        sample_size: usize,
        e: Ratio,
    ) -> bool {
        self@.is_exact_expectation(value_of, sample_size, e)
    }

    fn sample(&self) -> (outcome: T) {
        let draw = uniform_below(self.table.sum_of_weights());
        self.outcome_for(draw)
    }

    /// The exact expectation, divided by `sample_size`: nothing is sampled.
    fn expectation<Func>(&self, f: Func, sample_size: usize) -> (e: Ratio) where
        Func: Fn(&T) -> i64,
     {
        assert forall|t: T| self.table.weight_of(t) > 0 implies call_requires(f, (&t,)) by {
            assert(self.can_yield(t));
        }
        self.table.exact_expectation(&f, sample_size)
    }
}

impl<T: PartialEq + Copy> FiniteDistribution<T> for Categorical<T> {
    open spec fn pdf(&self) -> ProbabilityTable<T> {
        self@
    }

    proof fn lemma_table_wf(&self) {
    }

    proof fn lemma_yields_listed(&self, outcome: T) {
    }

    fn table(&self) -> (t: &ProbabilityTable<T>) {
        &self.table
    }
}

/// The sum of the probabilities `weight / denominator` of a sequence of
/// weights.
pub open spec fn sum_of_probabilities(weights: Seq<u64>, denominator: u64) -> real
    decreases weights.len(),
{
    if weights.len() == 0 {
        0 as real
    } else {
        sum_of_probabilities(weights.drop_last(), denominator) + quotient(
            weights.last() as int,
            denominator as int,
        )
    }
}

/// The sum over a table of probability times value.
pub open spec fn expected_value(weights: Seq<u64>, values: Seq<i64>, denominator: u64) -> real
    decreases weights.len(),
{
    if weights.len() == 0 || values.len() != weights.len() {
        0 as real
    } else {
        expected_value(weights.drop_last(), values.drop_last(), denominator) + quotient(
            weights.last() as int,
            denominator as int,
        ) * (values.last() as real)
    }
}

/// The probabilities of a table add up to its total weight over its
/// denominator.
pub proof fn lemma_sum_of_probabilities(weights: Seq<u64>, denominator: u64)
    requires
        denominator > 0,
    ensures
        sum_of_probabilities(weights, denominator) == quotient(
            total(weights) as int,
            denominator as int,
        ),
    decreases weights.len(),
{
    let d = denominator as int;
    if weights.len() == 0 {
        lemma_quotient_zero_one(d);
    } else {
        lemma_sum_of_probabilities(weights.drop_last(), denominator);
        lemma_quotient_sum(total(weights.drop_last()) as int, weights.last() as int, d);
    }
}

/// The probabilities of a normalized table add up to one.
pub proof fn lemma_normalized_sums_to_one<T: PartialEq>(table: ProbabilityTable<T>)
    requires
        table.wf(),
        table.is_normalized(),
    ensures
        sum_of_probabilities(table.weights(), table.denominator()) == 1 as real,
{
    lemma_sum_of_probabilities(table.weights(), table.denominator());
    lemma_quotient_zero_one(table.denominator() as int);
}

/// The weighted sum over the denominator is the sum of probability times
/// value.
pub proof fn lemma_expected_value(weights: Seq<u64>, values: Seq<i64>, denominator: u64)
    requires
        denominator > 0,
        weights.len() == values.len(),
    ensures
        quotient(weighted_sum(weights, values), denominator as int) == expected_value(
            weights,
            values,
            denominator,
        ),
    decreases weights.len(),
{
    let d = denominator as int;
    if weights.len() == 0 {
        lemma_quotient_zero_one(d);
    } else {
        lemma_expected_value(weights.drop_last(), values.drop_last(), denominator);
        let a = weighted_sum(weights.drop_last(), values.drop_last());
        let w = weights.last() as int;
        let v = values.last() as int;
        lemma_quotient_sum(a, w * v, d);
        lemma_quotient_times(w, d, v);
    }
}

/// An exact expectation with `sample_size` 1 is the sum over the table of
/// probability times value: no sampling error enters it.
pub proof fn lemma_exact_expectation_unit<T: PartialEq>(
    table: ProbabilityTable<T>,
    value_of: spec_fn(T, i64) -> bool,
    e: Ratio,
)
    requires
        table.wf(),
        table.is_exact_expectation(value_of, 1, e),
    ensures
        exists|values: Seq<i64>| #[trigger]
            table.is_valuation(value_of, values) && e.value() == expected_value(
                table.weights(),
                values,
                table.denominator(),
            ),
{
    let values = choose|values: Seq<i64>| #[trigger]
        table.is_valuation(value_of, values) && e.num as int == weighted_sum(
            table.weights(),
            values,
        );
    lemma_expected_value(table.weights(), values, table.denominator());
}

/// The weight that a table of the given outcomes and weights gives to
/// `outcome`.
pub open spec fn weight_at<T>(outcomes: Seq<T>, weights: Seq<u64>, outcome: T) -> u64 {
    if outcomes.contains(outcome) {
        weights[outcomes.index_of(outcome)]
    } else {
        0
    }
}

/// The sum of the weights that a table gives to the first `k` of `keys`.
pub open spec fn listed_sum<T>(outcomes: Seq<T>, weights: Seq<u64>, keys: Seq<T>, k: int) -> int
    decreases k,
{
    if k <= 0 {
        0
    } else {
        listed_sum(outcomes, weights, keys, k - 1) + weight_at(outcomes, weights, keys[k - 1])
    }
}

/// Setting a weight to zero takes it off the total.
pub proof fn lemma_total_without(weights: Seq<u64>, p: int)
    requires
        0 <= p < weights.len(),
    ensures
        total(weights.update(p, 0)) == total(weights) - weights[p],
    decreases weights.len(),
{
    let cleared = weights.update(p, 0);
    if p == weights.len() - 1 {
        assert(cleared.drop_last() == weights.drop_last());
    } else {
        lemma_total_without(weights.drop_last(), p);
        assert(cleared.drop_last() == weights.drop_last().update(p, 0));
    }
}

/// Setting the weight of an outcome to zero leaves the weights of keys
/// other than the outcome as they are.
pub proof fn lemma_listed_sum_without<T>(
    outcomes: Seq<T>,
    weights: Seq<u64>,
    keys: Seq<T>,
    k: int,
    p: int,
)
    requires
        outcomes.no_duplicates(),
        outcomes.len() == weights.len(),
        0 <= p < outcomes.len(),
        0 <= k <= keys.len(),
        forall|j: int| 0 <= j < k ==> #[trigger] keys[j] != outcomes[p],
    ensures
        listed_sum(outcomes, weights.update(p, 0), keys, k) == listed_sum(
            outcomes,
            weights,
            keys,
            k,
        ),
    decreases k,
{
    if k > 0 {
        lemma_listed_sum_without(outcomes, weights, keys, k - 1, p);
        let x = keys[k - 1];
        if outcomes.contains(x) {
            let q = outcomes.index_of(x);
            assert(outcomes[q] == x);
            assert(q != p);
        }
    }
}

/// The weights that a table gives to keys that are all different add up
/// to the total weight of the table at most.
pub proof fn lemma_listed_sum<T>(outcomes: Seq<T>, weights: Seq<u64>, keys: Seq<T>, k: int)
    requires
        outcomes.no_duplicates(),
        outcomes.len() == weights.len(),
        keys.no_duplicates(),
        0 <= k <= keys.len(),
    ensures
        0 <= listed_sum(outcomes, weights, keys, k) <= total(weights),
    decreases k,
{
    if k > 0 {
        let x = keys[k - 1];
        if outcomes.contains(x) {
            let p = outcomes.index_of(x);
            assert(outcomes[p] == x);
            lemma_total_without(weights, p);
            lemma_listed_sum(outcomes, weights.update(p, 0), keys, k - 1);
            lemma_listed_sum_without(outcomes, weights, keys, k - 1, p);
        } else {
            lemma_listed_sum(outcomes, weights, keys, k - 1);
        }
    }
}

/// The first position at which `item` occurs in `items`, if it occurs.
pub fn position_in<T: PartialEq>(items: &Vec<T>, item: &T) -> (r: Option<usize>)
    requires
        eq_is_equality::<T>(),
    ensures
        match r {
            Some(i) => {
                &&& i < items.len()
                &&& items[i as int] == *item
                &&& forall|j: int| 0 <= j < i ==> items[j] != *item
            },
            None => !items@.contains(*item),
        },
{
    let mut i: usize = 0;
    while i < items.len()
        invariant
            i <= items.len(),
            eq_is_equality::<T>(),
            forall|j: int| 0 <= j < i ==> items@[j] != *item,
        decreases items.len() - i,
    {
        if items[i] == *item {
            return Some(i);
        }
        i += 1;
    }
    None
}

/// Whether an outcome occurs twice in `outcomes`.
pub fn has_duplicates<T: PartialEq>(outcomes: &Vec<T>) -> (b: bool)
    requires
        eq_is_equality::<T>(),
    ensures
        b == !outcomes@.no_duplicates(),
{
    let mut i: usize = 0;
    while i < outcomes.len()
        invariant
            i <= outcomes.len(),
            eq_is_equality::<T>(),
            forall|a: int, b: int| 0 <= a < b < i ==> outcomes@[a] != outcomes@[b],
        decreases outcomes.len() - i,
    {
        let mut j: usize = 0;
        while j < i
            invariant
                j <= i < outcomes.len(),
                eq_is_equality::<T>(),
                forall|a: int| 0 <= a < j ==> outcomes@[a] != outcomes@[i as int],
            decreases i - j,
        {
            if outcomes[j] == outcomes[i] {
                return true;
            }
            j += 1;
        }
        i += 1;
    }
    assert forall|a: int, b: int|
        0 <= a < outcomes@.len() && 0 <= b < outcomes@.len() && a != b implies outcomes@[a]
        != outcomes@[b] by {
        if a < b {
        } else {
            assert(outcomes@[b] != outcomes@[a]);
        }
    }
    false
}

/// The sum of `weights`, unless it exceeds what a `u64` holds.
pub fn checked_total(weights: &Vec<u64>) -> (r: Option<u64>)
    ensures
        match r {
            Some(t) => t == total(weights@),
            None => total(weights@) > u64::MAX,
        },
{
    let mut acc: u64 = 0;
    let mut i: usize = 0;
    while i < weights.len()
        invariant
            i <= weights.len(),
            acc == total(weights@.take(i as int)),
        decreases weights.len() - i,
    {
        proof {
            lemma_total_step(weights@, i as int);
            lemma_total_prefix(weights@, i + 1);
        }
        match acc.checked_add(weights[i]) {
            None => {
                return None;
            },
            Some(next) => {
                acc = next;
            },
        }
        i += 1;
    }
    proof {
        assert(weights@.take(i as int) == weights@);
    }
    Some(acc)
}

} // verus!
