//! Distributions that can be sampled, transformed and composed.
use crate::ratio::Ratio;
use vstd::prelude::*;

verus! {

/// The sum of a sequence of integers.
pub open spec fn sum(values: Seq<i64>) -> int
    decreases values.len(),
{
    if values.len() == 0 {
        0
    } else {
        sum(values.drop_last()) + values.last()
    }
}

/// A sum of `i64` values is bounded by their number times the largest
/// magnitude of an `i64`.
pub proof fn lemma_sum_bounds(values: Seq<i64>)
    ensures
        -(values.len() * 0x8000_0000_0000_0000) <= sum(values) <= values.len()
            * 0x8000_0000_0000_0000,
    decreases values.len(),
{
    if values.len() > 0 {
        lemma_sum_bounds(values.drop_last());
    }
}

/// What a function from outcomes to integers may return: `(t, v)` is in
/// the relation when a call on `t` may return `v`.
pub open spec fn results_of<T, Func: Fn(&T) -> i64>(f: Func) -> spec_fn(T, i64) -> bool {
    |t: T, v: i64| call_ensures(f, (&t,), v)
}

/// Whether `draws` are outcomes that satisfy `possible` and `values` are,
/// one for one, values that `value_of` relates to them.
pub open spec fn is_sample_run<T>(
    possible: spec_fn(T) -> bool,
    value_of: spec_fn(T, i64) -> bool,
    draws: Seq<T>,
    values: Seq<i64>,
) -> bool {
    &&& draws.len() == values.len()
    &&& forall|i: int|
        0 <= i < draws.len() ==> possible(#[trigger] draws[i]) && value_of(draws[i], values[i])
}

/// Whether `e` is the mean of a function over `sample_size` outcomes, each
/// of which satisfies `possible`: the numerator is the sum of the values
/// that `value_of` relates to the outcomes, the denominator is
/// `sample_size`.
pub open spec fn is_sample_mean<T>(
    possible: spec_fn(T) -> bool,
    value_of: spec_fn(T, i64) -> bool,
    sample_size: usize,
    e: Ratio,
) -> bool {
    exists|draws: Seq<T>, values: Seq<i64>|
        {
            &&& #[trigger] is_sample_run(possible, value_of, draws, values)
            &&& draws.len() == sample_size
            &&& e.num == sum(values)
            &&& e.den == sample_size
        }
}

/// A probability distribution over outcomes of type `T` that can be sampled.
pub trait Distribution<T> {
    /// Whether the parameters of the distribution allow it to be sampled.
    spec fn wf(&self) -> bool;

    /// Whether a draw may produce `outcome`.
    spec fn can_yield(&self, outcome: T) -> bool;

    /// Whether `e` is an admissible result of `expectation` for a function
    /// with the results `value_of` and for `sample_size`.
    spec fn estimates(&self, value_of: spec_fn(T, i64) -> bool, sample_size: usize, e: Ratio) -> bool;

    /// Returns a random sample from the distribution. The distribution
    /// itself is left as it is.
    fn sample(&self) -> (outcome: T)
        requires
            self.wf(),
        ensures
            self.can_yield(outcome),
    ;

    /// Turns the distribution into an endless source of samples.
    fn sample_iter(self) -> (iter: DistIter<Self, T>) where Self: Sized
        ensures
            iter.dist() == self,
    {
        DistIter { dist: self, _phantom: std::marker::PhantomData }
    }

    /// The distribution of `f(x)` where `x` follows this distribution.
    /// `f` is stored, not called: it runs when a sample is requested.
    fn map<Func, U>(self, f: Func) -> (mapped: DistMap<Self, T, Func, U>) where
        Self: Sized,
        Func: Fn(T) -> U,

        ensures
            mapped.dist() == self,
            mapped.func() == f,
    {
        DistMap { dist: self, func: f, _phantom: std::marker::PhantomData }
    }

    /// The distribution of a draw from `f(x)` where `x` follows this
    /// distribution: the second variable depends on the outcome of the
    /// first. `f` is stored, not called.
    fn apply<Func, U, X>(self, f: Func) -> (bound: SampledDist<Self, T, Func, U>) where
        Self: Sized,
        Func: Fn(T) -> X,

        ensures
            bound.dist() == self,
            bound.func() == f,
    {
        SampledDist { dist: self, func: f, _phantom: std::marker::PhantomData }
    }

    /// The expectation of `f(x)` where `x` follows this distribution, as a
    /// fraction.
    fn expectation<Func>(&self, f: Func, sample_size: usize) -> (e: Ratio) where
        Func: Fn(&T) -> i64,

        requires
            self.wf(),
            forall|t: T| self.can_yield(t) ==> call_requires(f, (&t,)),
        ensures
            self.estimates(results_of(f), sample_size, e),
    ;
}

/// An outcome that meets `possible` also meets any weaker condition, so a
/// sample mean over the first is one over the second.
pub proof fn lemma_sample_mean_weaken<T>(
    possible: spec_fn(T) -> bool,
    weaker: spec_fn(T) -> bool,
    value_of: spec_fn(T, i64) -> bool,
    sample_size: usize,
    e: Ratio,
)
    requires
        is_sample_mean(possible, value_of, sample_size, e),
        forall|t: T| #[trigger] possible(t) ==> weaker(t),
    ensures
        is_sample_mean(weaker, value_of, sample_size, e),
{
    let (draws, values) = choose|draws: Seq<T>, values: Seq<i64>|
        {
            &&& #[trigger] is_sample_run(possible, value_of, draws, values)
            &&& draws.len() == sample_size
            &&& e.num == sum(values)
            &&& e.den == sample_size
        };
    assert(is_sample_run(weaker, value_of, draws, values));
}

/// Calls `draw` `sample_size` times and returns the mean of `f` over what
/// it returned.
pub fn mean_of_draws<T, Draw, Func>(draw: &Draw, f: &Func, sample_size: usize) -> (e: Ratio) where
    Draw: Fn() -> T,
    Func: Fn(&T) -> i64,

    requires
        call_requires(*draw, ()),
        forall|t: T| call_ensures(*draw, (), t) ==> call_requires(*f, (&t,)),
    ensures
        is_sample_mean(|t: T| call_ensures(*draw, (), t), results_of(*f), sample_size, e),
{
    let mut total: i128 = 0;
    let mut n: usize = 0;
    let ghost mut draws: Seq<T> = Seq::empty();
    let ghost mut values: Seq<i64> = Seq::empty();
    while n < sample_size
        invariant
            n <= sample_size,
            call_requires(*draw, ()),
            forall|t: T| call_ensures(*draw, (), t) ==> call_requires(*f, (&t,)),
            draws.len() == n,
            is_sample_run(|t: T| call_ensures(*draw, (), t), results_of(*f), draws, values),
            total == sum(values),
        decreases sample_size - n,
    {
        let outcome = draw();
        let value = f(&outcome);
        proof {
            lemma_sum_bounds(values);
            assert(values.push(value).drop_last() == values);
            draws = draws.push(outcome);
            values = values.push(value);
        }
        total = total + value as i128;
        n = n + 1;
    }
    Ratio::new(total, sample_size as u128)
}

/// An endless source of samples of a distribution `D`.
#[derive(Debug)]
pub struct DistIter<D, T> {
    dist: D,
    _phantom: std::marker::PhantomData<T>,
}

impl<D, T> DistIter<D, T> {
    /// The distribution that the samples come from.
    pub closed spec fn dist(&self) -> D {
        self.dist
    }
}

impl<D, T> DistIter<D, T> where D: Distribution<T> {
    /// The next sample. It is never `None`: the source does not run dry.
    pub fn next(&mut self) -> (item: Option<T>)
        requires
            old(self).dist().wf(),
        ensures
            item matches Some(t) && old(self).dist().can_yield(t),
            final(self).dist() == old(self).dist(),
    {
        Some(self.dist.sample())
    }

    /// The next `count` samples, in the order in which they were drawn.
    pub fn take(&mut self, count: usize) -> (items: Vec<T>)
        requires
            old(self).dist().wf(),
        ensures
            items.len() == count,
            forall|i: int| 0 <= i < count ==> old(self).dist().can_yield(#[trigger] items[i]),
            final(self).dist() == old(self).dist(),
    {
        let mut items: Vec<T> = Vec::new();
        while items.len() < count
            invariant
                items.len() <= count,
                self.dist == old(self).dist,
                self.dist.wf(),
                forall|i: int| 0 <= i < items.len() ==> self.dist.can_yield(#[trigger] items[i]),
            decreases count - items.len(),
        {
            let t = self.dist.sample();
            items.push(t);
        }
        items
    }
}

/// The distribution of `func(x)` where `x` follows `dist`.
#[derive(Debug)]
pub struct DistMap<D, T, F, U> {
    dist: D,
    func: F,
    _phantom: std::marker::PhantomData<(T, U)>,
}

impl<D, T, F, U> DistMap<D, T, F, U> {
    /// The distribution whose outcomes are mapped.
    pub closed spec fn dist(&self) -> D {
        self.dist
    }

    /// The function that maps the outcomes.
    pub closed spec fn func(&self) -> F {
        self.func
    }
}

impl<D, T, F, U> Distribution<U> for DistMap<D, T, F, U> where D: Distribution<T>, F: Fn(T) -> U {
    open spec fn wf(&self) -> bool {
        &&& self.dist().wf()
        &&& forall|t: T| self.dist().can_yield(t) ==> call_requires(self.func(), (t,))
    }

    open spec fn can_yield(&self, outcome: U) -> bool {
        exists|t: T| self.dist().can_yield(t) && call_ensures(self.func(), (t,), outcome)
    }

    open spec fn estimates(
        &self,
        value_of: spec_fn(U, i64) -> bool,
        sample_size: usize,
        e: Ratio,
    ) -> bool {
        is_sample_mean(|u: U| self.can_yield(u), value_of, sample_size, e)
    }

    fn sample(&self) -> (outcome: U) {
        (self.func)(self.dist.sample())
    }

    /// A sampled estimate: the mean of `f` over `sample_size` draws.
    fn expectation<Func>(&self, f: Func, sample_size: usize) -> (e: Ratio) where
        Func: Fn(&U) -> i64,
     {
        let draw = || -> (u: U)
            ensures
                self.can_yield(u),
            { self.sample() };
        let e = mean_of_draws(&draw, &f, sample_size);
        proof {
            lemma_sample_mean_weaken(
                |u: U| call_ensures(draw, (), u),
                |u: U| self.can_yield(u),
                results_of(f),
                sample_size,
                e,
            );
        }
        e
    }
}

/// The distribution of a draw from `func(x)` where `x` follows `dist`.
pub struct SampledDist<D, T, F, U> {
    dist: D,
    func: F,
    _phantom: std::marker::PhantomData<(T, U)>,
}

impl<D, T, F, U> SampledDist<D, T, F, U> {
    /// The distribution of the first variable.
    pub closed spec fn dist(&self) -> D {
        self.dist
    }

    /// The function from an outcome of the first variable to the
    /// distribution of the second.
    pub closed spec fn func(&self) -> F {
        self.func
    }
}

impl<D, T, F, U, X> Distribution<U> for SampledDist<D, T, F, U> where
    D: Distribution<T>,
    X: Distribution<U>,
    F: Fn(T) -> X,
 {
    open spec fn wf(&self) -> bool {
        &&& self.dist().wf()
        &&& forall|t: T| self.dist().can_yield(t) ==> call_requires(self.func(), (t,))
        &&& forall|t: T, x: X|
            self.dist().can_yield(t) && call_ensures(self.func(), (t,), x) ==> x.wf()
    }

    open spec fn can_yield(&self, outcome: U) -> bool {
        exists|t: T, x: X|
            self.dist().can_yield(t) && call_ensures(self.func(), (t,), x) && x.can_yield(
                outcome,
            )
    }

    open spec fn estimates(
        &self,
        value_of: spec_fn(U, i64) -> bool,
        sample_size: usize,
        e: Ratio,
    ) -> bool {
        is_sample_mean(|u: U| self.can_yield(u), value_of, sample_size, e)
    }

    fn sample(&self) -> (outcome: U) {
        let inner = (self.func)(self.dist.sample());
        inner.sample()
    }

    /// A sampled estimate: the mean of `f` over `sample_size` draws.
    fn expectation<Func>(&self, f: Func, sample_size: usize) -> (e: Ratio) where
        Func: Fn(&U) -> i64,
     {
        let draw = || -> (u: U)
            ensures
                self.can_yield(u),
            { self.sample() };
        let e = mean_of_draws(&draw, &f, sample_size);
        proof {
            lemma_sample_mean_weaken(
                |u: U| call_ensures(draw, (), u),
                |u: U| self.can_yield(u),
                results_of(f),
                sample_size,
                e,
            );
        }
        e
    }
}

} // verus!
