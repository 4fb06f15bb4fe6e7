//! Kernels from which the probability leaves the active states for good
//! have no stationary distribution.
use crate::ratio::{
    lemma_quotient_sign, lemma_quotient_sum, lemma_quotient_unit, lemma_quotient_zero_one,
    lemma_real_mul_neg, lemma_real_mul_nonnegative, lemma_real_mul_sum, lemma_real_mul_zero,
    quotient,
};
use crate::stationary::{
    has_unique_stationary, inflow, is_kernel, is_stationary, is_unique_stationary, mass,
    step_probability,
};
use vstd::prelude::*;

verus! {

/// The sum of the first `k` weights of the steps from the state `i`.
pub open spec fn row_total(w: Seq<Seq<int>>, i: int, k: int) -> int
    decreases k,
{
    if k <= 0 {
        0
    } else {
        row_total(w, i, k - 1) + w[i][k - 1]
    }
}

/// Whether the kernel gives each state probabilities that are not
/// negative and add up to one at most: what is missing is the
/// probability of a step into an absorbing state.
pub open spec fn is_substochastic(w: Seq<Seq<int>>, t: Seq<int>) -> bool {
    &&& is_kernel(w, t)
    &&& forall|i: int, j: int| 0 <= i < t.len() && 0 <= j < t.len() ==> (#[trigger] w[i][j]) >= 0
    &&& forall|i: int| 0 <= i < t.len() ==> row_total(w, i, t.len() as int) <= #[trigger] t[i]
}

/// Whether a step from the state `i` leads into an absorbing state with
/// positive probability.
pub open spec fn leaks(w: Seq<Seq<int>>, t: Seq<int>, i: int) -> bool {
    row_total(w, i, t.len() as int) < t[i]
}

/// Whether `path` leads from state to state by steps of positive
/// probability and ends in a state that leaks.
pub open spec fn is_escape(w: Seq<Seq<int>>, t: Seq<int>, path: Seq<int>) -> bool {
    &&& path.len() >= 1
    &&& forall|l: int| 0 <= l < path.len() ==> 0 <= #[trigger] path[l] < t.len()
    &&& forall|l: int| 0 <= l < path.len() - 1 ==> w[#[trigger] path[l]][path[l + 1]] > 0
    &&& leaks(w, t, path.last())
}

/// Whether an absorbing state is reached from the state `i` with positive
/// probability.
pub open spec fn reaches_absorption(w: Seq<Seq<int>>, t: Seq<int>, i: int) -> bool {
    exists|path: Seq<int>| #[trigger] is_escape(w, t, path) && path[0] == i
}

/// Whether an absorbing state is reached from every state with positive
/// probability.
pub open spec fn is_absorbed(w: Seq<Seq<int>>, t: Seq<int>) -> bool {
    forall|i: int| 0 <= i < t.len() ==> #[trigger] reaches_absorption(w, t, i)
}

/// The probability that flows from the state `i` to the state `j` in one
/// step.
pub open spec fn flow(w: Seq<Seq<int>>, t: Seq<int>, pi: Seq<real>, i: int, j: int) -> real {
    pi[i] * step_probability(w, t, i, j)
}

/// The probability that flows from the state `i` to the first `k` states
/// in one step.
pub open spec fn outflow(w: Seq<Seq<int>>, t: Seq<int>, pi: Seq<real>, i: int, k: int) -> real
    decreases k,
{
    if k <= 0 {
        0 as real
    } else {
        outflow(w, t, pi, i, k - 1) + flow(w, t, pi, i, k - 1)
    }
}

/// The probability that flows from the first `m` states to the first `k`
/// states in one step, summed state by state that it flows into.
pub open spec fn total_in(w: Seq<Seq<int>>, t: Seq<int>, pi: Seq<real>, m: int, k: int) -> real
    decreases k,
{
    if k <= 0 {
        0 as real
    } else {
        total_in(w, t, pi, m, k - 1) + inflow(w, t, pi, k - 1, m)
    }
}

/// The same probability, summed state by state that it flows out of.
pub open spec fn total_out(w: Seq<Seq<int>>, t: Seq<int>, pi: Seq<real>, m: int, k: int) -> real
    decreases m,
{
    if m <= 0 {
        0 as real
    } else {
        total_out(w, t, pi, m - 1, k) + outflow(w, t, pi, m - 1, k)
    }
}

/// A flow is not negative.
pub proof fn lemma_flow_nonnegative(w: Seq<Seq<int>>, t: Seq<int>, pi: Seq<real>, i: int, j: int)
    requires
        is_substochastic(w, t),
        is_stationary(w, t, pi),
        0 <= i < t.len(),
        0 <= j < t.len(),
    ensures
        flow(w, t, pi, i, j) >= 0 as real,
        w[i][j] > 0 ==> step_probability(w, t, i, j) > 0 as real,
{
    assert(w[i][j] >= 0);
    assert(t[i] > 0);
    assert(pi[i] >= 0 as real);
    lemma_quotient_sign(w[i][j], t[i]);
    lemma_real_mul_nonnegative(pi[i], step_probability(w, t, i, j));
}

/// Adding a state that probability flows out of adds its outflow.
pub proof fn lemma_total_in_step(w: Seq<Seq<int>>, t: Seq<int>, pi: Seq<real>, m: int, k: int)
    requires
        m >= 1,
    ensures
        total_in(w, t, pi, m, k) == total_in(w, t, pi, m - 1, k) + outflow(w, t, pi, m - 1, k),
    decreases k,
{
    if k > 0 {
        lemma_total_in_step(w, t, pi, m, k - 1);
        assert(inflow(w, t, pi, k - 1, m) == inflow(w, t, pi, k - 1, m - 1) + flow(
            w,
            t,
            pi,
            m - 1,
            k - 1,
        ));
    }
}

/// What flows into the states is what flows out of the states.
pub proof fn lemma_in_is_out(w: Seq<Seq<int>>, t: Seq<int>, pi: Seq<real>, m: int, k: int)
    ensures
        total_in(w, t, pi, m, k) == total_out(w, t, pi, m, k),
    decreases m,
{
    if m > 0 {
        lemma_in_is_out(w, t, pi, m - 1, k);
        lemma_total_in_step(w, t, pi, m, k);
    } else {
        lemma_total_in_empty(w, t, pi, m, k);
    }
}

/// Nothing flows out of no state.
pub proof fn lemma_total_in_empty(w: Seq<Seq<int>>, t: Seq<int>, pi: Seq<real>, m: int, k: int)
    requires
        m <= 0,
    ensures
        total_in(w, t, pi, m, k) == 0 as real,
    decreases k,
{
    if k > 0 {
        lemma_total_in_empty(w, t, pi, m, k - 1);
    }
}

/// What flows into the first `k` states of a stationary distribution is
/// their probability.
pub proof fn lemma_total_in_mass(w: Seq<Seq<int>>, t: Seq<int>, pi: Seq<real>, k: int)
    requires
        is_stationary(w, t, pi),
        0 <= k <= t.len(),
    ensures
        total_in(w, t, pi, t.len() as int, k) == mass(pi, k),
    decreases k,
{
    if k > 0 {
        lemma_total_in_mass(w, t, pi, k - 1);
        assert(inflow(w, t, pi, k - 1, t.len() as int) == pi[k - 1]);
    }
}

/// The outflow of a state into the first `k` states is its probability
/// times the probability of a step into one of them.
pub proof fn lemma_outflow(w: Seq<Seq<int>>, t: Seq<int>, pi: Seq<real>, i: int, k: int)
    requires
        is_kernel(w, t),
        0 <= i < t.len(),
        0 <= k <= t.len(),
    ensures
        outflow(w, t, pi, i, k) == pi[i] * quotient(row_total(w, i, k), t[i]),
    decreases k,
{
    assert(t[i] > 0);
    if k > 0 {
        lemma_outflow(w, t, pi, i, k - 1);
        lemma_quotient_sum(row_total(w, i, k - 1), w[i][k - 1], t[i]);
        lemma_real_mul_sum(
            pi[i],
            quotient(row_total(w, i, k - 1), t[i]),
            quotient(w[i][k - 1], t[i]),
        );
    } else {
        lemma_quotient_zero_one(t[i]);
        lemma_real_mul_zero(pi[i], 0 as real);
    }
}

/// The sum of the first `k` weights of a row of weights that are not
/// negative is not negative and does not shrink as `k` grows.
pub proof fn lemma_row_total(w: Seq<Seq<int>>, t: Seq<int>, i: int, k: int)
    requires
        is_substochastic(w, t),
        0 <= i < t.len(),
        0 <= k <= t.len(),
    ensures
        0 <= row_total(w, i, k) <= row_total(w, i, t.len() as int),
    decreases t.len() - k,
{
    lemma_row_total_nonnegative(w, t, i, k);
    if k < t.len() {
        lemma_row_total(w, t, i, k + 1);
        assert(w[i][k] >= 0);
    }
}

/// The sum of the first `k` weights of a row of weights that are not
/// negative is not negative.
pub proof fn lemma_row_total_nonnegative(w: Seq<Seq<int>>, t: Seq<int>, i: int, k: int)
    requires
        is_substochastic(w, t),
        0 <= i < t.len(),
        0 <= k <= t.len(),
    ensures
        0 <= row_total(w, i, k),
    decreases k,
{
    if k > 0 {
        lemma_row_total_nonnegative(w, t, i, k - 1);
        assert(w[i][k - 1] >= 0);
    }
}

/// A state of a stationary distribution keeps back none of its
/// probability and loses none: its outflow into the active states is at
/// most its probability, and less where the state leaks and has
/// probability.
pub proof fn lemma_outflow_bound(w: Seq<Seq<int>>, t: Seq<int>, pi: Seq<real>, i: int)
    requires
        is_substochastic(w, t),
        is_stationary(w, t, pi),
        0 <= i < t.len(),
    ensures
        outflow(w, t, pi, i, t.len() as int) <= pi[i],
        leaks(w, t, i) && pi[i] > 0 as real ==> outflow(w, t, pi, i, t.len() as int) < pi[i],
{
    let n = t.len() as int;
    let r = row_total(w, i, n);
    let q = quotient(r, t[i]);
    lemma_outflow(w, t, pi, i, n);
    lemma_row_total(w, t, i, n);
    assert(r <= t[i]);
    assert(t[i] > 0);
    assert(pi[i] >= 0 as real);
    lemma_quotient_unit(r, t[i]);
    // pi (1 - q) = pi - pi q is not negative, and positive where both factors are
    lemma_real_mul_sum(pi[i], 1 as real, -q);
    lemma_real_mul_neg(pi[i], q);
    lemma_real_mul_nonnegative(pi[i], 1 as real + (-q));
    lemma_real_mul_zero(pi[i], 1 as real + (-q));
}

/// The probability of the first `m` states of a stationary distribution
/// is at least what flows out of them into the active states.
pub proof fn lemma_deficit(w: Seq<Seq<int>>, t: Seq<int>, pi: Seq<real>, m: int)
    requires
        is_substochastic(w, t),
        is_stationary(w, t, pi),
        0 <= m <= t.len(),
    ensures
        mass(pi, m) >= total_out(w, t, pi, m, t.len() as int),
    decreases m,
{
    if m > 0 {
        lemma_deficit(w, t, pi, m - 1);
        lemma_outflow_bound(w, t, pi, m - 1);
    }
}

/// The probability of the first `m` states exceeds what flows out of them
/// by at least what the state `i` among them keeps back.
pub proof fn lemma_deficit_of(w: Seq<Seq<int>>, t: Seq<int>, pi: Seq<real>, i: int, m: int)
    requires
        is_substochastic(w, t),
        is_stationary(w, t, pi),
        0 <= i < m <= t.len(),
    ensures
        mass(pi, m) - total_out(w, t, pi, m, t.len() as int) >= pi[i] - outflow(
            w,
            t,
            pi,
            i,
            t.len() as int,
        ),
    decreases m,
{
    if m == i + 1 {
        lemma_deficit(w, t, pi, i);
    } else {
        lemma_deficit_of(w, t, pi, i, m - 1);
        lemma_outflow_bound(w, t, pi, m - 1);
    }
}

/// A state that leaks has probability zero in a stationary distribution.
pub proof fn lemma_leak_is_empty(w: Seq<Seq<int>>, t: Seq<int>, pi: Seq<real>, i: int)
    requires
        is_substochastic(w, t),
        is_stationary(w, t, pi),
        0 <= i < t.len(),
        leaks(w, t, i),
    ensures
        pi[i] == 0 as real,
{
    let n = t.len() as int;
    lemma_in_is_out(w, t, pi, n, n);
    lemma_total_in_mass(w, t, pi, n);
    lemma_deficit_of(w, t, pi, i, n);
    lemma_outflow_bound(w, t, pi, i);
    assert(pi[i] >= 0 as real);
}

/// A flow into a state is at most the inflow into the state.
pub proof fn lemma_flow_below_inflow(
    w: Seq<Seq<int>>,
    t: Seq<int>,
    pi: Seq<real>,
    i: int,
    j: int,
    m: int,
)
    requires
        is_substochastic(w, t),
        is_stationary(w, t, pi),
        0 <= j < t.len(),
        0 <= m <= t.len(),
    ensures
        inflow(w, t, pi, j, m) >= 0 as real,
        0 <= i < m ==> flow(w, t, pi, i, j) <= inflow(w, t, pi, j, m),
    decreases m,
{
    if m > 0 {
        lemma_flow_below_inflow(w, t, pi, i, j, m - 1);
        lemma_flow_nonnegative(w, t, pi, m - 1, j);
    }
}

/// Every state on a path that ends in a state that leaks has probability
/// zero in a stationary distribution.
pub proof fn lemma_escape_is_empty(
    w: Seq<Seq<int>>,
    t: Seq<int>,
    pi: Seq<real>,
    path: Seq<int>,
    l: int,
)
    requires
        is_substochastic(w, t),
        is_stationary(w, t, pi),
        is_escape(w, t, path),
        0 <= l < path.len(),
    ensures
        pi[path[l]] == 0 as real,
    decreases path.len() - l,
{
    let i = path[l];
    if l == path.len() - 1 {
        lemma_leak_is_empty(w, t, pi, i);
    } else {
        let j = path[l + 1];
        lemma_escape_is_empty(w, t, pi, path, l + 1);
        assert(w[i][j] > 0);
        assert(inflow(w, t, pi, j, t.len() as int) == pi[j]);
        lemma_flow_below_inflow(w, t, pi, i, j, t.len() as int);
        lemma_flow_nonnegative(w, t, pi, i, j);
        lemma_real_mul_zero(pi[i], step_probability(w, t, i, j));
    }
}

/// The sum of entries that are all zero is zero.
pub proof fn lemma_mass_of_zeros(pi: Seq<real>, k: int)
    requires
        0 <= k <= pi.len(),
        forall|i: int| 0 <= i < k ==> #[trigger] pi[i] == 0 as real,
    ensures
        mass(pi, k) == 0 as real,
    decreases k,
{
    if k > 0 {
        lemma_mass_of_zeros(pi, k - 1);
    }
}

/// A kernel from whose every state an absorbing state is reached with
/// positive probability has no stationary distribution: the probability
/// leaves the active states for good.
pub proof fn lemma_absorbed_has_no_stationary(w: Seq<Seq<int>>, t: Seq<int>)
    requires
        is_substochastic(w, t),
        is_absorbed(w, t),
    ensures
        forall|pi: Seq<real>| !#[trigger] is_stationary(w, t, pi),
        !has_unique_stationary(w, t),
{
    assert forall|pi: Seq<real>| !#[trigger] is_stationary(w, t, pi) by {
        if is_stationary(w, t, pi) {
            assert forall|i: int| 0 <= i < t.len() implies #[trigger] pi[i] == 0 as real by {
                assert(reaches_absorption(w, t, i));
                let path = choose|path: Seq<int>| #[trigger] is_escape(w, t, path) && path[0] == i;
                lemma_escape_is_empty(w, t, pi, path, 0);
            }
            lemma_mass_of_zeros(pi, t.len() as int);
        }
    }
    if has_unique_stationary(w, t) {
        let pi = choose|pi: Seq<real>| #[trigger] is_unique_stationary(w, t, pi);
        assert(is_stationary(w, t, pi));
    }
}

} // verus!
