//! Stationary distributions of a transition kernel over finitely many
//! states: the distributions that a step of the process leaves as they
//! are.
use crate::elimination::{
    fraction_values, fractions_bounded, row_view, solve_within, system_view, Fraction, Solution,
};
use crate::finite::{lemma_total_step, total};
use crate::linear::{
    bounded, dot, growth, has_unique_solution, is_unique_solution, lemma_growth_monotonic,
    lemma_growth_step, satisfies, solves, well_shaped,
};
use crate::ratio::{
    lemma_quotient_cancel, lemma_quotient_negate, lemma_quotient_scale, lemma_quotient_sign,
    lemma_quotient_sum, lemma_quotient_times, lemma_quotient_zero_one, lemma_real_div_cancel,
    lemma_real_mul_assoc, lemma_real_mul_comm, lemma_real_mul_diff, lemma_scaled_bound, quotient,
};
use vstd::prelude::*;

verus! {

/// Whether `w` and `t` describe a kernel over `t.len()` states: `w[i][j]`
/// is the weight of the step from the state `i` to the state `j`, and
/// `t[i]`, which is positive, the denominator of the probabilities of
/// the steps from the state `i`.
pub open spec fn is_kernel(w: Seq<Seq<int>>, t: Seq<int>) -> bool {
    &&& w.len() == t.len()
    &&& forall|i: int| 0 <= i < w.len() ==> (#[trigger] w[i]).len() == t.len()
    &&& forall|i: int| 0 <= i < t.len() ==> (#[trigger] t[i]) > 0
}

/// The probability of the step from the state `i` to the state `j`.
pub open spec fn step_probability(w: Seq<Seq<int>>, t: Seq<int>, i: int, j: int) -> real {
    quotient(w[i][j], t[i])
}

/// The probability that flows into the state `j` from the first `k`
/// states in one step, where `pi` gives the probability of each state
/// before the step.
pub open spec fn inflow(w: Seq<Seq<int>>, t: Seq<int>, pi: Seq<real>, j: int, k: int) -> real
    decreases k,
{
    if k <= 0 {
        0 as real
    } else {
        inflow(w, t, pi, j, k - 1) + pi[k - 1] * step_probability(w, t, k - 1, j)
    }
}

/// The sum of the first `k` entries of `pi`.
pub open spec fn mass(pi: Seq<real>, k: int) -> real
    decreases k,
{
    if k <= 0 {
        0 as real
    } else {
        mass(pi, k - 1) + pi[k - 1]
    }
}

/// Whether a step of the kernel leaves `pi` as it is and the entries of
/// `pi` add up to one. The entries may be negative.
pub open spec fn is_invariant(w: Seq<Seq<int>>, t: Seq<int>, pi: Seq<real>) -> bool {
    &&& pi.len() == t.len()
    &&& forall|j: int| 0 <= j < t.len() ==> inflow(w, t, pi, j, t.len() as int) == #[trigger] pi[j]
    &&& mass(pi, t.len() as int) == 1 as real
}

/// Whether `pi` is a stationary distribution of the kernel: a step leaves
/// it as it is, its entries add up to one, and none is negative.
pub open spec fn is_stationary(w: Seq<Seq<int>>, t: Seq<int>, pi: Seq<real>) -> bool {
    &&& is_invariant(w, t, pi)
    &&& forall|j: int| 0 <= j < t.len() ==> (#[trigger] pi[j]) >= 0 as real
}

/// Whether `pi` is a stationary distribution of the kernel and no other
/// vector, of entries of either sign that add up to one, is left as it is
/// by a step.
pub open spec fn is_unique_stationary(w: Seq<Seq<int>>, t: Seq<int>, pi: Seq<real>) -> bool {
    &&& is_stationary(w, t, pi)
    &&& forall|rho: Seq<real>| #[trigger] is_invariant(w, t, rho) ==> rho == pi
}

/// Whether the kernel has a unique stationary distribution.
pub open spec fn has_unique_stationary(w: Seq<Seq<int>>, t: Seq<int>) -> bool {
    exists|pi: Seq<real>| #[trigger] is_unique_stationary(w, t, pi)
}

/// An entry of the balance equations of a kernel.
pub open spec fn balance_entry(w: Seq<Seq<int>>, t: Seq<int>, j: int, i: int) -> int {
    if j < t.len() {
        if i < t.len() {
            w[i][j] - (if i == j {
                t[j]
            } else {
                0
            })
        } else {
            0
        }
    } else {
        if i < t.len() {
            t[i]
        } else {
            1
        }
    }
}

/// The balance equations of a kernel over `n` states, in the unknowns
/// `x[i] = pi[i] / t[i]`: for each state `j` the equation that the sum over
/// `i` of `w[i][j] x[i]` is `t[j] x[j]`, and at the end the equation that
/// the sum of `t[i] x[i]` is one.
pub open spec fn balance(w: Seq<Seq<int>>, t: Seq<int>) -> Seq<Seq<int>> {
    Seq::new(
        t.len() + 1,
        |j: int| Seq::new(t.len() + 1, |i: int| balance_entry(w, t, j, i)),
    )
}

/// The probabilities `t[i] x[i]` that belong to the unknowns `x`.
pub open spec fn scaled(t: Seq<int>, x: Seq<real>) -> Seq<real> {
    Seq::new(t.len(), |i: int| t[i] as real * x[i])
}

/// The unknowns `pi[i] / t[i]` that belong to the probabilities `pi`.
pub open spec fn unscaled(t: Seq<int>, pi: Seq<real>) -> Seq<real> {
    Seq::new(t.len(), |i: int| pi[i] / (t[i] as real))
}

/// Scaling and unscaling undo each other.
pub proof fn lemma_scaling(t: Seq<int>, v: Seq<real>)
    requires
        v.len() == t.len(),
        forall|i: int| 0 <= i < t.len() ==> (#[trigger] t[i]) > 0,
    ensures
        scaled(t, unscaled(t, v)) == v,
        unscaled(t, scaled(t, v)) == v,
{
    assert forall|i: int| 0 <= i < t.len() implies scaled(t, unscaled(t, v))[i] == v[i]
        && unscaled(t, scaled(t, v))[i] == v[i] by {
        lemma_real_div_cancel(t[i] as real, v[i]);
    }
    assert(scaled(t, unscaled(t, v)) =~= v);
    assert(unscaled(t, scaled(t, v)) =~= v);
}

/// The left-hand side of the balance equation of the state `j` is the
/// inflow into `j` less the probability of `j`.
pub proof fn lemma_balance_row(w: Seq<Seq<int>>, t: Seq<int>, x: Seq<real>, j: int, k: int)
    requires
        is_kernel(w, t),
        x.len() == t.len(),
        0 <= j < t.len(),
        0 <= k <= t.len(),
    ensures
        dot(balance(w, t)[j], x, k) == inflow(w, t, scaled(t, x), j, k) - (if j < k {
            t[j] as real * x[j]
        } else {
            0 as real
        }),
    decreases k,
{
    if k > 0 {
        lemma_balance_row(w, t, x, j, k - 1);
        let i = k - 1;
        let row = balance(w, t)[j];
        assert(row[i] == balance_entry(w, t, j, i));
        assert(w[i].len() == t.len());
        let wij = w[i][j];
        let ti = t[i];
        let xi = x[i];
        let tr = ti as real;
        let wr = wij as real;
        let q = quotient(wij, ti);
        assert(scaled(t, x)[i] == tr * xi);
        lemma_quotient_cancel(wij, ti);
        lemma_real_mul_comm(xi, q);
        lemma_real_mul_assoc(tr, xi, q);
        lemma_real_mul_assoc(tr, q, xi);
        assert((tr * xi) * q == wr * xi);
        if i == j {
            lemma_real_mul_diff(wr, t[j] as real, xi);
        }
    }
}

/// The left-hand side of the last balance equation is the sum of the
/// probabilities.
pub proof fn lemma_balance_mass(w: Seq<Seq<int>>, t: Seq<int>, x: Seq<real>, k: int)
    requires
        x.len() == t.len(),
        0 <= k <= t.len(),
    ensures
        dot(balance(w, t)[t.len() as int], x, k) == mass(scaled(t, x), k),
    decreases k,
{
    if k > 0 {
        lemma_balance_mass(w, t, x, k - 1);
        let row = balance(w, t)[t.len() as int];
        assert(row[k - 1] == balance_entry(w, t, t.len() as int, k - 1));
    }
}

/// The unknowns `x` solve the balance equations exactly when a step of the
/// kernel leaves the probabilities that belong to them as they are.
pub proof fn lemma_balance_solves(w: Seq<Seq<int>>, t: Seq<int>, x: Seq<real>)
    requires
        is_kernel(w, t),
        x.len() == t.len(),
    ensures
        well_shaped(balance(w, t), t.len()),
        solves(balance(w, t), x) == is_invariant(w, t, scaled(t, x)),
{
    let n = t.len() as int;
    let b = balance(w, t);
    let pi = scaled(t, x);
    assert forall|j: int| 0 <= j < n implies (satisfies(#[trigger] b[j], x) == (inflow(
        w,
        t,
        pi,
        j,
        n,
    ) == pi[j])) by {
        lemma_balance_row(w, t, x, j, n);
        assert(b[j][n] == balance_entry(w, t, j, n));
    }
    lemma_balance_mass(w, t, x, n);
    assert(b[n][n] == balance_entry(w, t, n, n));
    assert(satisfies(b[n], x) == (mass(pi, n) == 1 as real));
    if solves(b, x) {
        assert forall|j: int| 0 <= j < n implies inflow(w, t, pi, j, n) == #[trigger] pi[j] by {
            assert(satisfies(b[j], x));
        }
        assert(satisfies(b[n], x));
    }
    if is_invariant(w, t, pi) {
        assert forall|j: int| 0 <= j < b.len() implies satisfies(#[trigger] b[j], x) by {
            if j < n {
                assert(inflow(w, t, pi, j, n) == pi[j]);
            }
        }
    }
}

/// Where the balance equations have the one solution `x`, a step of the
/// kernel leaves the probabilities that belong to `x` as they are, and no
/// other vector whose entries add up to one.
pub proof fn lemma_unique_invariant(w: Seq<Seq<int>>, t: Seq<int>, x: Seq<real>)
    requires
        is_kernel(w, t),
        is_unique_solution(balance(w, t), t.len(), x),
    ensures
        is_invariant(w, t, scaled(t, x)),
        forall|rho: Seq<real>| #[trigger] is_invariant(w, t, rho) ==> rho == scaled(t, x),
{
    lemma_balance_solves(w, t, x);
    assert forall|rho: Seq<real>| #[trigger] is_invariant(w, t, rho) implies rho == scaled(
        t,
        x,
    ) by {
        let y = unscaled(t, rho);
        lemma_scaling(t, rho);
        lemma_balance_solves(w, t, y);
        assert(solves(balance(w, t), y));
        assert(y == x);
    }
}

/// A kernel with a unique stationary distribution has balance equations
/// with one solution.
pub proof fn lemma_stationary_solves(w: Seq<Seq<int>>, t: Seq<int>)
    requires
        is_kernel(w, t),
        has_unique_stationary(w, t),
    ensures
        has_unique_solution(balance(w, t), t.len()),
{
    let pi = choose|pi: Seq<real>| #[trigger] is_unique_stationary(w, t, pi);
    let x = unscaled(t, pi);
    lemma_scaling(t, pi);
    lemma_balance_solves(w, t, x);
    assert forall|y: Seq<real>| y.len() == t.len() && #[trigger] solves(
        balance(w, t),
        y,
    ) implies y == x by {
        lemma_balance_solves(w, t, y);
        assert(is_invariant(w, t, scaled(t, y)));
        lemma_scaling(t, y);
    }
    assert(is_unique_solution(balance(w, t), t.len(), x));
}

/// Why no stationary distribution is returned.
#[derive(Clone, Copy, Debug, PartialEq, Eq)]
pub enum StationaryError {
    /// The kernel has no stationary distribution, or a step leaves more
    /// than one vector as it is.
    NoUniqueStationaryDistribution,
    /// A value on the way exceeded the range of the machine integers.
    Overflow,
}

/// Rows of weights as a matrix of integers.
pub open spec fn weights_view(weights: Seq<Vec<u64>>) -> Seq<Seq<int>> {
    Seq::new(weights.len(), |i: int| Seq::new(weights[i]@.len(), |j: int| weights[i]@[j] as int))
}

/// Denominators as integers.
pub open spec fn denominators_view(denominators: Seq<u64>) -> Seq<int> {
    Seq::new(denominators.len(), |i: int| denominators[i] as int)
}

/// The probabilities `weights[i] / denominator`.
pub open spec fn probabilities(weights: Seq<u64>, denominator: u64) -> Seq<real> {
    Seq::new(weights.len(), |i: int| quotient(weights[i] as int, denominator as int))
}

/// The number `b g^k`.
pub open spec fn geometric(b: nat, g: nat, k: nat) -> nat
    decreases k,
{
    if k == 0 {
        b
    } else {
        g * geometric(b, g, (k - 1) as nat)
    }
}

/// Whether `b` bounds the entries of the balance equations of the kernel
/// and is small enough for every value on the way to the stationary
/// distribution to stay in the range of the machine integers.
pub open spec fn solvable_with(w: Seq<Seq<int>>, t: Seq<int>, b: nat) -> bool {
    &&& bounded(balance(w, t), b)
    &&& growth(b, t.len()) <= i128::MAX
    &&& geometric(b, growth(b, t.len()), t.len()) <= u64::MAX
}

/// Whether the weights and denominators of the kernel are small enough
/// for its stationary distribution to be found in machine integers,
/// whatever they are.
pub open spec fn exactly_solvable(w: Seq<Seq<int>>, t: Seq<int>) -> bool {
    exists|b: nat| #[trigger] solvable_with(w, t, b)
}

/// `b g^k` is `b` times `g^k`, and does not shrink as `k` grows where `g`
/// is not zero.
pub proof fn lemma_geometric(b: nat, g: nat, k: nat)
    requires
        g >= 1,
    ensures
        geometric(b, g, k) == b * geometric(1, g, k),
        geometric(b, g, k + 1) == g * geometric(b, g, k),
        geometric(b, g, k) <= geometric(b, g, k + 1),
        geometric(1, g, k) >= 1,
    decreases k,
{
    if k > 0 {
        lemma_geometric(b, g, (k - 1) as nat);
        let e = geometric(1, g, (k - 1) as nat);
        let h = geometric(b, g, (k - 1) as nat);
        assert(h == b * e);
        assert(geometric(b, g, k) == g * h);
        assert(geometric(1, g, k) == g * e);
        let m = geometric(1, g, k);
        assert(g * h == b * m) by (nonlinear_arith)
            requires
                h == b * e,
                m == g * e,
        ;
        vstd::arithmetic::mul::lemma_mul_strictly_positive(g as int, e as int);
    } else {
        let one = geometric(1, g, 0);
        assert(b * one == b) by (nonlinear_arith)
            requires
                one == 1,
        ;
    }
    let h = geometric(b, g, k);
    vstd::arithmetic::mul::lemma_mul_inequality(1, g as int, h as int);
    vstd::arithmetic::mul::lemma_mul_is_commutative(g as int, h as int);
}

/// `b g^k` does not shrink as `k` grows where `g` is not zero.
pub proof fn lemma_geometric_monotonic(b: nat, g: nat, i: nat, j: nat)
    requires
        g >= 1,
        i <= j,
    ensures
        geometric(b, g, i) <= geometric(b, g, j),
    decreases j,
{
    if i < j {
        lemma_geometric_monotonic(b, g, i, (j - 1) as nat);
        lemma_geometric(b, g, (j - 1) as nat);
    }
}

/// The balance equations of a kernel, as rows of machine integers.
pub fn balance_equations(weights: &Vec<Vec<u64>>, denominators: &Vec<u64>) -> (rows: Vec<
    Vec<i128>,
>)
    requires
        is_kernel(weights_view(weights@), denominators_view(denominators@)),
    ensures
        system_view(rows@) == balance(weights_view(weights@), denominators_view(denominators@)),
{
    let ghost w = weights_view(weights@);
    let ghost t = denominators_view(denominators@);
    let n = denominators.len();
    let mut rows: Vec<Vec<i128>> = Vec::new();
    let mut j: usize = 0;
    while j < n
        invariant
            w == weights_view(weights@),
            t == denominators_view(denominators@),
            is_kernel(w, t),
            n == denominators.len(),
            j <= n,
            rows.len() == j,
            forall|a: int| 0 <= a < j ==> row_view(#[trigger] rows[a]@) == balance(w, t)[a],
        decreases n - j,
    {
        let mut row: Vec<i128> = Vec::new();
        let mut i: usize = 0;
        while i < n
            invariant
                w == weights_view(weights@),
                t == denominators_view(denominators@),
                is_kernel(w, t),
                n == denominators.len(),
                j < n,
                i <= n,
                row.len() == i,
                forall|a: int| 0 <= a < i ==> #[trigger] row[a] == balance_entry(w, t, j as int, a),
            decreases n - i,
        {
            assert(w[i as int].len() == n);
            assert(w[i as int][j as int] == weights[i as int][j as int]);
            assert(t[j as int] == denominators[j as int]);
            let weight = weights[i][j] as i128;
            let entry = if i == j {
                weight - denominators[j] as i128
            } else {
                weight
            };
            row.push(entry);
            i += 1;
        }
        row.push(0);
        assert(row_view(row@) =~= balance(w, t)[j as int]);
        rows.push(row);
        j += 1;
    }
    let mut last: Vec<i128> = Vec::new();
    let mut i: usize = 0;
    while i < n
        invariant
            t == denominators_view(denominators@),
            n == denominators.len(),
            i <= n,
            last.len() == i,
            forall|a: int| 0 <= a < i ==> #[trigger] last[a] == t[a],
        decreases n - i,
    {
        last.push(denominators[i] as i128);
        i += 1;
    }
    last.push(1);
    assert(row_view(last@) =~= balance(w, t)[n as int]);
    rows.push(last);
    assert(system_view(rows@) =~= balance(w, t));
    rows
}

/// Whether `num / den`, of a numerator that is not negative and a
/// positive denominator, is the probability `t x` that belongs to the
/// unknown `x` of a state with the denominator `t`.
pub open spec fn gives_probability(num: i128, den: i128, t: u64, x: Fraction) -> bool {
    &&& num >= 0
    &&& den > 0
    &&& quotient(num as int, den as int) == t as real * x.value()
}

/// The probability `denominators[i] x[i]` of each state as a fraction of
/// a numerator that is not negative and a positive denominator, where
/// none of them is negative.
fn state_probabilities(
    x: &Vec<Fraction>,
    denominators: &Vec<u64>,
    Ghost(fits): Ghost<bool>,
    Ghost(b): Ghost<nat>,
    Ghost(g): Ghost<nat>,
) -> (r: Result<(Vec<i128>, Vec<i128>), StationaryError>)
    requires
        x.len() == denominators.len(),
        forall|i: int| 0 <= i < x.len() ==> (#[trigger] x[i]).den != 0,
        fits ==> fractions_bounded(x@, g) && g <= i128::MAX && b * g <= i128::MAX,
        fits ==> forall|i: int| 0 <= i < denominators.len() ==> (#[trigger] denominators[i]) <= b,
    ensures
        match r {
            Ok((nums, dens)) => {
                &&& nums.len() == x.len()
                &&& dens.len() == x.len()
                &&& forall|i: int|
                    0 <= i < x.len() ==> #[trigger] gives_probability(
                        nums[i],
                        dens[i],
                        denominators[i],
                        x[i],
                    )
                &&& fits ==> forall|i: int|
                    0 <= i < x.len() ==> (#[trigger] nums[i]) <= b * g && dens[i] <= g
            },
            Err(StationaryError::NoUniqueStationaryDistribution) => exists|i: int|
                0 <= i < x.len() && denominators[i] as real * (#[trigger] x[i]).value()
                    < 0 as real,
            Err(StationaryError::Overflow) => !fits,
        },
{
    let mut nums: Vec<i128> = Vec::new();
    let mut dens: Vec<i128> = Vec::new();
    let mut i: usize = 0;
    while i < x.len()
        invariant
            x.len() == denominators.len(),
            forall|k: int| 0 <= k < x.len() ==> (#[trigger] x[k]).den != 0,
            fits ==> fractions_bounded(x@, g) && g <= i128::MAX && b * g <= i128::MAX,
            fits ==> forall|k: int|
                0 <= k < denominators.len() ==> (#[trigger] denominators[k]) <= b,
            i <= x.len(),
            nums.len() == i,
            dens.len() == i,
            forall|k: int|
                0 <= k < i ==> #[trigger] gives_probability(
                    nums[k],
                    dens[k],
                    denominators[k],
                    x[k],
                ),
            fits ==> forall|k: int| 0 <= k < i ==> (#[trigger] nums[k]) <= b * g && dens[k] <= g,
        decreases x.len() - i,
    {
        let num = x[i].num;
        let den = x[i].den;
        let t = denominators[i];
        assert(fits ==> -g <= x[i as int].num <= g && -g <= x[i as int].den <= g);
        assert(fits ==> denominators[i as int] <= b);
        let (num1, den1) = if den < 0 {
            let flipped_num = match 0i128.checked_sub(num) {
                Some(v) => v,
                None => {
                    return Err(StationaryError::Overflow);
                },
            };
            let flipped_den = match 0i128.checked_sub(den) {
                Some(v) => v,
                None => {
                    return Err(StationaryError::Overflow);
                },
            };
            proof {
                lemma_quotient_negate(num as int, den as int);
            }
            (flipped_num, flipped_den)
        } else {
            (num, den)
        };
        assert(den1 > 0);
        assert(quotient(num1 as int, den1 as int) == x[i as int].value());
        proof {
            if fits {
                lemma_scaled_bound(t as int, b, num1 as int, g);
            }
        }
        let scaled_num = match (t as i128).checked_mul(num1) {
            Some(v) => v,
            None => {
                return Err(StationaryError::Overflow);
            },
        };
        proof {
            lemma_quotient_times(num1 as int, den1 as int, t as int);
            vstd::arithmetic::mul::lemma_mul_is_commutative(num1 as int, t as int);
            lemma_real_mul_comm(quotient(num1 as int, den1 as int), t as real);
            lemma_quotient_sign(scaled_num as int, den1 as int);
        }
        assert(scaled_num == t * num1);
        assert(quotient(scaled_num as int, den1 as int) == t as real * x[i as int].value());
        assert(fits ==> scaled_num <= b * g && den1 <= g);
        if scaled_num < 0 {
            assert(denominators[i as int] as real * x[i as int].value() < 0 as real);
            return Err(StationaryError::NoUniqueStationaryDistribution);
        }
        assert(gives_probability(scaled_num, den1, t, x[i as int]));
        nums.push(scaled_num);
        dens.push(den1);
        i += 1;
    }
    Ok((nums, dens))
}

/// Brings fractions to a common denominator: the product of their
/// denominators.
fn common_denominator(
    nums: &Vec<i128>,
    dens: &Vec<i128>,
    Ghost(fits): Ghost<bool>,
    Ghost(b): Ghost<nat>,
    Ghost(g): Ghost<nat>,
) -> (r: Option<(Vec<i128>, i128)>)
    requires
        nums.len() == dens.len(),
        forall|i: int| 0 <= i < nums.len() ==> (#[trigger] nums[i]) >= 0 && dens[i] > 0,
        fits ==> b >= 1 && g >= 1 && geometric(b, g, nums.len() as nat) <= i128::MAX,
        fits ==> forall|i: int| 0 <= i < nums.len() ==> (#[trigger] nums[i]) <= b * g && dens[i] <= g,
    ensures
        match r {
            Some((a, d)) => {
                &&& a.len() == nums.len()
                &&& d > 0
                &&& forall|i: int|
                    0 <= i < nums.len() ==> (#[trigger] a[i]) >= 0 && quotient(
                        a[i] as int,
                        d as int,
                    ) == quotient(nums[i] as int, dens[i] as int)
                &&& fits ==> d <= geometric(b, g, nums.len() as nat)
                &&& fits ==> forall|i: int|
                    0 <= i < nums.len() ==> (#[trigger] a[i]) <= geometric(b, g, nums.len() as nat)
            },
            None => !fits,
        },
{
    let n = nums.len();
    let mut a: Vec<i128> = Vec::new();
    let mut d: i128 = 1;
    let mut i: usize = 0;
    while i < n
        invariant
            n == nums.len(),
            nums.len() == dens.len(),
            forall|k: int| 0 <= k < nums.len() ==> (#[trigger] nums[k]) >= 0 && dens[k] > 0,
            fits ==> b >= 1 && g >= 1 && geometric(b, g, n as nat) <= i128::MAX,
            fits ==> forall|k: int|
                0 <= k < nums.len() ==> (#[trigger] nums[k]) <= b * g && dens[k] <= g,
            i <= n,
            a.len() == i,
            d > 0,
            forall|k: int|
                0 <= k < i ==> (#[trigger] a[k]) >= 0 && quotient(a[k] as int, d as int)
                    == quotient(nums[k] as int, dens[k] as int),
            fits ==> d <= geometric(1, g, i as nat),
            fits ==> forall|k: int| 0 <= k < i ==> (#[trigger] a[k]) <= geometric(b, g, i as nat),
        decreases n - i,
    {
        let di = dens[i];
        let ghost before = a@;
        let ghost cap = geometric(b, g, i as nat);
        proof {
            assert(nums[i as int] >= 0 && dens[i as int] > 0);
            if fits {
                lemma_geometric(b, g, i as nat);
                lemma_geometric(1, g, i as nat);
                lemma_geometric_monotonic(b, g, (i + 1) as nat, n as nat);
                assert(dens[i as int] <= g);
                assert(nums[i as int] <= b * g);
            }
        }
        let mut j: usize = 0;
        while j < i
            invariant
                j <= i,
                a.len() == i,
                before.len() == i,
                di > 0,
                forall|k: int| 0 <= k < j ==> #[trigger] a[k] == before[k] * di,
                forall|k: int| j <= k < i ==> #[trigger] a[k] == before[k],
                forall|k: int| 0 <= k < i ==> (#[trigger] before[k]) >= 0,
                fits ==> di <= g && g * cap <= i128::MAX,
                fits ==> forall|k: int| 0 <= k < i ==> (#[trigger] before[k]) <= cap,
            decreases i - j,
        {
            proof {
                if fits {
                    assert(before[j as int] <= cap);
                    vstd::arithmetic::mul::lemma_mul_upper_bound(
                        before[j as int] as int,
                        cap as int,
                        di as int,
                        g as int,
                    );
                    vstd::arithmetic::mul::lemma_mul_is_commutative(g as int, cap as int);
                }
                assert(before[j as int] >= 0);
                vstd::arithmetic::mul::lemma_mul_nonnegative(before[j as int] as int, di as int);
            }
            let product = match a[j].checked_mul(di) {
                Some(v) => v,
                None => {
                    return None;
                },
            };
            a.set(j, product);
            j += 1;
        }
        proof {
            if fits {
                assert forall|k: int| 0 <= k < i implies (#[trigger] a[k]) <= g * cap by {
                    assert(before[k] >= 0 && before[k] <= cap);
                    vstd::arithmetic::mul::lemma_mul_upper_bound(
                        before[k] as int,
                        cap as int,
                        di as int,
                        g as int,
                    );
                    vstd::arithmetic::mul::lemma_mul_is_commutative(g as int, cap as int);
                }
                // nums[i] d <= (b g) g^i = b g^(i + 1)
                let e = geometric(1, g, i as nat);
                vstd::arithmetic::mul::lemma_mul_upper_bound(
                    nums[i as int] as int,
                    (b * g) as int,
                    d as int,
                    e as int,
                );
                vstd::arithmetic::mul::lemma_mul_is_associative(b as int, g as int, e as int);
                lemma_geometric(b, g, (i + 1) as nat);
                lemma_geometric(1, g, (i + 1) as nat);
                assert(geometric(1, g, (i + 1) as nat) == g * e);
                assert(geometric(b, g, (i + 1) as nat) == b * (g * e));
                // d dens[i] <= g^i g <= b g^(i + 1)
                vstd::arithmetic::mul::lemma_mul_upper_bound(
                    d as int,
                    e as int,
                    di as int,
                    g as int,
                );
                vstd::arithmetic::mul::lemma_mul_is_commutative(e as int, g as int);
                vstd::arithmetic::mul::lemma_mul_inequality(1, b as int, (g * e) as int);
                vstd::arithmetic::mul::lemma_mul_is_commutative(b as int, (g * e) as int);
            }
            vstd::arithmetic::mul::lemma_mul_nonnegative(nums[i as int] as int, d as int);
            vstd::arithmetic::mul::lemma_mul_strictly_positive(d as int, di as int);
        }
        let fresh = match nums[i].checked_mul(d) {
            Some(v) => v,
            None => {
                return None;
            },
        };
        let next = match d.checked_mul(di) {
            Some(v) => v,
            None => {
                return None;
            },
        };
        proof {
            assert forall|k: int| 0 <= k < i implies quotient(a[k] as int, next as int)
                == quotient(nums[k] as int, dens[k] as int) by {
                lemma_quotient_scale(before[k] as int, d as int, di as int);
            }
            lemma_quotient_scale(nums[i as int] as int, di as int, d as int);
            vstd::arithmetic::mul::lemma_mul_is_commutative(di as int, d as int);
        }
        a.push(fresh);
        d = next;
        i += 1;
    }
    proof {
        if fits {
            lemma_geometric(b, g, n as nat);
            vstd::arithmetic::mul::lemma_mul_inequality(
                1,
                b as int,
                geometric(1, g, n as nat) as int,
            );
        }
    }
    Some((a, d))
}

/// The weights as `u64`, where each of them fits.
fn narrow(a: &Vec<i128>, Ghost(fits): Ghost<bool>, Ghost(cap): Ghost<nat>) -> (r: Option<Vec<u64>>)
    requires
        forall|i: int| 0 <= i < a.len() ==> (#[trigger] a[i]) >= 0,
        fits ==> cap <= u64::MAX,
        fits ==> forall|i: int| 0 <= i < a.len() ==> (#[trigger] a[i]) <= cap,
    ensures
        match r {
            Some(w) => w.len() == a.len() && forall|i: int|
                0 <= i < a.len() ==> (#[trigger] w[i]) == a[i],
            None => !fits,
        },
{
    let mut w: Vec<u64> = Vec::new();
    let mut i: usize = 0;
    while i < a.len()
        invariant
            forall|k: int| 0 <= k < a.len() ==> (#[trigger] a[k]) >= 0,
            fits ==> cap <= u64::MAX,
            fits ==> forall|k: int| 0 <= k < a.len() ==> (#[trigger] a[k]) <= cap,
            i <= a.len(),
            w.len() == i,
            forall|k: int| 0 <= k < i ==> (#[trigger] w[k]) == a[k],
        decreases a.len() - i,
    {
        let v = a[i];
        assert(a[i as int] >= 0);
        if v > 0xffff_ffff_ffff_ffff {
            assert(fits ==> a[i as int] <= cap);
            return None;
        }
        w.push(v as u64);
        i += 1;
    }
    Some(w)
}

/// Weights whose probabilities are `pi` add up, over the denominator, to
/// the sum of `pi`.
pub proof fn lemma_total_mass(a: Seq<u64>, d: u64, pi: Seq<real>, k: int)
    requires
        d > 0,
        pi.len() == a.len(),
        forall|i: int| 0 <= i < a.len() ==> quotient(a[i] as int, d as int) == #[trigger] pi[i],
        0 <= k <= a.len(),
    ensures
        quotient(total(a.take(k)) as int, d as int) == mass(pi, k),
    decreases k,
{
    if k == 0 {
        lemma_quotient_zero_one(d as int);
    } else {
        lemma_total_mass(a, d, pi, k - 1);
        lemma_total_step(a, k - 1);
        lemma_quotient_sum(total(a.take(k - 1)) as int, a[k - 1] as int, d as int);
        assert(quotient(a[k - 1] as int, d as int) == pi[k - 1]);
    }
}

/// What a bound with which a kernel is solvable implies for the values
/// on the way.
pub proof fn lemma_solvable(w: Seq<Seq<int>>, t: Seq<int>, b: nat)
    requires
        t.len() >= 1,
        solvable_with(w, t, b),
    ensures
        b >= 1,
        growth(b, t.len()) >= 1,
        b * growth(b, t.len()) <= geometric(b, growth(b, t.len()), t.len()),
        forall|i: int| 0 <= i < t.len() ==> (#[trigger] t[i]) <= b,
{
    let n = t.len();
    let g = growth(b, n);
    let s = balance(w, t);
    assert(s[n as int][n as int] == balance_entry(w, t, n as int, n as int));
    lemma_growth_step(b, 0);
    lemma_growth_monotonic(b, 0, n);
    assert forall|i: int| 0 <= i < t.len() implies (#[trigger] t[i]) <= b by {
        assert(s[n as int][i] == balance_entry(w, t, n as int, i));
    }
    lemma_geometric(b, g, 0);
    lemma_geometric_monotonic(b, g, 1, n);
    vstd::arithmetic::mul::lemma_mul_is_commutative(b as int, g as int);
    assert(geometric(b, g, 1) == g * geometric(b, g, 0));
}

/// A kernel over no state has no stationary distribution.
pub proof fn lemma_no_states(w: Seq<Seq<int>>, t: Seq<int>)
    requires
        t.len() == 0,
    ensures
        !has_unique_stationary(w, t),
{
    if has_unique_stationary(w, t) {
        let pi = choose|pi: Seq<real>| #[trigger] is_unique_stationary(w, t, pi);
        assert(mass(pi, 0) == 0 as real);
    }
}

/// The stationary distribution of the kernel with the given weights and
/// denominators: `weights[i][j] / denominators[i]` is the probability of
/// the step from the state `i` to the state `j`. The distribution comes
/// as weights that add up to their common denominator.
///
/// The balance equations of the kernel are solved exactly. The kernel has
/// a unique stationary distribution where they have one solution and no
/// entry of it is negative.
pub fn stationary_weights(weights: &Vec<Vec<u64>>, denominators: &Vec<u64>) -> (r: Result<
    (Vec<u64>, u64),
    StationaryError,
>)
    requires
        is_kernel(weights_view(weights@), denominators_view(denominators@)),
    ensures
        match r {
            Ok((a, d)) => {
                &&& a.len() == denominators.len()
                &&& d > 0
                &&& total(a@) == d
                &&& is_unique_stationary(
                    weights_view(weights@),
                    denominators_view(denominators@),
                    probabilities(a@, d),
                )
            },
            Err(StationaryError::NoUniqueStationaryDistribution) => !has_unique_stationary(
                weights_view(weights@),
                denominators_view(denominators@),
            ),
            Err(StationaryError::Overflow) => !exactly_solvable(
                weights_view(weights@),
                denominators_view(denominators@),
            ),
        },
{
    let ghost w = weights_view(weights@);
    let ghost t = denominators_view(denominators@);
    let n = denominators.len();
    if n == 0 {
        proof {
            lemma_no_states(w, t);
        }
        return Err(StationaryError::NoUniqueStationaryDistribution);
    }
    let ghost fits = exactly_solvable(w, t);
    let ghost b = choose|b: nat| #[trigger] solvable_with(w, t, b);
    let ghost g = growth(b, n as nat);
    let rows = balance_equations(weights, denominators);
    proof {
        lemma_balance_solves(w, t, Seq::new(n as nat, |i: int| 0 as real));
        if fits {
            lemma_solvable(w, t, b);
        }
    }
    let x = match solve_within(rows, n, Ghost(b)) {
        Solution::Overflow => {
            return Err(StationaryError::Overflow);
        },
        Solution::NotUnique => {
            proof {
                if has_unique_stationary(w, t) {
                    lemma_stationary_solves(w, t);
                }
            }
            return Err(StationaryError::NoUniqueStationaryDistribution);
        },
        Solution::Unique(x) => x,
    };
    let ghost xs = fraction_values(x@);
    let ghost pi = scaled(t, xs);
    proof {
        lemma_unique_invariant(w, t, xs);
        assert forall|i: int| 0 <= i < n implies pi[i] == denominators[i] as real * (#[trigger] x[i]).value() by {}
        if fits {
            assert forall|i: int| 0 <= i < denominators.len() implies (
            #[trigger] denominators[i]) <= b by {
                assert(t[i] <= b);
            }
        }
    }
    let (nums, dens) = match state_probabilities(&x, denominators, Ghost(fits), Ghost(b), Ghost(g)) {
        Err(e) => {
            proof {
                if e == StationaryError::NoUniqueStationaryDistribution && has_unique_stationary(
                    w,
                    t,
                ) {
                    let rho = choose|rho: Seq<real>| #[trigger] is_unique_stationary(w, t, rho);
                    assert(is_invariant(w, t, rho));
                    assert(rho == pi);
                    let i = choose|i: int|
                        0 <= i < x.len() && denominators[i] as real * (#[trigger] x[i]).value()
                            < 0 as real;
                    assert(rho[i] >= 0 as real);
                }
            }
            return Err(e);
        },
        Ok(pair) => pair,
    };
    proof {
        assert forall|i: int| 0 <= i < nums.len() implies (#[trigger] nums[i]) >= 0 && dens[i]
            > 0 by {
            assert(gives_probability(nums[i], dens[i], denominators[i], x[i]));
        }
    }
    let (a, d) = match common_denominator(&nums, &dens, Ghost(fits), Ghost(b), Ghost(g)) {
        None => {
            return Err(StationaryError::Overflow);
        },
        Some(pair) => pair,
    };
    let ghost cap = geometric(b, g, n as nat);
    let narrowed = match narrow(&a, Ghost(fits), Ghost(cap)) {
        None => {
            return Err(StationaryError::Overflow);
        },
        Some(narrowed) => narrowed,
    };
    if d > 0xffff_ffff_ffff_ffff {
        return Err(StationaryError::Overflow);
    }
    let denominator = d as u64;
    proof {
        let p = probabilities(narrowed@, denominator);
        assert forall|i: int| 0 <= i < n implies p[i] == pi[i] && p[i] >= 0 as real by {
            assert(gives_probability(nums[i], dens[i], denominators[i], x[i]));
            assert(quotient(a[i] as int, d as int) == quotient(nums[i] as int, dens[i] as int));
            assert(narrowed[i] == a[i]);
            lemma_quotient_sign(a[i] as int, d as int);
        }
        assert(p =~= pi);
        lemma_total_mass(narrowed@, denominator, pi, n as int);
        assert(narrowed@.take(n as int) == narrowed@);
        lemma_quotient_cancel(total(narrowed@) as int, denominator as int);
    }
    Ok((narrowed, denominator))
}

} // verus!
