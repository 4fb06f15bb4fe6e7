//! Exact solution of systems of linear equations with integer
//! coefficients, by elimination without division.
use crate::ratio::{
    lemma_product_as_real, lemma_product_bound, lemma_quotient_cancel, lemma_quotient_unique,
    lemma_real_mul_assoc, lemma_real_mul_diff, lemma_real_mul_neg, lemma_real_mul_sum,
    lemma_real_mul_zero, quotient,
};
use vstd::prelude::*;

verus! {

/// The sum of the first `k` products of a coefficient and the value of its
/// unknown.
pub open spec fn dot(coeffs: Seq<int>, x: Seq<real>, k: int) -> real
    decreases k,
{
    if k <= 0 {
        0 as real
    } else {
        dot(coeffs, x, k - 1) + coeffs[k - 1] as real * x[k - 1]
    }
}

/// Whether `x` satisfies the equation `row`: a row holds the coefficients
/// of the unknowns and then the right-hand side.
pub open spec fn satisfies(row: Seq<int>, x: Seq<real>) -> bool {
    dot(row, x, x.len() as int) == row[x.len() as int] as real
}

/// Whether `x` satisfies every equation of `system`.
pub open spec fn solves(system: Seq<Seq<int>>, x: Seq<real>) -> bool {
    forall|i: int| 0 <= i < system.len() ==> satisfies(#[trigger] system[i], x)
}

/// Whether `x` is a solution of `system` in `n` unknowns, and the only one.
pub open spec fn is_unique_solution(system: Seq<Seq<int>>, n: nat, x: Seq<real>) -> bool {
    &&& x.len() == n
    &&& solves(system, x)
    &&& forall|y: Seq<real>| y.len() == n && #[trigger] solves(system, y) ==> y == x
}

/// Whether `system` has exactly one solution in `n` unknowns.
pub open spec fn has_unique_solution(system: Seq<Seq<int>>, n: nat) -> bool {
    exists|x: Seq<real>| #[trigger] is_unique_solution(system, n, x)
}

/// Whether every row of `system` holds `n` coefficients and a right-hand
/// side.
pub open spec fn well_shaped(system: Seq<Seq<int>>, n: nat) -> bool {
    forall|i: int| 0 <= i < system.len() ==> (#[trigger] system[i]).len() == n + 1
}

/// Whether two systems have the same solutions in `n` unknowns.
pub open spec fn equivalent(s: Seq<Seq<int>>, t: Seq<Seq<int>>, n: nat) -> bool {
    forall|x: Seq<real>| x.len() == n ==> (#[trigger] solves(s, x) <==> #[trigger] solves(t, x))
}

/// Whether each of the first `c` columns is zero but for a pivot on the
/// diagonal.
pub open spec fn pivoted(s: Seq<Seq<int>>, c: int) -> bool {
    forall|i: int, j: int|
        0 <= i < s.len() && 0 <= j < c ==> ((#[trigger] s[i][j]) != 0 <==> i == j)
}

/// Whether no entry of `s` exceeds `g` in magnitude.
pub open spec fn bounded(s: Seq<Seq<int>>, g: nat) -> bool {
    forall|i: int, j: int|
        0 <= i < s.len() && 0 <= j < s[i].len() ==> -g <= (#[trigger] s[i][j]) <= g
}

/// A bound on the magnitude of the entries after `k` columns have been
/// eliminated, where `b` bounds them at the beginning: eliminating a
/// column replaces an entry by a difference of two products of entries.
pub open spec fn growth(b: nat, k: nat) -> nat
    decreases k,
{
    if k == 0 {
        b
    } else {
        2 * growth(b, (k - 1) as nat) * growth(b, (k - 1) as nat)
    }
}

/// Whether the entries of `system` are small enough for `n` columns to be
/// eliminated in `i128` arithmetic, whatever the entries are.
pub open spec fn within_range(system: Seq<Seq<int>>, n: nat) -> bool {
    exists|b: nat| #[trigger] bounded(system, b) && growth(b, n) <= i128::MAX
}

/// The row `u` after the column `c` has been eliminated from it with the
/// row `v`: `u` itself where its entry in the column is zero already.
pub open spec fn reduced(u: Seq<int>, v: Seq<int>, c: int) -> Seq<int> {
    if u[c] == 0 {
        u
    } else {
        Seq::new(u.len(), |j: int| v[c] * u[j] - u[c] * v[j])
    }
}

/// The system after the column `c` has been eliminated from every row but
/// the row `c`.
pub open spec fn step(s: Seq<Seq<int>>, c: int) -> Seq<Seq<int>> {
    Seq::new(
        s.len(),
        |i: int|
            if i == c {
                s[c]
            } else {
                reduced(s[i], s[c], c)
            },
    )
}

/// The system with the rows `c` and `r` exchanged.
pub open spec fn swapped(s: Seq<Seq<int>>, c: int, r: int) -> Seq<Seq<int>> {
    s.update(c, s[r]).update(r, s[c])
}

/// Whether a value lies in the range of `i128`.
pub open spec fn in_range(v: int) -> bool {
    i128::MIN <= v <= i128::MAX
}

/// Whether the column `c` can be eliminated from the row `u` with the row
/// `v` in `i128` arithmetic.
pub open spec fn reduction_fits(u: Seq<int>, v: Seq<int>, c: int) -> bool {
    forall|j: int|
        0 <= j < u.len() ==> in_range(v[c] * #[trigger] u[j]) && in_range(u[c] * v[j]) && in_range(
            v[c] * u[j] - u[c] * v[j],
        )
}

/// Whether the column `c` can be eliminated from every row in `i128`
/// arithmetic.
pub open spec fn step_fits(s: Seq<Seq<int>>, c: int) -> bool {
    forall|i: int|
        0 <= i < s.len() && i != c && (#[trigger] s[i])[c] != 0 ==> reduction_fits(s[i], s[c], c)
}

/// The dot product of a row `p u - f v` is the same combination of the dot
/// products of `u` and `v`.
pub proof fn lemma_dot_combination(
    u: Seq<int>,
    v: Seq<int>,
    w: Seq<int>,
    p: int,
    f: int,
    x: Seq<real>,
    k: int,
)
    requires
        forall|j: int| 0 <= j < k ==> #[trigger] w[j] == p * u[j] - f * v[j],
    ensures
        dot(w, x, k) == p as real * dot(u, x, k) - f as real * dot(v, x, k),
    decreases k,
{
    let pr = p as real;
    let fr = f as real;
    if k > 0 {
        lemma_dot_combination(u, v, w, p, f, x, k - 1);
        let a = u[k - 1];
        let b = v[k - 1];
        let z = x[k - 1];
        let ar = a as real;
        let br = b as real;
        let wr = w[k - 1] as real;
        lemma_product_as_real(p, a);
        lemma_product_as_real(f, b);
        assert(w[k - 1] == p * a - f * b);
        assert(wr == pr * ar - fr * br);
        // wr z = pr (ar z) - fr (br z)
        lemma_real_mul_diff(pr * ar, fr * br, z);
        lemma_real_mul_assoc(pr, ar, z);
        lemma_real_mul_assoc(fr, br, z);
        assert(wr * z == pr * (ar * z) - fr * (br * z));
        // pr du = pr du1 + pr (ar z), and the same for fr dv
        let du1 = dot(u, x, k - 1);
        let dv1 = dot(v, x, k - 1);
        lemma_real_mul_sum(pr, du1, ar * z);
        lemma_real_mul_sum(fr, dv1, br * z);
        assert(dot(u, x, k) == du1 + ar * z);
        assert(dot(v, x, k) == dv1 + br * z);
        assert(pr * dot(u, x, k) == pr * du1 + pr * (ar * z));
        assert(fr * dot(v, x, k) == fr * dv1 + fr * (br * z));
    } else {
        lemma_real_mul_zero(pr, 0 as real);
        lemma_real_mul_zero(fr, 0 as real);
    }
}

/// The dot product of a row with a sum of two vectors is the sum of its
/// dot products with each.
pub proof fn lemma_dot_sum(row: Seq<int>, x: Seq<real>, y: Seq<real>, z: Seq<real>, k: int)
    requires
        forall|j: int| 0 <= j < k ==> #[trigger] z[j] == x[j] + y[j],
    ensures
        dot(row, z, k) == dot(row, x, k) + dot(row, y, k),
    decreases k,
{
    if k > 0 {
        lemma_dot_sum(row, x, y, z, k - 1);
        let a = row[k - 1] as real;
        let xv = x[k - 1];
        let yv = y[k - 1];
        assert(z[k - 1] == xv + yv);
        lemma_real_mul_sum(a, xv, yv);
    }
}

/// A dot product in which every product is zero but those at the
/// positions `p` and `q` is the sum of these two products.
pub proof fn lemma_dot_sparse(row: Seq<int>, x: Seq<real>, k: int, p: int, q: int)
    requires
        p != q,
        forall|j: int|
            0 <= j < k && j != p && j != q ==> #[trigger] row[j] == 0 || x[j] == 0 as real,
    ensures
        dot(row, x, k) == (if 0 <= p < k {
            row[p] as real * x[p]
        } else {
            0 as real
        }) + (if 0 <= q < k {
            row[q] as real * x[q]
        } else {
            0 as real
        }),
    decreases k,
{
    if k > 0 {
        lemma_dot_sparse(row, x, k - 1, p, q);
        let a = row[k - 1];
        let z = x[k - 1];
        if k - 1 != p && k - 1 != q {
            lemma_real_mul_zero(a as real, z);
        }
    }
}

/// Eliminating a column from a row with a row that `x` satisfies leaves
/// it an equation that `x` satisfies exactly when `x` satisfied the row.
pub proof fn lemma_reduced_satisfies(u: Seq<int>, v: Seq<int>, c: int, x: Seq<real>)
    requires
        u.len() == x.len() + 1,
        v.len() == x.len() + 1,
        v[c] != 0,
        satisfies(v, x),
    ensures
        satisfies(reduced(u, v, c), x) == satisfies(u, x),
{
    if u[c] != 0 {
        let n = x.len() as int;
        let w = reduced(u, v, c);
        let p = v[c];
        let f = u[c];
        lemma_dot_combination(u, v, w, p, f, x, n);
        let du = dot(u, x, n);
        let dv = dot(v, x, n);
        let pr = p as real;
        let fr = f as real;
        let ru = u[n] as real;
        let rv = v[n] as real;
        assert(w[n] == p * u[n] - f * v[n]);
        lemma_product_as_real(p, u[n]);
        lemma_product_as_real(f, v[n]);
        assert(w[n] as real == pr * ru - fr * rv);
        assert(dv == rv);
        lemma_real_mul_sum(pr, du, -ru);
        lemma_real_mul_neg(pr, ru);
        assert(pr * du - fr * dv == pr * (du + (-ru)) + (pr * ru - fr * rv));
        lemma_real_mul_zero(pr, du + (-ru));
    }
}

/// Eliminating a column leaves the solutions of a system as they are.
pub proof fn lemma_step_equivalent(s: Seq<Seq<int>>, c: int, n: nat)
    requires
        well_shaped(s, n),
        0 <= c < s.len(),
        s[c][c] != 0,
    ensures
        equivalent(s, step(s, c), n),
{
    let t = step(s, c);
    assert forall|x: Seq<real>| x.len() == n implies (#[trigger] solves(s, x) <==> #[trigger] solves(
        t,
        x,
    )) by {
        if solves(s, x) {
            assert(satisfies(s[c], x));
            assert forall|i: int| 0 <= i < t.len() implies satisfies(#[trigger] t[i], x) by {
                assert(satisfies(s[i], x));
                if i != c {
                    lemma_reduced_satisfies(s[i], s[c], c, x);
                }
            }
        }
        if solves(t, x) {
            assert(satisfies(t[c], x));
            assert forall|i: int| 0 <= i < s.len() implies satisfies(#[trigger] s[i], x) by {
                assert(satisfies(t[i], x));
                if i != c {
                    lemma_reduced_satisfies(s[i], s[c], c, x);
                }
            }
        }
    }
}

/// Eliminating the column `c` with a pivot on the diagonal extends the
/// pivoted columns by one.
pub proof fn lemma_step_pivoted(s: Seq<Seq<int>>, c: int, n: nat)
    requires
        well_shaped(s, n),
        0 <= c < s.len(),
        c < n,
        pivoted(s, c),
        s[c][c] != 0,
    ensures
        pivoted(step(s, c), c + 1),
{
    let t = step(s, c);
    assert forall|i: int, j: int| 0 <= i < t.len() && 0 <= j < c + 1 implies ((#[trigger] t[i][j])
        != 0 <==> i == j) by {
        let p = s[c][c];
        let f = s[i][c];
        let a = s[i][j];
        let b = s[c][j];
        if i != c && f != 0 {
            assert(t[i][j] == p * a - f * b);
            if j < c {
                assert(b == 0);
                vstd::arithmetic::mul::lemma_mul_nonzero(p, a);
                vstd::arithmetic::mul::lemma_mul_nonzero(f, b);
            } else {
                vstd::arithmetic::mul::lemma_mul_is_commutative(p, f);
            }
        } else {
            assert(t[i] == s[i]);
        }
    }
}

/// Eliminating a column lets the entries grow to twice the square of
/// their bound at most.
pub proof fn lemma_step_bounded(s: Seq<Seq<int>>, c: int, n: nat, g: nat)
    requires
        well_shaped(s, n),
        0 <= c < s.len(),
        c < n,
        bounded(s, g),
    ensures
        bounded(step(s, c), 2 * g * g),
        2 * g * g <= i128::MAX ==> step_fits(s, c),
{
    let t = step(s, c);
    assert(g <= 2 * g * g) by (nonlinear_arith);
    assert forall|i: int, j: int| 0 <= i < t.len() && 0 <= j < t[i].len() implies -(2 * g * g)
        <= (#[trigger] t[i][j]) <= 2 * g * g by {
        let p = s[c][c];
        let f = s[i][c];
        let a = s[i][j];
        let b = s[c][j];
        if i != c && f != 0 {
            assert(t[i][j] == p * a - f * b);
            lemma_product_bound(p, a, g);
            lemma_product_bound(f, b, g);
            assert(2 * g * g == g * g + g * g) by (nonlinear_arith);
        } else {
            assert(t[i] == s[i]);
            assert(-g <= s[i][j] <= g);
        }
    }
    if 2 * g * g <= i128::MAX {
        assert forall|i: int| 0 <= i < s.len() && i != c && (#[trigger] s[i])[c]
            != 0 implies reduction_fits(s[i], s[c], c) by {
            let u = s[i];
            let v = s[c];
            assert forall|j: int| 0 <= j < u.len() implies in_range(v[c] * #[trigger] u[j])
                && in_range(u[c] * v[j]) && in_range(v[c] * u[j] - u[c] * v[j]) by {
                let p = s[c][c];
                let f = s[i][c];
                let a = s[i][j];
                let b = s[c][j];
                lemma_product_bound(p, a, g);
                lemma_product_bound(f, b, g);
                assert(2 * g * g == g * g + g * g) by (nonlinear_arith);
            }
        }
    }
}

/// Exchanging two rows from the row `c` on leaves the solutions, the
/// pivoted columns and the bound of a system as they are.
pub proof fn lemma_swapped(s: Seq<Seq<int>>, c: int, r: int, n: nat, g: nat)
    requires
        0 <= c <= r < s.len(),
        well_shaped(s, n),
        pivoted(s, c),
    ensures
        well_shaped(swapped(s, c, r), n),
        equivalent(s, swapped(s, c, r), n),
        pivoted(swapped(s, c, r), c),
        bounded(s, g) ==> bounded(swapped(s, c, r), g),
{
    let t = swapped(s, c, r);
    assert forall|i: int| 0 <= i < t.len() implies (#[trigger] t[i]).len() == n + 1 by {
        if i == c {
            assert(t[i] == s[r]);
        } else if i == r {
            assert(t[i] == s[c]);
        } else {
            assert(t[i] == s[i]);
        }
    }
    assert forall|x: Seq<real>| x.len() == n implies (#[trigger] solves(s, x) <==> #[trigger] solves(
        t,
        x,
    )) by {
        if solves(s, x) {
            assert forall|i: int| 0 <= i < t.len() implies satisfies(#[trigger] t[i], x) by {
                assert(satisfies(s[c], x));
                assert(satisfies(s[r], x));
                assert(satisfies(s[i], x));
            }
        }
        if solves(t, x) {
            assert forall|i: int| 0 <= i < s.len() implies satisfies(#[trigger] s[i], x) by {
                assert(satisfies(t[c], x));
                assert(satisfies(t[r], x));
                assert(satisfies(t[i], x));
            }
        }
    }
    assert forall|i: int, j: int| 0 <= i < t.len() && 0 <= j < c implies ((#[trigger] t[i][j]) != 0
        <==> i == j) by {
        assert(s[c][j] == 0);
        assert(s[r][j] == 0);
        assert(s[i][j] != 0 <==> i == j);
    }
    if bounded(s, g) {
        assert forall|i: int, j: int| 0 <= i < t.len() && 0 <= j < t[i].len() implies -g <= (
        #[trigger] t[i][j]) <= g by {
            if i == c {
                assert(-g <= s[r][j] <= g);
            } else if i == r {
                assert(-g <= s[c][j] <= g);
            } else {
                assert(-g <= s[i][j] <= g);
            }
        }
    }
}

/// The bound before any column is eliminated is the bound on the
/// entries, and each eliminated column squares and doubles it.
pub proof fn lemma_growth_step(b: nat, k: nat)
    ensures
        growth(b, 0) == b,
        growth(b, k + 1) == 2 * growth(b, k) * growth(b, k),
{
}

/// The bound on the entries does not shrink as columns are eliminated.
pub proof fn lemma_growth_monotonic(b: nat, i: nat, j: nat)
    requires
        i <= j,
    ensures
        growth(b, i) <= growth(b, j),
    decreases j,
{
    if i < j {
        lemma_growth_monotonic(b, i, (j - 1) as nat);
        lemma_growth_step(b, (j - 1) as nat);
        let g = growth(b, (j - 1) as nat);
        assert(g <= 2 * g * g) by (nonlinear_arith);
    }
}

/// Two systems with the same solutions have a unique solution together
/// or not at all, and then the same.
pub proof fn lemma_equivalent_unique(s: Seq<Seq<int>>, t: Seq<Seq<int>>, n: nat)
    requires
        equivalent(s, t, n),
    ensures
        forall|x: Seq<real>| #[trigger] is_unique_solution(t, n, x) ==> is_unique_solution(s, n, x),
        has_unique_solution(s, n) == has_unique_solution(t, n),
{
    assert forall|x: Seq<real>| #[trigger] is_unique_solution(t, n, x) implies is_unique_solution(
        s,
        n,
        x,
    ) by {
        assert(solves(t, x));
        assert forall|y: Seq<real>| y.len() == n && #[trigger] solves(s, y) implies y == x by {
            assert(solves(t, y));
        }
    }
    assert forall|x: Seq<real>| #[trigger] is_unique_solution(s, n, x) implies is_unique_solution(
        t,
        n,
        x,
    ) by {
        assert(solves(s, x));
        assert forall|y: Seq<real>| y.len() == n && #[trigger] solves(t, y) implies y == x by {
            assert(solves(s, y));
        }
    }
    if has_unique_solution(s, n) {
        let x = choose|x: Seq<real>| #[trigger] is_unique_solution(s, n, x);
        assert(is_unique_solution(t, n, x));
    }
    if has_unique_solution(t, n) {
        let x = choose|x: Seq<real>| #[trigger] is_unique_solution(t, n, x);
        assert(is_unique_solution(s, n, x));
    }
}

/// Having the same solutions is transitive.
pub proof fn lemma_equivalent_chain(s: Seq<Seq<int>>, t: Seq<Seq<int>>, u: Seq<Seq<int>>, n: nat)
    requires
        equivalent(s, t, n),
        equivalent(t, u, n),
    ensures
        equivalent(s, u, n),
{
    assert forall|x: Seq<real>| x.len() == n implies (#[trigger] solves(s, x) <==> #[trigger] solves(
        u,
        x,
    )) by {
        assert(solves(s, x) <==> solves(t, x));
        assert(solves(t, x) <==> solves(u, x));
    }
}

/// A vector that every equation of a system with pivoted columns before
/// `c` and a column `c` without a pivot maps to zero, and that is not
/// zero itself.
pub open spec fn kernel_vector(s: Seq<Seq<int>>, c: int, n: nat) -> Seq<real> {
    Seq::new(
        n,
        |j: int|
            if j < c {
                -quotient(s[j][c], s[j][j])
            } else if j == c {
                1 as real
            } else {
                0 as real
            },
    )
}

/// Where the columns before `c` are pivoted and no row from `c` on has an
/// entry in the column `c`, the unknown `c` is free: a system with a
/// solution has another one.
pub proof fn lemma_free_column(s: Seq<Seq<int>>, c: int, n: nat)
    requires
        well_shaped(s, n),
        0 <= c < n,
        c <= s.len(),
        pivoted(s, c),
        forall|r: int| c <= r < s.len() ==> (#[trigger] s[r])[c] == 0,
    ensures
        !has_unique_solution(s, n),
{
    if has_unique_solution(s, n) {
        let x = choose|x: Seq<real>| #[trigger] is_unique_solution(s, n, x);
        let k = kernel_vector(s, c, n);
        let y = Seq::new(n, |j: int| x[j] + k[j]);
        assert forall|i: int| 0 <= i < s.len() implies satisfies(#[trigger] s[i], y) by {
            let row = s[i];
            assert(satisfies(row, x));
            lemma_dot_sum(row, x, k, y, n as int);
            let p = if i < c {
                i
            } else {
                -1
            };
            assert forall|j: int| 0 <= j < n && j != p && j != c implies #[trigger] row[j] == 0
                || k[j] == 0 as real by {
                if j < c {
                    assert(s[i][j] != 0 <==> i == j);
                }
            }
            lemma_dot_sparse(row, k, n as int, p, c);
            if i < c {
                let a = row[i];
                let b = row[c];
                assert(s[i][i] != 0 <==> i == i);
                lemma_quotient_cancel(b, a);
                lemma_real_mul_neg(a as real, quotient(b, a));
                assert(k[i] == -quotient(b, a));
                assert(k[c] == 1 as real);
            } else {
                assert(row[c] == 0);
            }
        }
        assert(solves(s, y));
        assert(y[c] == x[c] + 1 as real);
        assert(y == x);
    }
}

/// The values `s[i][n] / s[i][i]` of the unknowns of a system whose
/// columns are all pivoted.
pub open spec fn diagonal_solution(s: Seq<Seq<int>>, n: nat) -> Seq<real> {
    Seq::new(n, |i: int| quotient(s[i][n as int], s[i][i]))
}

/// In a system whose columns are all pivoted, a row with a pivot fixes
/// its unknown and a row without one holds no unknown.
pub proof fn lemma_diagonal_row(s: Seq<Seq<int>>, n: nat, i: int, x: Seq<real>)
    requires
        well_shaped(s, n),
        pivoted(s, n as int),
        0 <= i < s.len(),
        x.len() == n,
    ensures
        satisfies(s[i], x) == (if i < n {
            s[i][i] as real * x[i] == s[i][n as int] as real
        } else {
            s[i][n as int] == 0
        }),
{
    let row = s[i];
    assert forall|j: int| 0 <= j < n && j != i && j != -1 implies #[trigger] row[j] == 0 || x[j]
        == 0 as real by {
        assert(s[i][j] != 0 <==> i == j);
    }
    lemma_dot_sparse(row, x, n as int, i, -1);
}

/// A system whose columns are all pivoted has no solution where a row
/// without a pivot has a right-hand side, and else exactly the solution
/// that the pivots give.
pub proof fn lemma_diagonal(s: Seq<Seq<int>>, n: nat)
    requires
        well_shaped(s, n),
        n <= s.len(),
        pivoted(s, n as int),
    ensures
        (exists|i: int| n <= i < s.len() && (#[trigger] s[i])[n as int] != 0)
            ==> !has_unique_solution(s, n),
        (forall|i: int| n <= i < s.len() ==> (#[trigger] s[i])[n as int] == 0)
            ==> is_unique_solution(s, n, diagonal_solution(s, n)),
{
    if exists|i: int| n <= i < s.len() && (#[trigger] s[i])[n as int] != 0 {
        let i = choose|i: int| n <= i < s.len() && (#[trigger] s[i])[n as int] != 0;
        if has_unique_solution(s, n) {
            let x = choose|x: Seq<real>| #[trigger] is_unique_solution(s, n, x);
            assert(satisfies(s[i], x));
            lemma_diagonal_row(s, n, i, x);
        }
    }
    if forall|i: int| n <= i < s.len() ==> (#[trigger] s[i])[n as int] == 0 {
        let x = diagonal_solution(s, n);
        assert forall|i: int| 0 <= i < s.len() implies satisfies(#[trigger] s[i], x) by {
            lemma_diagonal_row(s, n, i, x);
            if i < n {
                let a = s[i][i];
                let b = s[i][n as int];
                assert(s[i][i] != 0 <==> i == i);
                lemma_quotient_cancel(b, a);
            }
        }
        assert forall|y: Seq<real>| y.len() == n && #[trigger] solves(s, y) implies y == x by {
            assert forall|i: int| 0 <= i < n implies y[i] == x[i] by {
                assert(satisfies(s[i], y));
                lemma_diagonal_row(s, n, i, y);
                let a = s[i][i];
                let b = s[i][n as int];
                let v = y[i];
                assert(s[i][i] != 0 <==> i == i);
                lemma_quotient_unique(b, a, v);
            }
            assert(y =~= x);
        }
    }
}

} // verus!
