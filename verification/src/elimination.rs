//! Elimination on rows of machine integers: the executable side of the
//! exact solution of linear systems.
use crate::linear::{
    bounded, diagonal_solution, equivalent, growth, has_unique_solution, in_range,
    is_unique_solution, lemma_diagonal, lemma_equivalent_chain, lemma_equivalent_unique,
    lemma_free_column, lemma_growth_monotonic, lemma_growth_step, lemma_step_bounded,
    lemma_step_equivalent, lemma_step_pivoted, lemma_swapped, pivoted, reduced, reduction_fits,
    step, step_fits, swapped, well_shaped, within_range,
};
use crate::ratio::quotient;
use vstd::prelude::*;

verus! {

/// A fraction of two integers.
#[derive(Clone, Copy, Debug, PartialEq, Eq)]
pub struct Fraction {
    pub num: i128,
    pub den: i128,
}

impl Fraction {
    /// The number that the fraction stands for, where its denominator is
    /// not zero.
    pub open spec fn value(&self) -> real {
        quotient(self.num as int, self.den as int)
    }
}

/// What solving a system has found.
#[derive(Clone, Debug, PartialEq, Eq)]
pub enum Solution {
    /// The system has exactly one solution: the values of the unknowns.
    Unique(Vec<Fraction>),
    /// The system has no solution, or more than one.
    NotUnique,
    /// An intermediate value exceeded the range of `i128`.
    Overflow,
}

/// A row of machine integers as a row of integers.
pub open spec fn row_view(row: Seq<i128>) -> Seq<int> {
    Seq::new(row.len(), |j: int| row[j] as int)
}

/// Rows of machine integers as a system of equations.
pub open spec fn system_view(rows: Seq<Vec<i128>>) -> Seq<Seq<int>> {
    Seq::new(rows.len(), |i: int| row_view(rows[i]@))
}

/// The numbers that a sequence of fractions stands for.
pub open spec fn fraction_values(fractions: Seq<Fraction>) -> Seq<real> {
    Seq::new(fractions.len(), |i: int| fractions[i].value())
}

/// Whether no numerator and no denominator of `fractions` exceeds `g` in
/// magnitude.
pub open spec fn fractions_bounded(fractions: Seq<Fraction>, g: nat) -> bool {
    forall|i: int|
        0 <= i < fractions.len() ==> -g <= (#[trigger] fractions[i]).num <= g && -g
            <= fractions[i].den <= g
}

/// Fractions whose numerators and denominators are entries of a bounded
/// system are bounded as the system is.
pub proof fn lemma_fractions_bounded(s: Seq<Seq<int>>, x: Seq<Fraction>, n: nat, g: nat)
    requires
        well_shaped(s, n),
        x.len() == n,
        n <= s.len(),
        bounded(s, g),
        forall|j: int|
            0 <= j < n ==> (#[trigger] x[j]).num == s[j][n as int] && x[j].den == s[j][j],
    ensures
        fractions_bounded(x, g),
{
    assert forall|i: int| 0 <= i < x.len() implies -g <= (#[trigger] x[i]).num <= g && -g
        <= x[i].den <= g by {
        assert(s[i].len() == n + 1);
        assert(-g <= s[i][n as int] <= g);
        assert(-g <= s[i][i] <= g);
    }
}

/// A copy of `row`.
fn copy_row(row: &Vec<i128>) -> (copy: Vec<i128>)
    ensures
        copy@ == row@,
{
    let mut copy: Vec<i128> = Vec::new();
    let mut j: usize = 0;
    while j < row.len()
        invariant
            j <= row.len(),
            copy.len() == j,
            forall|k: int| 0 <= k < j ==> copy[k] == row[k],
        decreases row.len() - j,
    {
        copy.push(row[j]);
        j += 1;
    }
    assert(copy@ =~= row@);
    copy
}

/// The first row from `c` on with an entry in the column `c`.
fn find_pivot(a: &Vec<Vec<i128>>, c: usize, n: usize) -> (found: Option<usize>)
    requires
        well_shaped(system_view(a@), n as nat),
        c < n,
    ensures
        match found {
            Some(r) => c <= r < a.len() && system_view(a@)[r as int][c as int] != 0,
            None => forall|r: int| c <= r < a.len() ==> (#[trigger] system_view(a@)[r])[c as int] == 0,
        },
{
    let mut r: usize = c;
    while r < a.len()
        invariant
            well_shaped(system_view(a@), n as nat),
            c < n,
            c <= r,
            forall|q: int| c <= q < r && q < a.len() ==> (#[trigger] system_view(a@)[q])[c as int] == 0,
        decreases a.len() - r,
    {
        assert(system_view(a@)[r as int].len() == n + 1);
        if a[r][c] != 0 {
            return Some(r);
        }
        r += 1;
    }
    None
}

/// Exchanges the rows `c` and `r`.
fn swap_rows(a: &mut Vec<Vec<i128>>, c: usize, r: usize)
    requires
        c < old(a).len(),
        r < old(a).len(),
    ensures
        final(a).len() == old(a).len(),
        system_view(final(a)@) == swapped(system_view(old(a)@), c as int, r as int),
{
    let row_c = copy_row(&a[c]);
    let row_r = copy_row(&a[r]);
    a.set(c, row_r);
    a.set(r, row_c);
    assert(system_view(a@) =~~= swapped(system_view(old(a)@), c as int, r as int));
}

/// The row `u` after the column `c` has been eliminated from it with the
/// row `v`, unless a value on the way exceeds the range of `i128`.
fn reduce_row(u: &Vec<i128>, v: &Vec<i128>, c: usize) -> (w: Option<Vec<i128>>)
    requires
        u.len() == v.len(),
        c < u.len(),
        u[c as int] != 0,
    ensures
        match w {
            Some(w) => row_view(w@) == reduced(row_view(u@), row_view(v@), c as int),
            None => !reduction_fits(row_view(u@), row_view(v@), c as int),
        },
{
    let p = v[c];
    let f = u[c];
    let mut w: Vec<i128> = Vec::new();
    let mut j: usize = 0;
    while j < u.len()
        invariant
            u.len() == v.len(),
            c < u.len(),
            p == v[c as int],
            f == u[c as int],
            f != 0,
            j <= u.len(),
            w.len() == j,
            forall|k: int| 0 <= k < j ==> w[k] == p * u[k] - f * v[k],
        decreases u.len() - j,
    {
        let ghost uj = row_view(u@)[j as int];
        let first = match p.checked_mul(u[j]) {
            Some(first) => first,
            None => {
                assert(!in_range(row_view(v@)[c as int] * uj));
                return None;
            },
        };
        let second = match f.checked_mul(v[j]) {
            Some(second) => second,
            None => {
                assert(!in_range(row_view(u@)[c as int] * row_view(v@)[j as int]));
                assert(uj == u[j as int]);
                return None;
            },
        };
        let entry = match first.checked_sub(second) {
            Some(entry) => entry,
            None => {
                assert(!in_range(
                    row_view(v@)[c as int] * uj - row_view(u@)[c as int] * row_view(v@)[j as int],
                ));
                return None;
            },
        };
        w.push(entry);
        j += 1;
    }
    assert(row_view(w@) =~= reduced(row_view(u@), row_view(v@), c as int));
    Some(w)
}

/// Eliminates the column `c` from every row but the row `c`, and says
/// whether it could: it could not where a value exceeded the range of
/// `i128`.
fn eliminate(a: &mut Vec<Vec<i128>>, c: usize, n: usize) -> (done: bool)
    requires
        well_shaped(system_view(old(a)@), n as nat),
        c < old(a).len(),
        c < n,
    ensures
        final(a).len() == old(a).len(),
        well_shaped(system_view(final(a)@), n as nat),
        done ==> system_view(final(a)@) == step(system_view(old(a)@), c as int),
        !done ==> !step_fits(system_view(old(a)@), c as int),
{
    let ghost before = system_view(a@);
    let mut i: usize = 0;
    while i < a.len()
        invariant
            a.len() == old(a).len(),
            before == system_view(old(a)@),
            well_shaped(before, n as nat),
            well_shaped(system_view(a@), n as nat),
            c < a.len(),
            c < n,
            i <= a.len(),
            system_view(a@)[c as int] == before[c as int],
            forall|k: int| i <= k < a.len() ==> #[trigger] system_view(a@)[k] == before[k],
            forall|k: int| 0 <= k < i ==> #[trigger] system_view(a@)[k] == step(before, c as int)[k],
        decreases a.len() - i,
    {
        assert(system_view(a@)[i as int] == before[i as int]);
        assert(before[i as int].len() == n + 1);
        assert(before[c as int].len() == n + 1);
        if i != c && a[i][c] != 0 {
            match reduce_row(&a[i], &a[c], c) {
                None => {
                    assert(!reduction_fits(before[i as int], before[c as int], c as int));
                    return false;
                },
                Some(w) => {
                    let ghost prev = system_view(a@);
                    a.set(i, w);
                    assert forall|k: int| 0 <= k < a.len() && k != i implies #[trigger] system_view(
                        a@,
                    )[k] == prev[k] by {}
                    assert(system_view(a@)[i as int] == step(before, c as int)[i as int]);
                },
            }
        }
        i += 1;
    }
    assert(system_view(a@) =~= step(before, c as int));
    true
}

/// Solves a system as `solve` does. `b` is a bound that the caller has in
/// mind for the entries: where it holds, it carries over to the solution,
/// and where it is also small enough, no value exceeds the range of
/// `i128`.
pub(crate) fn solve_within(rows: Vec<Vec<i128>>, n: usize, Ghost(b): Ghost<nat>) -> (found:
    Solution)
    requires
        well_shaped(system_view(rows@), n as nat),
    ensures
        match found {
            Solution::Unique(x) => {
                &&& x.len() == n
                &&& forall|i: int| 0 <= i < n ==> (#[trigger] x[i]).den != 0
                &&& is_unique_solution(system_view(rows@), n as nat, fraction_values(x@))
                &&& bounded(system_view(rows@), b) ==> fractions_bounded(x@, growth(b, n as nat))
            },
            Solution::NotUnique => !has_unique_solution(system_view(rows@), n as nat),
            Solution::Overflow => !(bounded(system_view(rows@), b) && growth(b, n as nat)
                <= i128::MAX),
        },
{
    let ghost orig = system_view(rows@);
    let mut a = rows;
    let mut c: usize = 0;
    proof {
        lemma_growth_step(b, 0);
    }
    while c < n
        invariant
            orig == system_view(rows@),
            well_shaped(system_view(a@), n as nat),
            c <= n,
            c <= a.len(),
            equivalent(orig, system_view(a@), n as nat),
            pivoted(system_view(a@), c as int),
            bounded(orig, b) ==> bounded(system_view(a@), growth(b, c as nat)),
        decreases n - c,
    {
        let ghost s0 = system_view(a@);
        let ghost g = growth(b, c as nat);
        match find_pivot(&a, c, n) {
            None => {
                proof {
                    lemma_free_column(s0, c as int, n as nat);
                    lemma_equivalent_unique(orig, s0, n as nat);
                }
                return Solution::NotUnique;
            },
            Some(r) => {
                swap_rows(&mut a, c, r);
                let ghost s1 = system_view(a@);
                proof {
                    lemma_swapped(s0, c as int, r as int, n as nat, g);
                    assert(s1[c as int][c as int] == s0[r as int][c as int]);
                    lemma_growth_step(b, c as nat);
                    if bounded(orig, b) {
                        lemma_step_bounded(s1, c as int, n as nat, g);
                    }
                }
                let done = eliminate(&mut a, c, n);
                if !done {
                    proof {
                        lemma_growth_monotonic(b, (c + 1) as nat, n as nat);
                    }
                    return Solution::Overflow;
                }
                proof {
                    let s2 = system_view(a@);
                    lemma_step_equivalent(s1, c as int, n as nat);
                    lemma_step_pivoted(s1, c as int, n as nat);
                    lemma_equivalent_chain(orig, s0, s1, n as nat);
                    lemma_equivalent_chain(orig, s1, s2, n as nat);
                }
            },
        }
        c += 1;
    }
    let ghost s = system_view(a@);
    let mut i: usize = n;
    while i < a.len()
        invariant
            orig == system_view(rows@),
            s == system_view(a@),
            well_shaped(s, n as nat),
            equivalent(orig, s, n as nat),
            pivoted(s, n as int),
            n <= a.len(),
            n <= i,
            forall|k: int| n <= k < i && k < a.len() ==> (#[trigger] s[k])[n as int] == 0,
        decreases a.len() - i,
    {
        assert(s[i as int].len() == n + 1);
        if a[i][n] != 0 {
            proof {
                assert(s[i as int][n as int] != 0);
                lemma_diagonal(s, n as nat);
                lemma_equivalent_unique(orig, s, n as nat);
            }
            return Solution::NotUnique;
        }
        i += 1;
    }
    let mut x: Vec<Fraction> = Vec::new();
    let mut k: usize = 0;
    while k < n
        invariant
            s == system_view(a@),
            well_shaped(s, n as nat),
            n <= a.len(),
            pivoted(s, n as int),
            k <= n,
            x.len() == k,
            forall|j: int|
                0 <= j < k ==> (#[trigger] x[j]).num == s[j][n as int] && x[j].den == s[j][j]
                    && x[j].den != 0,
        decreases n - k,
    {
        assert(s[k as int].len() == n + 1);
        assert(s[k as int][k as int] != 0 <==> k == k);
        x.push(Fraction { num: a[k][n], den: a[k][k] });
        k += 1;
    }
    proof {
        lemma_diagonal(s, n as nat);
        assert(fraction_values(x@) =~= diagonal_solution(s, n as nat));
        lemma_equivalent_unique(orig, s, n as nat);
        if bounded(orig, b) {
            lemma_fractions_bounded(s, x@, n as nat, growth(b, n as nat));
        }
    }
    Solution::Unique(x)
}

/// Solves a system of equations in `n` unknowns: each row holds the `n`
/// coefficients of an equation and then its right-hand side. The columns
/// are eliminated one after the other, each with the first row that has
/// an entry in it, by cross-multiplication of rows.
pub fn solve(rows: Vec<Vec<i128>>, n: usize) -> (found: Solution)
    requires
        well_shaped(system_view(rows@), n as nat),
    ensures
        match found {
            Solution::Unique(x) => {
                &&& x.len() == n
                &&& forall|i: int| 0 <= i < n ==> (#[trigger] x[i]).den != 0
                &&& is_unique_solution(system_view(rows@), n as nat, fraction_values(x@))
            },
            Solution::NotUnique => !has_unique_solution(system_view(rows@), n as nat),
            Solution::Overflow => !within_range(system_view(rows@), n as nat),
        },
{
    let ghost b = choose|b: nat| #[trigger]
        bounded(system_view(rows@), b) && growth(b, n as nat) <= i128::MAX;
    solve_within(rows, n, Ghost(b))
}

} // verus!
