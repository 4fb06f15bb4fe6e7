//! Exact fractions, in which the library states probabilities and
//! expectations.
use vstd::prelude::*;

verus! {

/// The quotient of two integers as a real number.
pub open spec fn quotient(num: int, den: int) -> real {
    num as real / den as real
}

/// A fraction `num / den`, kept as written: it is neither reduced nor is
/// its denominator required to differ from zero. A fraction with
/// denominator zero stands for no number.
#[derive(Clone, Copy, Debug, PartialEq, Eq)]
pub struct Ratio {
    pub num: i128,
    pub den: u128,
}

impl Ratio {
    /// Whether the fraction stands for a number.
    pub open spec fn is_defined(&self) -> bool {
        self.den != 0
    }

    /// The number that the fraction stands for, where it is defined.
    pub open spec fn value(&self) -> real {
        quotient(self.num as int, self.den as int)
    }

    /// The fraction `num / den`.
    pub fn new(num: i128, den: u128) -> (r: Self)
        ensures
            r.num == num,
            r.den == den,
    {
        Ratio { num, den }
    }
}

/// The product of two integers as a real number is the product of the
/// two as real numbers.
pub proof fn lemma_product_as_real(a: int, b: int)
    ensures
        (a * b) as real == a as real * b as real,
{
    let ar = a as real;
    let br = b as real;
    assert((a * b) as real == ar * br) by (nonlinear_arith)
        requires
            ar == a as real,
            br == b as real,
    ;
}

/// Multiplication of real numbers is associative.
pub proof fn lemma_real_mul_assoc(a: real, b: real, c: real)
    ensures
        (a * b) * c == a * (b * c),
{
    assert((a * b) * c == a * (b * c)) by (nonlinear_arith);
}

/// Multiplication of real numbers distributes over a sum.
pub proof fn lemma_real_mul_sum(a: real, b: real, c: real)
    ensures
        a * (b + c) == a * b + a * c,
{
    assert(a * (b + c) == a * b + a * c) by (nonlinear_arith);
}

/// Multiplication of real numbers distributes over a difference.
pub proof fn lemma_real_mul_diff(a: real, b: real, c: real)
    ensures
        (a - b) * c == a * c - b * c,
{
    assert((a - b) * c == a * c - b * c) by (nonlinear_arith);
}

/// A product of real numbers is zero only where a factor is zero.
pub proof fn lemma_real_mul_zero(a: real, b: real)
    ensures
        a * b == 0 as real <==> a == 0 as real || b == 0 as real,
{
    assert(a * b == 0 as real <==> a == 0 as real || b == 0 as real) by (nonlinear_arith);
}

/// A quotient times its denominator is its numerator.
pub proof fn lemma_quotient_cancel(num: int, den: int)
    requires
        den != 0,
    ensures
        den as real * quotient(num, den) == num as real,
{
    let n = num as real;
    let d = den as real;
    assert(d * (n / d) == n) by (nonlinear_arith)
        requires
            d != 0 as real,
    ;
}

/// The product with a negated real number is the negated product.
pub proof fn lemma_real_mul_neg(a: real, b: real)
    ensures
        a * (-b) == -(a * b),
{
    assert(a * (-b) == -(a * b)) by (nonlinear_arith);
}

/// A quotient is the one number that, times the denominator, gives the
/// numerator.
pub proof fn lemma_quotient_unique(num: int, den: int, v: real)
    requires
        den != 0,
        den as real * v == num as real,
    ensures
        v == quotient(num, den),
{
    let d = den as real;
    let q = quotient(num, den);
    lemma_quotient_cancel(num, den);
    lemma_real_mul_sum(d, v, -q);
    lemma_real_mul_neg(d, q);
    lemma_real_mul_zero(d, v + (-q));
}

/// A product of two integers of magnitude `g` at most has magnitude `g g`
/// at most.
pub proof fn lemma_product_bound(x: int, y: int, g: nat)
    requires
        -g <= x <= g,
        -g <= y <= g,
    ensures
        -(g * g) <= x * y <= g * g,
{
    assert(-(g * g) <= x * y <= g * g) by (nonlinear_arith)
        requires
            -g <= x <= g,
            -g <= y <= g,
    ;
}

/// Multiplication of real numbers is commutative.
pub proof fn lemma_real_mul_comm(a: real, b: real)
    ensures
        a * b == b * a,
{
    assert(a * b == b * a) by (nonlinear_arith);
}

/// Dividing by a real number undoes multiplying by it, and the other way
/// round.
pub proof fn lemma_real_div_cancel(d: real, z: real)
    requires
        d != 0 as real,
    ensures
        d * (z / d) == z,
        (d * z) / d == z,
{
    assert(d * (z / d) == z) by (nonlinear_arith)
        requires
            d != 0 as real,
    ;
    assert((d * z) / d == z) by (nonlinear_arith)
        requires
            d != 0 as real,
    ;
}

/// The quotient of a sum is the sum of the quotients.
pub proof fn lemma_quotient_sum(a: int, b: int, den: int)
    requires
        den != 0,
    ensures
        quotient(a + b, den) == quotient(a, den) + quotient(b, den),
{
    let d = den as real;
    lemma_quotient_cancel(a, den);
    lemma_quotient_cancel(b, den);
    lemma_real_mul_sum(d, quotient(a, den), quotient(b, den));
    lemma_quotient_unique(a + b, den, quotient(a, den) + quotient(b, den));
}

/// The quotient of zero is zero, and the quotient of a number by itself
/// is one.
pub proof fn lemma_quotient_zero_one(den: int)
    requires
        den != 0,
    ensures
        quotient(0, den) == 0 as real,
        quotient(den, den) == 1 as real,
{
    let d = den as real;
    lemma_real_mul_zero(d, 0 as real);
    lemma_quotient_unique(0, den, 0 as real);
    assert(d * (1 as real) == d);
    lemma_quotient_unique(den, den, 1 as real);
}

/// A quotient times an integer is the quotient of the product.
pub proof fn lemma_quotient_times(num: int, den: int, v: int)
    requires
        den != 0,
    ensures
        quotient(num * v, den) == quotient(num, den) * (v as real),
{
    let d = den as real;
    let q = quotient(num, den);
    let vr = v as real;
    lemma_quotient_cancel(num, den);
    lemma_real_mul_assoc(d, q, vr);
    lemma_product_as_real(num, v);
    assert(d * (q * vr) == (num * v) as real);
    lemma_quotient_unique(num * v, den, q * vr);
}

/// Multiplying numerator and denominator by the same non-zero integer
/// leaves a quotient as it is.
pub proof fn lemma_quotient_scale(num: int, den: int, k: int)
    requires
        den != 0,
        k != 0,
    ensures
        den * k != 0,
        quotient(num * k, den * k) == quotient(num, den),
{
    let d = den as real;
    let kr = k as real;
    let q = quotient(num, den);
    vstd::arithmetic::mul::lemma_mul_nonzero(den, k);
    lemma_quotient_cancel(num, den);
    lemma_product_as_real(den, k);
    lemma_product_as_real(num, k);
    lemma_real_mul_comm(d, kr);
    lemma_real_mul_assoc(kr, d, q);
    lemma_real_mul_comm(kr, num as real);
    assert((den * k) as real * q == (num * k) as real);
    lemma_quotient_unique(num * k, den * k, q);
}

/// Negating numerator and denominator leaves a quotient as it is.
pub proof fn lemma_quotient_negate(num: int, den: int)
    requires
        den != 0,
    ensures
        quotient(-num, -den) == quotient(num, den),
{
    let d = den as real;
    let q = quotient(num, den);
    lemma_quotient_cancel(num, den);
    lemma_real_mul_comm(-d, q);
    lemma_real_mul_neg(q, d);
    lemma_real_mul_comm(q, d);
    assert((-den) as real * q == (-num) as real);
    lemma_quotient_unique(-num, -den, q);
}

/// The product of a positive real number and another has the sign of the
/// other.
pub proof fn lemma_real_mul_sign(d: real, q: real)
    requires
        d > 0 as real,
    ensures
        d * q < 0 as real <==> q < 0 as real,
        d * q > 0 as real <==> q > 0 as real,
{
    assert(d * q < 0 as real <==> q < 0 as real) by (nonlinear_arith)
        requires
            d > 0 as real,
    ;
    assert(d * q > 0 as real <==> q > 0 as real) by (nonlinear_arith)
        requires
            d > 0 as real,
    ;
}

/// A quotient with a positive denominator has the sign of its numerator.
pub proof fn lemma_quotient_sign(num: int, den: int)
    requires
        den > 0,
    ensures
        quotient(num, den) < 0 as real <==> num < 0,
        quotient(num, den) > 0 as real <==> num > 0,
{
    lemma_quotient_cancel(num, den);
    lemma_real_mul_sign(den as real, quotient(num, den));
}

/// The product of a number between zero and `bound` and a number of
/// magnitude `g` at most has magnitude `bound g` at most.
pub proof fn lemma_scaled_bound(t: int, bound: nat, x: int, g: nat)
    requires
        0 <= t <= bound,
        -g <= x <= g,
    ensures
        -(bound * g) <= t * x <= bound * g,
{
    if x >= 0 {
        vstd::arithmetic::mul::lemma_mul_upper_bound(t, bound as int, x, g as int);
        vstd::arithmetic::mul::lemma_mul_nonnegative(t, x);
        vstd::arithmetic::mul::lemma_mul_nonnegative(bound as int, g as int);
    } else {
        vstd::arithmetic::mul::lemma_mul_upper_bound(t, bound as int, -x, g as int);
        vstd::arithmetic::mul::lemma_mul_nonnegative(t, -x);
        vstd::arithmetic::mul::lemma_mul_nonnegative(bound as int, g as int);
        vstd::arithmetic::mul::lemma_mul_unary_negation(t, x);
    }
}

/// A product of two real numbers that are not negative is not negative.
pub proof fn lemma_real_mul_nonnegative(a: real, b: real)
    requires
        a >= 0 as real,
        b >= 0 as real,
    ensures
        a * b >= 0 as real,
{
    assert(a * b >= 0 as real) by (nonlinear_arith)
        requires
            a >= 0 as real,
            b >= 0 as real,
    ;
}

/// A quotient of a numerator that is not negative and at most the
/// positive denominator lies between zero and one, and below one where
/// the numerator is below the denominator.
pub proof fn lemma_quotient_unit(num: int, den: int)
    requires
        0 <= num <= den,
        den > 0,
    ensures
        0 as real <= quotient(num, den) <= 1 as real,
        num < den ==> quotient(num, den) < 1 as real,
{
    let d = den as real;
    let q = quotient(num, den);
    lemma_quotient_sign(num, den);
    lemma_quotient_cancel(num, den);
    lemma_real_mul_sum(d, 1 as real, -q);
    lemma_real_mul_neg(d, q);
    assert(d * (1 as real + (-q)) == d - num as real);
    lemma_real_mul_sign(d, 1 as real + (-q));
}

} // verus!
