//! Fractions of integers as real numbers, and the few facts of real arithmetic
//! that tie computing with numerators to computing with the fractions.

use vstd::prelude::*;

verus! {

/// The real number `num / den`.
pub open spec fn fraction(num: int, den: int) -> real {
    num as real / den as real
}

/// A quotient times its divisor is the dividend.
pub(crate) proof fn lemma_quotient(n: real, d: real)
    requires
        d != 0real,
    ensures
        (n / d) * d == n,
{
    assert((n / d) * d == n) by (nonlinear_arith)
        requires
            d != 0real,
    ;
}

/// What gives `n` when multiplied by `d` is the quotient `n / d`.
pub(crate) proof fn lemma_quotient_unique(x: real, n: real, d: real)
    requires
        d != 0real,
        x * d == n,
    ensures
        x == n / d,
{
    lemma_quotient(n, d);
    assert(x == n / d) by (nonlinear_arith)
        requires
            d != 0real,
            x * d == (n / d) * d,
    ;
}

/// Multiplying by a positive number keeps the order of two numbers.
proof fn lemma_order_scaled(x: real, y: real, d: real)
    requires
        d > 0real,
    ensures
        (x < y) == (x * d < y * d),
        (x > y) == (x * d > y * d),
{
    assert((x < y) == (x * d < y * d)) by (nonlinear_arith)
        requires
            d > 0real,
    ;
    assert((x > y) == (x * d > y * d)) by (nonlinear_arith)
        requires
            d > 0real,
    ;
}

/// A quotient by a positive divisor lies below a bound exactly when the
/// dividend lies below the bound times the divisor, and likewise above.
pub(crate) proof fn lemma_quotient_below(n: real, d: real, bound: real)
    requires
        d > 0real,
    ensures
        (n / d < bound) == (n < bound * d),
        (n / d > bound) == (n > bound * d),
{
    lemma_quotient(n, d);
    lemma_order_scaled(n / d, bound, d);
}

/// The real number of a product of integers is the product of their real
/// numbers.
pub(crate) proof fn lemma_real_of_product(a: int, b: int)
    ensures
        (a * b) as real == (a as real) * (b as real),
{
    assert((a * b) as real == (a as real) * (b as real)) by (nonlinear_arith);
}

/// The square and the cube of a positive number are positive.
pub(crate) proof fn lemma_powers_positive(d: real)
    requires
        d > 0real,
    ensures
        d * d > 0real,
        d * d * d > 0real,
{
    assert(d * d > 0real) by (nonlinear_arith)
        requires
            d > 0real,
    ;
    let e = d * d;
    assert(e * d > 0real) by (nonlinear_arith)
        requires
            e > 0real,
            d > 0real,
    ;
}

/// A product of three numbers, grouped the other way.
pub(crate) proof fn lemma_product_regrouped(a: real, b: real, c: real)
    ensures
        (a * b) * c == a * (b * c),
{
    assert((a * b) * c == a * (b * c)) by (nonlinear_arith);
}

/// A product, with its factors in the other order.
pub(crate) proof fn lemma_product_swapped(a: real, b: real)
    ensures
        a * b == b * a,
{
    assert(a * b == b * a) by (nonlinear_arith);
}

/// A sum times a number is the sum of the products.
pub(crate) proof fn lemma_sum_times(a: real, b: real, c: real)
    ensures
        (a + b) * c == a * c + b * c,
{
    assert((a + b) * c == a * c + b * c) by (nonlinear_arith);
}

/// A difference times a number is the difference of the products.
pub(crate) proof fn lemma_difference_times(a: real, b: real, c: real)
    ensures
        (a - b) * c == a * c - b * c,
{
    assert((a - b) * c == a * c - b * c) by (nonlinear_arith);
}

/// Quotients by one divisor add up to the quotient of the sum.
pub(crate) proof fn lemma_quotient_sum(a: real, b: real, d: real)
    requires
        d != 0real,
    ensures
        a / d + b / d == (a + b) / d,
{
    lemma_quotient(a, d);
    lemma_quotient(b, d);
    lemma_sum_times(a / d, b / d, d);
    lemma_quotient_unique(a / d + b / d, a + b, d);
}

/// The difference of quotients by one divisor is the quotient of the
/// difference.
pub(crate) proof fn lemma_quotient_difference(a: real, b: real, d: real)
    requires
        d != 0real,
    ensures
        a / d - b / d == (a - b) / d,
{
    lemma_quotient(a, d);
    lemma_quotient(b, d);
    lemma_difference_times(a / d, b / d, d);
    lemma_quotient_unique(a / d - b / d, a - b, d);
}

/// A multiple of a quotient is the quotient of the multiple.
pub(crate) proof fn lemma_quotient_multiple(k: real, a: real, d: real)
    requires
        d != 0real,
    ensures
        k * (a / d) == (k * a) / d,
{
    lemma_quotient(a, d);
    lemma_product_regrouped(k, a / d, d);
    lemma_quotient_unique(k * (a / d), k * a, d);
}

/// A quotient by `d` is the quotient of `d` times as much by the square of
/// `d`.
pub(crate) proof fn lemma_quotient_expanded(a: real, d: real)
    requires
        d > 0real,
    ensures
        a / d == (a * d) / (d * d),
{
    lemma_powers_positive(d);
    lemma_quotient(a, d);
    lemma_product_regrouped(a / d, d, d);
    lemma_quotient_unique(a / d, a * d, d * d);
}

/// The product of two quotients by `d` is the quotient of the product by the
/// square of `d`.
pub(crate) proof fn lemma_quotient_product(a: real, b: real, d: real)
    requires
        d > 0real,
    ensures
        (a / d) * (b / d) == (a * b) / (d * d),
{
    let x = a / d;
    let y = b / d;
    lemma_powers_positive(d);
    lemma_quotient(a, d);
    lemma_quotient(b, d);
    // (x * y) * (d * d) == (x * d) * (y * d)
    lemma_product_regrouped(x, y, d * d);
    lemma_product_regrouped(y, d, d);
    assert(y * (d * d) == (y * d) * d);
    lemma_product_swapped(y * d, d);
    assert(y * (d * d) == d * (y * d));
    lemma_product_regrouped(x, d, y * d);
    assert((x * y) * (d * d) == (x * d) * (y * d));
    lemma_quotient_unique(x * y, a * b, d * d);
}

/// How a whole number of divisors, and one more, scale.
proof fn lemma_step_scaled(k: real, d: real)
    ensures
        k * d == d * k,
        (k + 1real) * d == d * k + d,
{
    assert(k * d == d * k) by (nonlinear_arith);
    assert((k + 1real) * d == d * k + d) by (nonlinear_arith);
}

/// The floor of the real quotient of two integers is their integer quotient.
pub(crate) proof fn lemma_floor_of_fraction(num: int, den: int)
    requires
        den > 0,
    ensures
        fraction(num, den).floor() == num / den,
{
    let k = num / den;
    let r = num % den;
    vstd::arithmetic::div_mod::lemma_fundamental_div_mod(num, den);
    vstd::arithmetic::div_mod::lemma_mod_bound(num, den);
    let dr = den as real;
    let nr = num as real;
    let kr = k as real;
    lemma_real_of_product(den, k);
    assert(nr == dr * kr + r as real);
    lemma_step_scaled(kr, dr);
    lemma_quotient_below(nr, dr, kr);
    lemma_quotient_below(nr, dr, kr + 1real);
    assert(kr <= nr / dr < kr + 1real);
}

/// The product of two bounded integers is bounded by the product of the
/// bounds.
pub(crate) proof fn lemma_product_bounded(a: int, b: int, bound_a: int, bound_b: int)
    requires
        -bound_a <= a <= bound_a,
        -bound_b <= b <= bound_b,
    ensures
        -(bound_a * bound_b) <= a * b <= bound_a * bound_b,
{
    assert((bound_a - a) * (bound_b - b) >= 0) by (nonlinear_arith)
        requires
            bound_a - a >= 0,
            bound_b - b >= 0,
    ;
    assert((bound_a + a) * (bound_b + b) >= 0) by (nonlinear_arith)
        requires
            bound_a + a >= 0,
            bound_b + b >= 0,
    ;
    assert((bound_a - a) * (bound_b + b) >= 0) by (nonlinear_arith)
        requires
            bound_a - a >= 0,
            bound_b + b >= 0,
    ;
    assert((bound_a + a) * (bound_b - b) >= 0) by (nonlinear_arith)
        requires
            bound_a + a >= 0,
            bound_b - b >= 0,
    ;
    assert((bound_a - a) * (bound_b - b) + (bound_a + a) * (bound_b + b) == 2 * (bound_a * bound_b)
        + 2 * (a * b)) by (nonlinear_arith);
    assert((bound_a - a) * (bound_b + b) + (bound_a + a) * (bound_b - b) == 2 * (bound_a * bound_b)
        - 2 * (a * b)) by (nonlinear_arith);
}

/// A common factor that is not zero can be taken out of an equation.
proof fn lemma_factor_cancelled(x: real, y: real, d: real)
    requires
        d != 0real,
        x * d == y * d,
    ensures
        x == y,
{
    assert(x == y) by (nonlinear_arith)
        requires
            d != 0real,
            x * d == y * d,
    ;
}

/// Two fractions whose cross products are equal are the same real number.
pub proof fn lemma_equal_fractions(num1: int, den1: int, num2: int, den2: int)
    requires
        den1 > 0,
        den2 > 0,
        num1 * den2 == num2 * den1,
    ensures
        fraction(num1, den1) == fraction(num2, den2),
{
    let x = fraction(num1, den1);
    let n1 = num1 as real;
    let d1 = den1 as real;
    let n2 = num2 as real;
    let d2 = den2 as real;
    lemma_quotient(n1, d1);
    lemma_real_of_product(num1, den2);
    lemma_real_of_product(num2, den1);
    assert(n1 * d2 == n2 * d1);
    lemma_product_regrouped(x, d1, d2);
    lemma_product_swapped(d1, d2);
    lemma_product_regrouped(x, d2, d1);
    assert((x * d2) * d1 == n2 * d1);
    lemma_factor_cancelled(x * d2, n2, d1);
    lemma_quotient_unique(x, n2, d2);
}

} // verus!
