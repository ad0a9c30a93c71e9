//! The colour conversion on numerators.
//!
//! Every quantity of the conversion is a fraction whose denominator is a power
//! of the scale of the inputs. The functions here say what the numerators are,
//! in integers, and the lemmas show that the fractions they stand for are the
//! quantities of the model over the real numbers.

use crate::color::{
    hsl_color, hue_channel, intensity_byte, lower_level, round_half_away, upper_level,
};
use crate::fractions::{
    fraction, lemma_difference_times, lemma_floor_of_fraction, lemma_powers_positive,
    lemma_product_regrouped, lemma_product_swapped, lemma_quotient, lemma_quotient_below,
    lemma_quotient_difference, lemma_quotient_expanded, lemma_quotient_multiple,
    lemma_quotient_product, lemma_quotient_sum, lemma_quotient_unique, lemma_real_of_product,
    lemma_sum_times,
};
use vstd::prelude::*;

verus! {

/// How far a channel is on its way from the lower to the upper level at the
/// position `t / (3 * d)` on the hue circle, as a numerator over `d`: 0 at the
/// lower level, `d` at the upper.
///
/// The position is brought back into the circle by at most one full turn.
/// Then the channel rises over the first sixth of the circle, stays up until
/// the half, falls until two thirds, and stays down.
pub open spec fn hue_share_num(t: int, d: int) -> int {
    let t = if t < 0 { t + 3 * d } else { t };
    let t = if t > 3 * d { t - 3 * d } else { t };
    if 2 * t < d {
        2 * t
    } else if 2 * t < 3 * d {
        d
    } else if t < 2 * d {
        4 * d - 2 * t
    } else {
        0
    }
}

/// The numerator over `d * d * d` of `hue_channel`, for a lower level
/// `p / (d * d)`, an upper level `q / (d * d)` and a position `t / (3 * d)`:
/// the lower level, raised by the share of the way to the upper level.
pub open spec fn hue_channel_num(p: int, q: int, t: int, d: int) -> int {
    p * d + (q - p) * hue_share_num(t, d)
}

/// `intensity_byte` of the fraction `num / den`, in integers.
pub open spec fn intensity_byte_num(num: int, den: int) -> u8 {
    if num <= 0 {
        0u8
    } else if num >= den {
        255u8
    } else {
        ((510 * num + den) / (2 * den)) as u8
    }
}

/// The 8-bit intensity of one channel, computed on numerators: for a lower
/// level `p / (d * d)`, an upper level `q / (d * d)` and a position
/// `t / (3 * d)`.
pub open spec fn channel_byte_num(p: int, q: int, t: int, d: int) -> u8 {
    intensity_byte_num(hue_channel_num(p, q, t, d), d * d * d)
}

/// The numerator over `d * d` of `upper_level` for the saturation `s / d` and
/// the lightness `l / d`.
pub open spec fn upper_level_num(s: int, l: int, d: int) -> int {
    if 2 * l < d {
        l * (d + s)
    } else {
        l * d + s * d - l * s
    }
}

/// The numerator over `d * d` of `lower_level` for the saturation `s / d` and
/// the lightness `l / d`.
pub open spec fn lower_level_num(s: int, l: int, d: int) -> int {
    2 * (l * d) - upper_level_num(s, l, d)
}

/// `hsl_color` for the hue `h / d`, the saturation `s / d` and the lightness
/// `l / d`, computed on numerators.
pub open spec fn hsl_color_num(h: int, s: int, l: int, d: int) -> (u8, u8, u8) {
    if s == 0 {
        let gray = intensity_byte_num(l, d);
        (gray, gray, gray)
    } else {
        let q = upper_level_num(s, l, d);
        let p = lower_level_num(s, l, d);
        (
            channel_byte_num(p, q, 3 * h + d, d),
            channel_byte_num(p, q, 3 * h, d),
            channel_byte_num(p, q, 3 * h - d, d),
        )
    }
}

/// Computing on numerators gives the colour of the fractions: `hsl_color_num`
/// is `hsl_color` for the hue `h / d`, the saturation `s / d` and the lightness
/// `l / d`.
pub proof fn lemma_hsl_color_num(h: int, s: int, l: int, d: int)
    requires
        d > 0,
    ensures
        hsl_color(fraction(h, d), fraction(s, d), fraction(l, d)) == hsl_color_num(h, s, l, d),
{
    lemma_quotient_below(s as real, d as real, 0real);
    assert((fraction(s, d) == 0real) == (s == 0));
    if s == 0 {
        lemma_intensity_byte_num(l, d);
    } else {
        let q = upper_level_num(s, l, d);
        let p = lower_level_num(s, l, d);
        lemma_levels_num(s, l, d);
        lemma_positions_num(h, d);
        lemma_channel_byte_num(p, q, 3 * h + d, d);
        lemma_channel_byte_num(p, q, 3 * h, d);
        lemma_channel_byte_num(p, q, 3 * h - d, d);
    }
}

/// The level numerators are the numerators of the levels on fractions.
pub proof fn lemma_levels_num(s: int, l: int, d: int)
    requires
        d > 0,
    ensures
        upper_level(fraction(s, d), fraction(l, d)) == fraction(upper_level_num(s, l, d), d * d),
        lower_level(fraction(s, d), fraction(l, d)) == fraction(lower_level_num(s, l, d), d * d),
{
    lemma_real_of_product(d, d);
    lemma_levels_num_real(s, l, d);
    lemma_levels_scaled(s as real, l as real, d as real);
}

/// `hue_channel_num` is the numerator of `hue_channel` on fractions.
pub proof fn lemma_hue_channel_num(p: int, q: int, t: int, d: int)
    requires
        d > 0,
    ensures
        hue_channel(fraction(p, d * d), fraction(q, d * d), fraction(t, 3 * d)) == fraction(
            hue_channel_num(p, q, t, d),
            d * d * d,
        ),
{
    let m = hue_share_num(t, d);
    let dr = d as real;
    lemma_real_of_product(d, d);
    lemma_real_of_product(d * d, d);
    lemma_real_of_product(p, d);
    lemma_real_of_product(q - p, m);
    lemma_hue_channel_is_blend(fraction(p, d * d), fraction(q, d * d), fraction(t, 3 * d));
    lemma_hue_share_num(t, d);
    lemma_blend(p as real, q as real, m as real, dr);
}

/// `intensity_byte_num` is `intensity_byte` on a fraction.
pub proof fn lemma_intensity_byte_num(num: int, den: int)
    requires
        den > 0,
    ensures
        intensity_byte(fraction(num, den)) == intensity_byte_num(num, den),
{
    let x = fraction(num, den);
    let y = x * 255real;
    lemma_quotient_below(num as real, den as real, 0real);
    lemma_quotient_below(num as real, den as real, 1real);
    lemma_round_outside(y);
    if num <= 0 {
        assert(y <= 0real);
    } else if num >= den {
        assert(y >= 255real);
    } else {
        assert(0real < y < 255real);
        lemma_round_of_fraction(num, den);
        lemma_round_inside(y);
    }
}

/// 255 times a fraction strictly between 0 and 1, rounded, is a byte.
pub(crate) proof fn lemma_rounded_is_byte(num: int, den: int)
    requires
        0 < num < den,
    ensures
        0 <= (510 * num + den) / (2 * den) <= 255,
{
    lemma_quotient_range(510 * num + den, 2 * den, 0, 255);
}

/// An integer quotient lies between `low` and `high` where the dividend lies
/// between their multiples of the divisor.
proof fn lemma_quotient_range(a: int, b: int, low: int, high: int)
    requires
        b > 0,
        low * b <= a < (high + 1) * b,
    ensures
        low <= a / b <= high,
{
    let k = a / b;
    vstd::arithmetic::div_mod::lemma_fundamental_div_mod(a, b);
    vstd::arithmetic::div_mod::lemma_mod_bound(a, b);
    vstd::arithmetic::mul::lemma_mul_is_commutative(b, k);
    if k < low {
        vstd::arithmetic::mul::lemma_mul_inequality(k + 1, low, b);
        vstd::arithmetic::mul::lemma_mul_is_distributive_add_other_way(b, k, 1);
    }
    if k > high {
        vstd::arithmetic::mul::lemma_mul_inequality(high + 1, k, b);
    }
}

/// The cube of a positive integer is positive.
proof fn lemma_cube_positive(d: int)
    requires
        d > 0,
    ensures
        d * d > 0,
        d * d * d > 0,
{
    vstd::arithmetic::mul::lemma_mul_strictly_positive(d, d);
    vstd::arithmetic::mul::lemma_mul_strictly_positive(d * d, d);
}

/// How far a channel is on its way from the lower to the upper level at the
/// position `t` on the hue circle: 0 at the lower level, 1 at the upper.
spec fn hue_share(t: real) -> real {
    let t = if t < 0real { t + 1real } else { t };
    let t = if t > 1real { t - 1real } else { t };
    if t < 1real / 6real {
        6real * t
    } else if t < 1real / 2real {
        1real
    } else if t < 2real / 3real {
        (2real / 3real - t) * 6real
    } else {
        0real
    }
}

/// A channel is the lower level, raised by its share of the way to the upper.
proof fn lemma_hue_channel_is_blend(p: real, q: real, t: real)
    ensures
        hue_channel(p, q, t) == p + (q - p) * hue_share(t),
{
    let t1 = if t < 0real { t + 1real } else { t };
    let t2 = if t1 > 1real { t1 - 1real } else { t1 };
    lemma_product_regrouped(q - p, 6real, t2);
    lemma_product_regrouped(q - p, 2real / 3real - t2, 6real);
}

/// `hue_share` at the position `t / (3 * d)`, times `d`.
spec fn hue_share_scaled(t: real, d: real) -> real {
    let t = if t < 0real { t + 3real * d } else { t };
    let t = if t > 3real * d { t - 3real * d } else { t };
    if 2real * t < d {
        2real * t
    } else if 2real * t < 3real * d {
        d
    } else if t < 2real * d {
        4real * d - 2real * t
    } else {
        0real
    }
}

/// `hue_share_scaled` is `hue_share` times `d`.
proof fn lemma_hue_share_scaled(t: real, d: real)
    requires
        d > 0real,
    ensures
        hue_share(t / (3real * d)) == hue_share_scaled(t, d) / d,
{
    let t1 = if t < 0real { t + 3real * d } else { t };
    let t2 = if t1 > 3real * d { t1 - 3real * d } else { t1 };
    let x = t / (3real * d);
    let x1 = if x < 0real { x + 1real } else { x };
    let x2 = if x1 > 1real { x1 - 1real } else { x1 };
    lemma_turn(t, d);
    assert(x1 == t1 / (3real * d));
    lemma_turn(t1, d);
    assert(x2 == t2 / (3real * d));
    lemma_turn(t2, d);
    lemma_shares(t2, d);
}

/// `hue_share_num` computes in integers what `hue_share_scaled` computes in
/// real numbers.
proof fn lemma_hue_share_num_real(t: int, d: int)
    ensures
        hue_share_num(t, d) as real == hue_share_scaled(t as real, d as real),
{
}

/// `hue_share_num` is the numerator of `hue_share` on a fraction.
proof fn lemma_hue_share_num(t: int, d: int)
    requires
        d > 0,
    ensures
        hue_share(fraction(t, 3 * d)) == fraction(hue_share_num(t, d), d),
{
    lemma_hue_share_num_real(t, d);
    lemma_hue_share_scaled(t as real, d as real);
}

/// Where the position `t / (3 * d)` lies on the hue circle, read off `t` and
/// `d`, and the same position one full turn further or back.
proof fn lemma_turn(t: real, d: real)
    requires
        d > 0real,
    ensures
        (t / (3real * d) < 0real) == (t < 0real),
        (t / (3real * d) > 1real) == (t > 3real * d),
        (t / (3real * d) < 1real / 6real) == (2real * t < d),
        (t / (3real * d) < 1real / 2real) == (2real * t < 3real * d),
        (t / (3real * d) < 2real / 3real) == (t < 2real * d),
        t / (3real * d) + 1real == (t + 3real * d) / (3real * d),
        t / (3real * d) - 1real == (t - 3real * d) / (3real * d),
{
    let e = 3real * d;
    let x = t / e;
    lemma_quotient_below(t, e, 0real);
    lemma_quotient_below(t, e, 1real);
    lemma_quotient_below(t, e, 1real / 6real);
    lemma_quotient_below(t, e, 1real / 2real);
    lemma_quotient_below(t, e, 2real / 3real);
    lemma_quotient(t, e);
    lemma_turn_scaled(x, e);
    lemma_quotient_unique(x + 1real, t + e, e);
    lemma_quotient_unique(x - 1real, t - e, e);
}

/// How a position one full turn further, or back, scales.
proof fn lemma_turn_scaled(x: real, e: real)
    ensures
        (x + 1real) * e == x * e + e,
        (x - 1real) * e == x * e - e,
{
    assert((x + 1real) * e == x * e + e) by (nonlinear_arith);
    assert((x - 1real) * e == x * e - e) by (nonlinear_arith);
}

/// The share of the way from the lower to the upper level at the position `t / (3 * d)`,
/// on each of the four arcs, as a quotient by `d`.
proof fn lemma_shares(t: real, d: real)
    requires
        d > 0real,
    ensures
        6real * (t / (3real * d)) == (2real * t) / d,
        1real == d / d,
        (2real / 3real - t / (3real * d)) * 6real == (4real * d - 2real * t) / d,
        0real == 0real / d,
{
    let x = t / (3real * d);
    lemma_quotient(t, 3real * d);
    lemma_shares_scaled(x, d);
    lemma_quotient_unique(6real * x, 2real * t, d);
    lemma_quotient_unique(1real, d, d);
    lemma_quotient_unique((2real / 3real - x) * 6real, 4real * d - 2real * t, d);
    lemma_quotient_unique(0real, 0real, d);
}

/// The shares of the rise and of the fall at the position `x`, times `d`.
proof fn lemma_shares_scaled(x: real, d: real)
    ensures
        (6real * x) * d == 2real * (x * (3real * d)),
        ((2real / 3real - x) * 6real) * d == 4real * d - 2real * (x * (3real * d)),
{
    assert((6real * x) * d == 2real * (x * (3real * d))) by (nonlinear_arith);
    assert(((2real / 3real - x) * 6real) * d == 4real * d - 2real * (x * (3real * d)))
        by (nonlinear_arith);
}

/// A lower level `p / (d * d)` raised by the share `m / d` of the way up to
/// the upper level `q / (d * d)`, as one quotient by `d * d * d`.
proof fn lemma_blend(p: real, q: real, m: real, d: real)
    requires
        d > 0real,
    ensures
        p / (d * d) + (q / (d * d) - p / (d * d)) * (m / d) == (p * d + (q - p) * m) / (d * d * d),
{
    let a = p / (d * d);
    let b = q / (d * d);
    let k = m / d;
    lemma_powers_positive(d);
    lemma_quotient(p, d * d);
    lemma_quotient(q, d * d);
    lemma_quotient(m, d);
    lemma_blend_scaled(a, b, k, d);
    assert((a * (d * d)) * d == p * d);
    assert((b * (d * d) - a * (d * d)) * (k * d) == (q - p) * m);
    lemma_quotient_unique(a + (b - a) * k, p * d + (q - p) * m, d * d * d);
}

/// How a blend of `a` and `b` by the share `k` scales with the cube of `d`.
proof fn lemma_blend_scaled(a: real, b: real, k: real, d: real)
    ensures
        (a + (b - a) * k) * (d * d * d) == (a * (d * d)) * d + (b * (d * d) - a * (d * d)) * (k
            * d),
{
    let e = d * d;
    let cube = e * d;
    let span = b - a;
    lemma_sum_times(a, span * k, cube);
    lemma_product_regrouped(a, e, d);
    assert(a * cube == (a * e) * d);
    lemma_product_regrouped(span, k, cube);
    lemma_product_regrouped(k, e, d);
    lemma_product_swapped(k, e);
    lemma_product_regrouped(e, k, d);
    assert(k * cube == e * (k * d));
    lemma_product_regrouped(span, e, k * d);
    assert((span * k) * cube == (span * e) * (k * d));
    lemma_difference_times(b, a, e);
}

/// `channel_byte_num` is the 8-bit intensity of `hue_channel` on fractions.
proof fn lemma_channel_byte_num(p: int, q: int, t: int, d: int)
    requires
        d > 0,
    ensures
        intensity_byte(hue_channel(fraction(p, d * d), fraction(q, d * d), fraction(t, 3 * d)))
            == channel_byte_num(p, q, t, d),
{
    lemma_cube_positive(d);
    lemma_hue_channel_num(p, q, t, d);
    lemma_intensity_byte_num(hue_channel_num(p, q, t, d), d * d * d);
}

/// Rounding does not cross an integer: what lies at or below 0 stays there,
/// and what lies at or above 255 stays there.
proof fn lemma_round_outside(y: real)
    ensures
        y <= 0real ==> round_half_away(y) <= 0,
        y >= 255real ==> round_half_away(y) >= 255,
{
}

/// Rounding does not cross an integer: what lies between 0 and 255 stays
/// there.
proof fn lemma_round_inside(y: real)
    requires
        0real <= y <= 255real,
    ensures
        0 <= round_half_away(y) <= 255,
{
}

/// Rounding 255 times a fraction that is not negative, in integers.
proof fn lemma_round_of_fraction(num: int, den: int)
    requires
        den > 0,
        num >= 0,
    ensures
        round_half_away(fraction(num, den) * 255real) == (510 * num + den) / (2 * den),
{
    let y = fraction(num, den) * 255real;
    lemma_quotient_below(num as real, den as real, 0real);
    assert(y >= 0real);
    lemma_half_more(num, den);
    lemma_floor_of_fraction(510 * num + den, 2 * den);
}

/// 255 times a fraction, and a half more, as one fraction.
proof fn lemma_half_more(num: int, den: int)
    requires
        den > 0,
    ensures
        fraction(num, den) * 255real + 1real / 2real == fraction(510 * num + den, 2 * den),
{
    let nr = num as real;
    let dr = den as real;
    let x = nr / dr;
    lemma_quotient(nr, dr);
    lemma_round_scaled(x, dr);
    lemma_quotient_unique(x * 255real + 1real / 2real, 510real * nr + dr, 2real * dr);
}

/// How `x * 255 + 1 / 2` scales with twice `d`.
proof fn lemma_round_scaled(x: real, d: real)
    ensures
        (x * 255real + 1real / 2real) * (2real * d) == 510real * (x * d) + d,
{
    assert((x * 255real + 1real / 2real) * (2real * d) == 510real * (x * d) + d)
        by (nonlinear_arith);
}

/// `upper_level` for the saturation `s / d` and the lightness `l / d`, times
/// the square of `d`.
spec fn upper_level_scaled(s: real, l: real, d: real) -> real {
    if 2real * l < d {
        l * (d + s)
    } else {
        l * d + s * d - l * s
    }
}

/// `upper_level_scaled` is `upper_level` times the square of `d`, and the
/// lower level follows from it.
proof fn lemma_levels_scaled(s: real, l: real, d: real)
    requires
        d > 0real,
    ensures
        upper_level(s / d, l / d) == upper_level_scaled(s, l, d) / (d * d),
        lower_level(s / d, l / d) == (2real * (l * d) - upper_level_scaled(s, l, d)) / (d * d),
{
    let e = d * d;
    lemma_powers_positive(d);
    lemma_quotient_below(l, d, 1real / 2real);
    if 2real * l < d {
        lemma_quotient_unique(1real, d, d);
        lemma_quotient_sum(d, s, d);
        assert(1real + s / d == (d + s) / d);
        lemma_quotient_product(l, d + s, d);
    } else {
        lemma_quotient_expanded(l, d);
        lemma_quotient_expanded(s, d);
        lemma_quotient_product(l, s, d);
        lemma_quotient_sum(l * d, s * d, e);
        lemma_quotient_difference(l * d + s * d, l * s, e);
    }
    assert(upper_level(s / d, l / d) == upper_level_scaled(s, l, d) / e);
    lemma_quotient_expanded(l, d);
    lemma_quotient_multiple(2real, l * d, e);
    lemma_quotient_difference(2real * (l * d), upper_level_scaled(s, l, d), e);
}

/// The level numerators compute in integers what `upper_level_scaled` computes
/// in real numbers.
proof fn lemma_levels_num_real(s: int, l: int, d: int)
    ensures
        upper_level_num(s, l, d) as real == upper_level_scaled(s as real, l as real, d as real),
        lower_level_num(s, l, d) as real == 2real * (l as real * d as real) - upper_level_scaled(
            s as real,
            l as real,
            d as real,
        ),
{
    lemma_real_of_product(l, d + s);
    lemma_real_of_product(l, d);
    lemma_real_of_product(s, d);
    lemma_real_of_product(l, s);
}

/// The positions of red, green and blue for the hue `h / d`, as fractions.
proof fn lemma_positions_num(h: int, d: int)
    requires
        d > 0,
    ensures
        fraction(h, d) + 1real / 3real == fraction(3 * h + d, 3 * d),
        fraction(h, d) == fraction(3 * h, 3 * d),
        fraction(h, d) - 1real / 3real == fraction(3 * h - d, 3 * d),
{
    lemma_positions(h as real, d as real);
}

/// The positions of red, green and blue for the hue `h / d`, as quotients by
/// `3 * d`.
proof fn lemma_positions(h: real, d: real)
    requires
        d > 0real,
    ensures
        h / d + 1real / 3real == (3real * h + d) / (3real * d),
        h / d == (3real * h) / (3real * d),
        h / d - 1real / 3real == (3real * h - d) / (3real * d),
{
    let x = h / d;
    lemma_quotient(h, d);
    lemma_thirds_scaled(x, d);
    lemma_quotient_unique(x + 1real / 3real, 3real * h + d, 3real * d);
    lemma_quotient_unique(x, 3real * h, 3real * d);
    lemma_quotient_unique(x - 1real / 3real, 3real * h - d, 3real * d);
}

/// How a position a third of a turn further, or back, scales.
proof fn lemma_thirds_scaled(x: real, d: real)
    ensures
        (x + 1real / 3real) * (3real * d) == 3real * (x * d) + d,
        x * (3real * d) == 3real * (x * d),
        (x - 1real / 3real) * (3real * d) == 3real * (x * d) - d,
{
    assert((x + 1real / 3real) * (3real * d) == 3real * (x * d) + d) by (nonlinear_arith);
    assert(x * (3real * d) == 3real * (x * d)) by (nonlinear_arith);
    assert((x - 1real / 3real) * (3real * d) == 3real * (x * d) - d) by (nonlinear_arith);
}

} // verus!
