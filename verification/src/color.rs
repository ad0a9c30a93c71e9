//! Conversion of a colour given by hue, saturation and lightness into 8-bit
//! red, green and blue intensities.
//!
//! The conversion is specified over the real numbers. The executable code takes
//! each component as an exact fraction and computes with integers only, so its
//! result is the specified one on every input, with no rounding drift.

use crate::fractions::{fraction, lemma_equal_fractions, lemma_product_bounded};
use crate::numerators::{
    hsl_color_num, hue_channel_num, hue_share_num, intensity_byte_num, lemma_hsl_color_num,
    lemma_intensity_byte_num, lemma_rounded_is_byte, lower_level_num, upper_level_num,
};
use vstd::prelude::*;

verus! {

/// The intensity of one channel, between the lower level `p` and the upper
/// level `q` of the colour, at the position `t` on the hue circle.
///
/// `t` is brought back into the circle by at most one full turn. The circle is
/// cut in four arcs: a rise from `p` to `q`, a plateau at `q`, a fall back to
/// `p`, and a plateau at `p`.
pub open spec fn hue_channel(p: real, q: real, t: real) -> real {
    let t = if t < 0real { t + 1real } else { t };
    let t = if t > 1real { t - 1real } else { t };
    if t < 1real / 6real {
        p + (q - p) * 6real * t
    } else if t < 1real / 2real {
        q
    } else if t < 2real / 3real {
        p + (q - p) * (2real / 3real - t) * 6real
    } else {
        p
    }
}

/// The integer nearest to `x`; a tie goes away from zero.
pub open spec fn round_half_away(x: real) -> int {
    if x >= 0real {
        (x + 1real / 2real).floor()
    } else {
        -((1real / 2real - x).floor())
    }
}

/// The 8-bit intensity for the real intensity `x`: `x * 255` rounded to the
/// nearest integer, and kept within `0..=255`.
pub open spec fn intensity_byte(x: real) -> u8 {
    let n = round_half_away(x * 255real);
    if n < 0 {
        0u8
    } else if n > 255 {
        255u8
    } else {
        n as u8
    }
}

/// The level that the strongest channel of a colour reaches, for the
/// saturation `s` and the lightness `l`.
pub open spec fn upper_level(s: real, l: real) -> real {
    if l < 1real / 2real {
        l * (1real + s)
    } else {
        l + s - l * s
    }
}

/// The level that the weakest channel of a colour keeps: as far below the
/// lightness as the upper level is above it.
pub open spec fn lower_level(s: real, l: real) -> real {
    2real * l - upper_level(s, l)
}

/// The red, green and blue intensities of the colour with hue `h`, saturation
/// `s` and lightness `l`, each a fraction of its full range.
///
/// Without saturation the colour is the gray of its lightness, whatever the
/// hue. Otherwise red, green and blue are a third of the hue circle apart.
pub open spec fn hsl_color(h: real, s: real, l: real) -> (u8, u8, u8) {
    if s == 0real {
        let gray = intensity_byte(l);
        (gray, gray, gray)
    } else {
        let q = upper_level(s, l);
        let p = lower_level(s, l);
        (
            intensity_byte(hue_channel(p, q, h + 1real / 3real)),
            intensity_byte(hue_channel(p, q, h)),
            intensity_byte(hue_channel(p, q, h - 1real / 3real)),
        )
    }
}

/// Without saturation, a colour is the gray of its lightness, whatever its
/// hue.
pub proof fn lemma_gray_without_saturation(h: real, l: real)
    ensures
        hsl_color(h, 0real, l) == (intensity_byte(l), intensity_byte(l), intensity_byte(l)),
{
}

/// A colour depends on the hue, the saturation and the lightness alone, not on
/// the scale in which they are written: where two triples of numerators stand
/// for the same three fractions, they give the same colour.
pub proof fn lemma_same_fractions_same_color(
    h1: int,
    s1: int,
    l1: int,
    scale1: int,
    h2: int,
    s2: int,
    l2: int,
    scale2: int,
)
    requires
        scale1 > 0,
        scale2 > 0,
        h1 * scale2 == h2 * scale1,
        s1 * scale2 == s2 * scale1,
        l1 * scale2 == l2 * scale1,
    ensures
        hsl_color_num(h1, s1, l1, scale1) == hsl_color_num(h2, s2, l2, scale2),
{
    lemma_equal_fractions(h1, scale1, h2, scale2);
    lemma_equal_fractions(s1, scale1, s2, scale2);
    lemma_equal_fractions(l1, scale1, l2, scale2);
    lemma_hsl_color_num(h1, s1, l1, scale1);
    lemma_hsl_color_num(h2, s2, l2, scale2);
}

/// The 8-bit intensity for the intensity `num / den`.
fn intensity(num: i128, den: i128) -> (byte: u8)
    requires
        0 < den <= 0x1_0000_0000_0000_0000_0000_0000,
    ensures
        byte == intensity_byte_num(num as int, den as int),
{
    if num <= 0 {
        0
    } else if num >= den {
        255
    } else {
        proof {
            lemma_rounded_is_byte(num as int, den as int);
        }
        ((510 * num + den) / (2 * den)) as u8
    }
}

/// The intensity of one channel, in exact arithmetic.
///
/// The lower level of the colour is `p / (scale * scale)`, its upper level
/// `q / (scale * scale)`, and the position on the hue circle
/// `t / (3 * scale)`. The result is the numerator of the intensity over the
/// cube of `scale`.
fn hue_to_rgb(p: i128, q: i128, t: i128, scale: u32) -> (c: i128)
    requires
        scale > 0,
        -0x4_0000_0000_0000_0000 <= p <= 0x4_0000_0000_0000_0000,
        -0x4_0000_0000_0000_0000 <= q <= 0x4_0000_0000_0000_0000,
        -0x4_0000_0000 <= t <= 0x4_0000_0000,
    ensures
        c == hue_channel_num(p as int, q as int, t as int, scale as int),
{
    let d: i128 = scale as i128;
    let turn: i128 = 3 * d;
    let t1: i128 = if t < 0 { t + turn } else { t };
    let t2: i128 = if t1 > turn { t1 - turn } else { t1 };
    let share: i128 = if 2 * t2 < d {
        2 * t2
    } else if 2 * t2 < turn {
        d
    } else if t2 < 2 * d {
        4 * d - 2 * t2
    } else {
        0
    };
    assert(share == hue_share_num(t as int, d as int));
    let span: i128 = q - p;
    proof {
        lemma_product_bounded(p as int, d as int, 0x4_0000_0000_0000_0000, 0x1_0000_0000);
        lemma_product_bounded(span as int, share as int, 0x8_0000_0000_0000_0000, 0x8_0000_0000);
    }
    p * d + span * share
}

/// The lower and the upper level of a colour, in exact arithmetic: the
/// numerators over `scale * scale` for the saturation `s / scale` and the lightness
/// `l / scale`.
fn levels(s: i32, l: i32, scale: u32) -> (levels: (i128, i128))
    requires
        scale > 0,
    ensures
        levels.0 == lower_level_num(s as int, l as int, scale as int),
        levels.1 == upper_level_num(s as int, l as int, scale as int),
        -0x4_0000_0000_0000_0000 <= levels.0 <= 0x4_0000_0000_0000_0000,
        -0x4_0000_0000_0000_0000 <= levels.1 <= 0x4_0000_0000_0000_0000,
{
    let d: i128 = scale as i128;
    let s: i128 = s as i128;
    let l: i128 = l as i128;
    proof {
        lemma_product_bounded(l as int, d + s, 0x8000_0000, 0x2_0000_0000);
        lemma_product_bounded(l as int, d as int, 0x8000_0000, 0x1_0000_0000);
        lemma_product_bounded(s as int, d as int, 0x8000_0000, 0x1_0000_0000);
        lemma_product_bounded(l as int, s as int, 0x8000_0000, 0x8000_0000);
    }
    let q: i128 = if 2 * l < d {
        l * (d + s)
    } else {
        l * d + s * d - l * s
    };
    let p: i128 = 2 * (l * d) - q;
    (p, q)
}

/// The cube of `scale`.
fn cube(scale: u32) -> (c: i128)
    requires
        scale > 0,
    ensures
        c == scale * scale * scale,
        0 < c <= 0x1_0000_0000_0000_0000_0000_0000,
{
    let d: i128 = scale as i128;
    proof {
        lemma_product_bounded(d as int, d as int, 0x1_0000_0000, 0x1_0000_0000);
        lemma_product_bounded(d * d, d as int, 0x1_0000_0000_0000_0000, 0x1_0000_0000);
        vstd::arithmetic::mul::lemma_mul_strictly_positive(d as int, d as int);
        vstd::arithmetic::mul::lemma_mul_strictly_positive(d * d, d as int);
    }
    d * d * d
}

/// The red, green and blue intensities of the colour with the hue
/// `h / scale`, the saturation `s / scale` and the lightness `l / scale`.
///
/// Each component is a fraction of its full range, so `scale` stands for a
/// full turn of the hue, full saturation and white. The result is a function
/// of the three fractions alone: equal arguments give equal colours. Without
/// saturation it is a gray, whatever the hue.
///
/// The colour is that of the model over the real numbers. It is also stated
/// on the numerators, in integers, for callers that want to compute it.
pub fn hsl_to_rgb(h: i32, s: i32, l: i32, scale: u32) -> (rgb: (u8, u8, u8))
    requires
        scale > 0,
    ensures
        rgb == hsl_color(
            fraction(h as int, scale as int),
            fraction(s as int, scale as int),
            fraction(l as int, scale as int),
        ),
        rgb == hsl_color_num(h as int, s as int, l as int, scale as int),
        s == 0 ==> rgb.0 == intensity_byte(fraction(l as int, scale as int)) && rgb.1 == rgb.0
            && rgb.2 == rgb.0,
{
    proof {
        lemma_hsl_color_num(h as int, s as int, l as int, scale as int);
        lemma_intensity_byte_num(l as int, scale as int);
    }
    let d: i128 = scale as i128;
    if s == 0 {
        let gray = intensity(l as i128, d);
        (gray, gray, gray)
    } else {
        let (p, q) = levels(s, l, scale);
        let den = cube(scale);
        let turn: i128 = 3 * (h as i128);
        let r = intensity(hue_to_rgb(p, q, turn + d, scale), den);
        let g = intensity(hue_to_rgb(p, q, turn, scale), den);
        let b = intensity(hue_to_rgb(p, q, turn - d, scale), den);
        (r, g, b)
    }
}

} // verus!
