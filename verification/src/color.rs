//! Pure arithmetic on 4-channel byte colors.
//!
//! Blend weights are exact fractions `num / den` (the alpha value), so every
//! operation here is defined by exact integer arithmetic, rounded toward zero.

use vstd::prelude::*;
use vstd::arithmetic::div_mod::{
    lemma_div_is_ordered, lemma_div_multiples_vanish, lemma_div_pos_is_pos,
};
use vstd::arithmetic::mul::{
    lemma_mul_inequality, lemma_mul_left_inequality, lemma_mul_nonnegative, lemma_mul_upper_bound,
};

verus! {

/// A color: red, green, blue and alpha channels, one byte each.
/// Equality is exact byte equality.
pub type Color = (u8, u8, u8, u8);

/// One blended channel: the mean of `c1` and `c2` weighted by the effective
/// alpha `(num * a2) / (den * 255)`, where `a2` is the alpha channel of the
/// incoming color, rounded toward zero.
pub open spec fn blend_channel(c1: int, c2: int, a2: int, num: int, den: int) -> int {
    ((den * 255 - num * a2) * c1 + num * a2 * c2) / (den * 255)
}

/// The blend of `c1` and `c2` at alpha `num / den`: the weight of `c2` is
/// scaled by `c2`'s own alpha channel, and the output alpha is forced to 255.
pub open spec fn spec_color_blend(c1: Color, c2: Color, num: int, den: int) -> Color {
    (
        blend_channel(c1.0 as int, c2.0 as int, c2.3 as int, num, den) as u8,
        blend_channel(c1.1 as int, c2.1 as int, c2.3 as int, num, den) as u8,
        blend_channel(c1.2 as int, c2.2 as int, c2.3 as int, num, den) as u8,
        255u8,
    )
}

/// Each blended channel stays within `[0, 255]`.
pub proof fn lemma_blend_channel_bounds(c1: int, c2: int, a2: int, num: int, den: int)
    requires
        0 <= c1 <= 255,
        0 <= c2 <= 255,
        0 <= a2 <= 255,
        0 <= num <= den,
        1 <= den,
    ensures
        0 <= blend_channel(c1, c2, a2, num, den) <= 255,
{
    let wn = num * a2;
    let wd = den * 255;
    assert(0 <= wn <= wd) by (nonlinear_arith)
        requires
            wn == num * a2,
            wd == den * 255,
            0 <= num <= den,
            0 <= a2 <= 255,
            1 <= den,
    ;
    let t = (wd - wn) * c1 + wn * c2;
    assert(0 <= t && t <= wd * 255) by (nonlinear_arith)
        requires
            t == (wd - wn) * c1 + wn * c2,
            0 <= wn <= wd,
            0 <= c1 <= 255,
            0 <= c2 <= 255,
    ;
    lemma_div_pos_is_pos(t, wd);
    lemma_div_is_ordered(t, wd * 255, wd);
    lemma_div_multiples_vanish(255, wd);
}

fn blend_channel_exec(c1: u8, c2: u8, a2: u8, num: u32, den: u32) -> (r: u8)
    requires
        1 <= den,
        num <= den,
    ensures
        r == blend_channel(c1 as int, c2 as int, a2 as int, num as int, den as int),
{
    proof {
        lemma_blend_channel_bounds(c1 as int, c2 as int, a2 as int, num as int, den as int);
        lemma_mul_upper_bound(num as int, u32::MAX as int, a2 as int, 255);
        lemma_mul_upper_bound(den as int, u32::MAX as int, 255, 255);
        lemma_mul_inequality(num as int, den as int, a2 as int);
        lemma_mul_left_inequality(den as int, a2 as int, 255);
    }
    let wn: u64 = (num as u64) * (a2 as u64);
    let wd: u64 = (den as u64) * 255;
    proof {
        lemma_mul_upper_bound(wd - wn, wd as int, c1 as int, 255);
        lemma_mul_upper_bound(wn as int, wd as int, c2 as int, 255);
        lemma_mul_upper_bound(wd as int, 0xff_ffff_ff01, 255, 255);
        lemma_mul_nonnegative(wd - wn, c1 as int);
        lemma_mul_nonnegative(wn as int, c2 as int);
    }
    let t: u64 = (wd - wn) * (c1 as u64) + wn * (c2 as u64);
    (t / wd) as u8
}

/// Blend `c2` over `c1` at alpha `num / den` (a fraction between 0 and 1).
/// The effective weight of `c2` is further scaled by `c2`'s own alpha
/// channel, so a fully transparent `c2` leaves `c1`'s channels unchanged
/// even at alpha 1. The output alpha is always 255.
pub fn color_blend(c1: Color, c2: Color, num: u32, den: u32) -> (r: Color)
    requires
        1 <= den,
        num <= den,
    ensures
        r == spec_color_blend(c1, c2, num as int, den as int),
{
    (
        blend_channel_exec(c1.0, c2.0, c2.3, num, den),
        blend_channel_exec(c1.1, c2.1, c2.3, num, den),
        blend_channel_exec(c1.2, c2.2, c2.3, num, den),
        255,
    )
}

/// At alpha 0 a blend returns `c1`'s red, green and blue channels exactly.
pub proof fn lemma_blend_zero(c1: Color, c2: Color, den: int)
    requires
        1 <= den,
    ensures
        spec_color_blend(c1, c2, 0, den) == (c1.0, c1.1, c1.2, 255u8),
{
    let wd = den * 255;
    lemma_mul_inequality(1, den, 255);
    assert(wd >= 255);
    lemma_div_multiples_vanish(c1.0 as int, wd);
    lemma_div_multiples_vanish(c1.1 as int, wd);
    lemma_div_multiples_vanish(c1.2 as int, wd);
    assert(0 * (c2.3 as int) == 0);
    assert(blend_channel(c1.0 as int, c2.0 as int, c2.3 as int, 0, den)
        == (wd * (c1.0 as int) + 0) / wd);
    assert(blend_channel(c1.0 as int, c2.0 as int, c2.3 as int, 0, den) == c1.0 as int);
    assert(blend_channel(c1.1 as int, c2.1 as int, c2.3 as int, 0, den) == c1.1 as int);
    assert(blend_channel(c1.2 as int, c2.2 as int, c2.3 as int, 0, den) == c1.2 as int);
}

/// At alpha 1, blending an incoming color whose own alpha is 255 returns
/// its red, green and blue channels exactly.
pub proof fn lemma_blend_full(c1: Color, c2: Color, den: int)
    requires
        1 <= den,
        c2.3 == 255,
    ensures
        spec_color_blend(c1, c2, den, den) == (c2.0, c2.1, c2.2, 255u8),
{
    let wd = den * 255;
    lemma_mul_inequality(1, den, 255);
    lemma_div_multiples_vanish(c2.0 as int, wd);
    lemma_div_multiples_vanish(c2.1 as int, wd);
    lemma_div_multiples_vanish(c2.2 as int, wd);
}

/// The scale of a color: red, green and blue multiplied by `num / den` and
/// clamped to 255; alpha unchanged.
pub open spec fn spec_color_scale(c: Color, num: int, den: int) -> Color {
    (
        vstd::math::min((c.0 * num) / den, 255) as u8,
        vstd::math::min((c.1 * num) / den, 255) as u8,
        vstd::math::min((c.2 * num) / den, 255) as u8,
        c.3,
    )
}

fn scale_channel_exec(c: u8, num: u32, den: u32) -> (r: u8)
    requires
        1 <= den,
    ensures
        r == vstd::math::min((c as int * num as int) / den as int, 255),
{
    proof {
        lemma_mul_upper_bound(c as int, 255, num as int, u32::MAX as int);
        lemma_mul_nonnegative(c as int, num as int);
        lemma_div_pos_is_pos(c as int * num as int, den as int);
    }
    let t: u64 = (c as u64) * (num as u64);
    let q: u64 = t / (den as u64);
    if q > 255 {
        255
    } else {
        q as u8
    }
}

/// Multiply the red, green and blue channels of `c` by `num / den`,
/// clamping at 255; the alpha channel is kept.
pub fn color_scale(c: Color, num: u32, den: u32) -> (r: Color)
    requires
        1 <= den,
    ensures
        r == spec_color_scale(c, num as int, den as int),
{
    (
        scale_channel_exec(c.0, num, den),
        scale_channel_exec(c.1, num, den),
        scale_channel_exec(c.2, num, den),
        c.3,
    )
}

/// The channelwise product `c1 * c2 / 255` on red, green and blue;
/// alpha forced to 255.
pub open spec fn spec_color_mul(c1: Color, c2: Color) -> Color {
    (
        ((c1.0 * c2.0) / 255) as u8,
        ((c1.1 * c2.1) / 255) as u8,
        ((c1.2 * c2.2) / 255) as u8,
        255u8,
    )
}

fn mul_channel_exec(a: u8, b: u8) -> (r: u8)
    ensures
        r == (a as int * b as int) / 255,
{
    proof {
        lemma_mul_upper_bound(a as int, 255, b as int, 255);
        lemma_mul_nonnegative(a as int, b as int);
        lemma_div_pos_is_pos(a as int * b as int, 255);
        lemma_div_is_ordered(a as int * b as int, 65025, 255);
    }
    ((a as u32 * b as u32) / 255) as u8
}

/// Channelwise multiply of two colors, used for light-modulation effects.
pub fn color_mul(c1: Color, c2: Color) -> (r: Color)
    ensures
        r == spec_color_mul(c1, c2),
{
    (
        mul_channel_exec(c1.0, c2.0),
        mul_channel_exec(c1.1, c2.1),
        mul_channel_exec(c1.2, c2.2),
        255,
    )
}

/// The exact 50/50 mean of two colors on all four channels,
/// rounded toward zero.
pub open spec fn spec_color_add(c1: Color, c2: Color) -> Color {
    (
        ((c1.0 + c2.0) / 2) as u8,
        ((c1.1 + c2.1) / 2) as u8,
        ((c1.2 + c2.2) / 2) as u8,
        ((c1.3 + c2.3) / 2) as u8,
    )
}

/// Average two colors, channel by channel, alpha included.
pub fn color_add(c1: Color, c2: Color) -> (r: Color)
    ensures
        r == spec_color_add(c1, c2),
{
    (
        ((c1.0 as u32 + c2.0 as u32) / 2) as u8,
        ((c1.1 as u32 + c2.1 as u32) / 2) as u8,
        ((c1.2 as u32 + c2.2 as u32) / 2) as u8,
        ((c1.3 as u32 + c2.3 as u32) / 2) as u8,
    )
}

/// The squared distance between two colors over red, green and blue only:
/// a perceptual proximity heuristic, not a display value, so alpha is
/// excluded.
pub open spec fn spec_color_dist(c1: Color, c2: Color) -> int {
    (c1.0 - c2.0) * (c1.0 - c2.0) + (c1.1 - c2.1) * (c1.1 - c2.1) + (c1.2 - c2.2) * (c1.2 - c2.2)
}

/// Squared red-green-blue distance between two colors.
pub fn color_dist(c1: Color, c2: Color) -> (r: i32)
    ensures
        r == spec_color_dist(c1, c2),
{
    let dr: i32 = c1.0 as i32 - c2.0 as i32;
    let dg: i32 = c1.1 as i32 - c2.1 as i32;
    let db: i32 = c1.2 as i32 - c2.2 as i32;
    assert(0 <= dr * dr <= 65025 && 0 <= dg * dg <= 65025 && 0 <= db * db <= 65025)
        by (nonlinear_arith)
        requires
            -255 <= dr <= 255,
            -255 <= dg <= 255,
            -255 <= db <= 255,
    ;
    dr * dr + dg * dg + db * db
}

} // verus!
