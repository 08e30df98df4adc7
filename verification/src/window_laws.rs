//! How many pixels a window covers once its edges are rounded.
//!
//! A window is given by its middle and half of its extent. Its edges are computed in single
//! precision and then rounded to whole pixels; together the two roundings never cost or add more
//! than a pixel.
use crate::float32::{one, round_magnitude, steps, Float32, HIDDEN};
use crate::float_laws::{
    differences_are_close, distance, lemma_negation, rounding_is_nearest, rounding_keeps_sides,
    short_significands_are_exact, sums_are_close,
};
use vstd::arithmetic::div_mod::*;
use vstd::arithmetic::mul::*;
use vstd::arithmetic::power2::*;
use vstd::prelude::*;

verus! {

/// The steps of the number nearest to `x` steps.
spec fn nearest(x: nat) -> nat {
    steps(round_magnitude(x, 1))
}

/// Rounding to single precision does not carry a number across one that is exact.
proof fn lemma_stays_on_its_side(x: nat, k: nat, e: nat)
    requires
        k <= 0x100_0000,
        e <= 200,
    ensures
        x <= k * pow2(e) ==> nearest(x) <= k * pow2(e),
        k * pow2(e) <= x ==> k * pow2(e) <= nearest(x),
{
    lemma_mul_basics((k * pow2(e)) as int);
    rounding_keeps_sides(x, 1, k, e);
}

/// A number below `2^24` units of `2^e` is at most half a unit from the one it is rounded to.
proof fn lemma_half_a_unit(x: nat, e: nat)
    requires
        e <= 200,
        x < 0x100_0000 * pow2(e),
    ensures
        2 * distance(nearest(x) as int, x as int) <= pow2(e),
{
    let g = pow2(e);
    lemma_pow2_pos(e);
    let k = x / g;
    lemma_fundamental_div_mod(x as int, g as int);
    lemma_mod_bound(x as int, g as int);
    lemma_mul_is_commutative(k as int, g as int);
    assert(k < 0x100_0000) by (nonlinear_arith)
        requires
            k * g <= x,
            x < 0x100_0000 * g,
            g > 0,
    ;
    assert((k + 1) * g == k * g + g) by (nonlinear_arith);
    let low = short_significands_are_exact(k, e);
    let high = short_significands_are_exact(k + 1, e);
    lemma_mul_basics(steps(low) as int);
    lemma_mul_basics(steps(high) as int);
    lemma_mul_basics(nearest(x) as int);
    rounding_is_nearest(x, 1, low);
    rounding_is_nearest(x, 1, high);
}

/// A finite magnitude is a whole number of units, and these are no coarser than its size asks.
proof fn lemma_units(mag: nat) -> (r: (nat, nat))
    requires
        steps(mag) < 0x20_0000 * one(),
    ensures
        steps(mag) == r.0 * pow2(r.1),
        r.0 < 0x100_0000,
        r.1 <= 146,
{
    let h = HIDDEN as nat;
    lemma2_to64();
    if mag < h {
        lemma_mul_basics(mag as int);
        (mag, 0)
    } else {
        let m = (h + mag % h) as nat;
        let e = (mag / h - 1) as nat;
        if e > 146 {
            lemma_pow2_adds(21, 149);
            lemma_pow2_adds(23, 147);
            if e > 147 {
                lemma_pow2_strictly_increases(147, e);
            }
            assert(m * pow2(e) >= h * pow2(147)) by (nonlinear_arith)
                requires
                    m >= h,
                    pow2(e) >= pow2(147),
            ;
        }
        (m, e)
    }
}

/// The whole pixel nearest to a position, given in steps.
pub open spec fn pixel(x: int) -> int {
    (2 * x + one()) / (2 * one() as int)
}

/// The nearest pixel is at most half a pixel away.
pub proof fn lemma_pixel(x: int)
    requires
        0 <= x,
    ensures
        0 <= pixel(x),
        2 * (pixel(x) * one()) <= 2 * x + one(),
        2 * x + one() < 2 * (pixel(x) * one()) + 2 * one(),
{
    let o = one() as int;
    lemma_pow2_pos(149);
    let n = 2 * x + o;
    lemma_fundamental_div_mod(n, 2 * o);
    lemma_mod_bound(n, 2 * o);
    lemma_div_pos_is_pos(n, 2 * o);
    assert((2 * o) * pixel(x) == 2 * (pixel(x) * o)) by (nonlinear_arith);
}

/// A position before the middle of a pixel is not rounded beyond it.
proof fn lemma_middle(x: nat, r: int)
    requires
        0 <= r < 0x20_0000,
    ensures
        2 * x <= 2 * (r * one()) + one() ==> 2 * nearest(x) <= 2 * (r * one()) + one(),
        2 * (r * one()) + one() <= 2 * x ==> 2 * (r * one()) + one() <= 2 * nearest(x),
{
    let k = (2 * r + 1) as nat;
    lemma_pow2_unfold(149);
    let w = pow2(148);
    assert(k * w == r * (2 * w) + w) by (nonlinear_arith)
        requires
            k == 2 * r + 1,
    ;
    lemma_stays_on_its_side(x, k, 148);
}

/// The sum of two middles of pixels is twice the middle of the window, up to a whole number of
/// its units.
proof fn lemma_whole_units(sum: int, c: int, m: int, e: nat)
    requires
        e <= 146,
        c == m * pow2(e),
        sum * one() - 2 * c > 0,
    ensures
        sum * one() - 2 * c >= 2 * pow2(e),
{
    let g = pow2(e) as int;
    lemma_pow2_pos(e);
    lemma_pow2_adds((148 - e) as nat, e);
    lemma_pow2_unfold(149);
    let t = pow2((148 - e) as nat) as int;
    assert(one() == 2 * (t * g));
    let d = sum * t - m;
    assert(sum * one() - 2 * c == 2 * (d * g)) by (nonlinear_arith)
        requires
            one() == 2 * (t * g),
            c == m * g,
            d == sum * t - m,
    ;
    assert(d >= 1) by (nonlinear_arith)
        requires
            2 * (d * g) > 0,
            g > 0,
    ;
    assert(d * g >= g) by (nonlinear_arith)
        requires
            d >= 1,
            g > 0,
    ;
}

/// The number of pixels between the rounded edges of a window of `2 h` around `c` is the whole
/// part of its extent, or one more.
proof fn lemma_pixels_between(c: nat, h: nat, m: nat, e: nat, n: int)
    requires
        h <= c,
        c + h < 0x10_0000 * one(),
        c == m * pow2(e),
        m < 0x100_0000,
        e <= 146,
        n * one() <= 2 * h < n * one() + one(),
    ensures
        n <= pixel(nearest(c + h) as int) - pixel(nearest((c - h) as nat) as int) <= n + 1,
{
    let o = one() as int;
    let g = pow2(e) as int;
    lemma_pow2_pos(149);
    lemma_pow2_pos(e);
    let a = (c - h) as nat;
    let b = c + h;
    let p = nearest(a) as int;
    let q = nearest(b) as int;
    let rp = pixel(p);
    let rq = pixel(q);
    lemma_pixel(p);
    lemma_pixel(q);
    lemma_pow2_unfold(e + 1);
    assert(c < 0x100_0000 * g) by (nonlinear_arith)
        requires
            c == m * g,
            m < 0x100_0000,
            g > 0,
    ;
    lemma_half_a_unit(a, e);
    lemma_half_a_unit(b, e + 1);
    lemma_stays_on_its_side(b, 0x10_0000, 149);
    lemma_stays_on_its_side(a, 0x10_0000, 149);
    // neither edge lies beyond 2^20 pixels
    assert(rq <= 0x10_0000) by (nonlinear_arith)
        requires
            2 * (rq * o) <= 2 * q + o,
            q <= 0x10_0000 * o,
            o > 0,
    ;
    assert(rp <= 0x10_0000) by (nonlinear_arith)
        requires
            2 * (rp * o) <= 2 * p + o,
            p <= 0x10_0000 * o,
            o > 0,
    ;
    assert(n >= 0) by (nonlinear_arith)
        requires
            n * o + o > 0,
            o > 0,
    ;
    if rq - rp >= n + 2 {
        lemma_middle(a, rp);
        lemma_middle(b, rq - 1);
        assert((rq - 1) * o == rq * o - o) by (nonlinear_arith);
        assert(rp * o + n * o + 2 * o <= rq * o) by (nonlinear_arith)
            requires
                rq - rp >= n + 2,
                o > 0,
        ;
        // 2 q == 2 rq o - o and 2 a < 2 rp o + o
        assert(2 * q == 2 * (rq * o) - o);
        assert((rp + rq) * o == rp * o + rq * o) by (nonlinear_arith);
        lemma_whole_units(rp + rq, c as int, m as int, e);
        assert(false);
    }
    if rq - rp < n {
        lemma_less(rp, rq, n, o);
        lemma_middle(b, rq);
        if rp == 0 {
            lemma_mul_basics(o);
            assert(false);
        } else {
            lemma_middle(a, rp - 1);
            assert((rp - 1) * o == rp * o - o) by (nonlinear_arith);
            assert(2 * p == 2 * (rp * o) - o);
            assert((rp + rq) * o == rp * o + rq * o) by (nonlinear_arith);
            lemma_whole_units(rp + rq, c as int, m as int, e);
            assert(false);
        }
    }
}

proof fn lemma_less(rp: int, rq: int, n: int, o: int)
    requires
        rq - rp < n,
        o > 0,
    ensures
        rq * o + o <= rp * o + n * o,
{
    assert(rq * o + o <= rp * o + n * o) by (nonlinear_arith)
        requires
            rq - rp + 1 <= n,
            o > 0,
    ;
}

/// Rounding a number that is not negative to a whole one depends on its value only.
pub proof fn lemma_round_is_pixel(x: Float32)
    requires
        x.is_finite(),
        0 <= x.signed_steps() <= 0x1000_0000 * one(),
    ensures
        x.spec_round_to_u32() == pixel(x.signed_steps()),
{
    reveal(Float32::spec_round_to_u32);
    let o = one() as int;
    lemma_pow2_pos(149);
    let v = x.signed_steps();
    lemma_pixel(v);
    assert(pixel(v) <= 0x1000_0000) by (nonlinear_arith)
        requires
            2 * (pixel(v) * o) <= 2 * v + o,
            v <= 0x1000_0000 * o,
            o > 0,
    ;
    if x.is_negative() {
        lemma_basic_div(o, 2 * o);
    }
}

/// The steps of a sum that is not negative.
proof fn lemma_sum_value(a: Float32, b: Float32)
    requires
        a.is_finite(),
        b.is_finite(),
        0 <= a.signed_steps() + b.signed_steps() <= 0x1000_0000 * one(),
    ensures
        a.spec_add(b).is_finite(),
        a.spec_add(b).signed_steps() == nearest((a.signed_steps() + b.signed_steps()) as nat),
{
    let sum = (a.signed_steps() + b.signed_steps()) as nat;
    lemma_pow2_pos(149);
    sums_are_close(a, b);
    let zero = short_significands_are_exact(0, 0);
    lemma_mul_basics(pow2(0) as int);
    reveal(Float32::spec_add);
    assert(sum > 0 ==> a.spec_add(b) == Float32::pack(false, round_magnitude(sum, 1)));
    if sum == 0 {
        assert(steps(zero) == 0);
    }
}

/// The edges of a window that begins on the axis, rounded to whole pixels: whatever the rounding
/// to single precision, their distance is the whole part of the window's extent, or one more.
pub proof fn windows_round_to_their_extent(center: Float32, half: Float32, n: int)
    requires
        center.is_finite(),
        half.is_finite(),
        0 <= half.signed_steps() <= center.signed_steps(),
        center.signed_steps() + half.signed_steps() < 0x10_0000 * one(),
        n * one() <= 2 * half.signed_steps() < n * one() + one(),
    ensures
        n <= center.spec_add(half).spec_round_to_u32() - center.spec_sub(half).spec_round_to_u32()
            <= n + 1,
{
    lemma_pow2_pos(149);
    lemma_negation(half);
    lemma_sum_value(center, half);
    lemma_sum_value(center, half.spec_neg());
    let c = center.signed_steps() as nat;
    let h = half.signed_steps() as nat;
    lemma_stays_on_its_side(c + h, 0x10_0000, 149);
    lemma_stays_on_its_side((c - h) as nat, 0x10_0000, 149);
    lemma_round_is_pixel(center.spec_add(half));
    lemma_round_is_pixel(center.spec_sub(half));
    assert(center.abs_steps() == c);
    let (m, e) = lemma_units(center.magnitude());
    lemma_pixels_between(c, h, m, e, n);
}

/// A difference is negative exactly if it is so before it is rounded.
pub proof fn lemma_sign_of_difference(a: Float32, b: Float32)
    requires
        a.is_finite(),
        b.is_finite(),
        -0x1000_0000 * one() <= a.signed_steps() - b.signed_steps() <= 0x1000_0000 * one(),
    ensures
        a.spec_sub(b).signed_steps() < 0 <==> a.signed_steps() < b.signed_steps(),
        a.spec_sub(b).signed_steps() > 0 <==> a.signed_steps() > b.signed_steps(),
{
    lemma_negation(b);
    differences_are_close(a, b);
    let d = a.signed_steps() - b.signed_steps();
    let x = distance(d, 0) as nat;
    lemma_stays_on_its_side(x, 1, 0);
    lemma_mul_basics(pow2(0) as int);
    lemma2_to64();
    reveal(Float32::spec_add);
    if d != 0 {
        assert(a.spec_sub(b) == Float32::pack(d < 0, round_magnitude(x, 1)));
    }
}

} // verus!
