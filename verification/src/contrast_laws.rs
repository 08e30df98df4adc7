//! How much contrast the equalization can add.
use crate::equalize::{
    clip_limit, excess, redistributed, spread_keeps_the_pixel_count, tone, tone_curve,
    total, CLAHE_CLIP_FACTOR_BITS,
};
use crate::float32::{one, round_magnitude, steps, Float32};
use crate::float_laws::{
    distance, lemma_one_is_large, lemma_product_bound, lemma_ratio, lemma_unity,
    order_is_that_of_values, rounding_keeps_values, rounding_lower_bound, rounding_upper_bound,
    short_significands_are_exact, small_integers_are_exact, unity, within,
};
use vstd::arithmetic::div_mod::*;
use vstd::arithmetic::mul::*;
use vstd::arithmetic::power2::*;
use vstd::prelude::*;

verus! {

/// A common factor can be dropped.
proof fn lemma_cancel(o: int, a: int, b: int)
    requires
        o > 0,
        o * a <= o * b,
    ensures
        a <= b,
{
    assert(a <= b) by (nonlinear_arith)
        requires
            o > 0,
            o * a <= o * b,
    ;
}

/// 255, in steps.
proof fn lemma_top_level()
    ensures
        (Float32 { bits: 0x437f_0000 }).abs_steps() == 255 * one(),
        (Float32 { bits: 0x437f_0000 }).is_finite(),
        !(Float32 { bits: 0x437f_0000 }).is_negative(),
{
    let k = Float32 { bits: 0x437f_0000 };
    assert(k.magnitude() == 0x437f_0000);
    lemma_pow2_adds(16, 133);
    lemma2_to64();
    assert(steps(0x437f_0000) == 0xff_0000 * pow2(133));
    assert(0xff_0000 * pow2(133) == 255 * (0x1_0000 * pow2(133))) by (nonlinear_arith);
}

/// The level of `cumulative` of `count` pixels before it is rounded, in steps.
spec fn tone_steps(cumulative: nat, count: nat) -> nat {
    Float32::spec_from_u64(cumulative as u64).spec_div(
        Float32::spec_from_u64(count as u64),
    ).spec_mul(Float32 { bits: 0x437f_0000 }).abs_steps()
}

/// The computed share of the pixels is off by no more than rounding.
pub proof fn lemma_share(c: nat, count: nat)
    requires
        c <= count,
        0 < count <= 0x100_0000,
    ensures
        ({
            let q = Float32::spec_from_u64(c as u64).spec_div(Float32::spec_from_u64(count as u64));
            &&& within(q, one())
            &&& 0x100_0000 * (count * q.abs_steps()) <= 0x100_0001 * (c * one()) + 0x80_0000 * count
            &&& 0x100_0000 * (c * one()) <= 0x100_0000 * (count * q.abs_steps()) + c * one()
                + 0x80_0000 * count
        }),
{
    let o = one();
    lemma_one_is_large();
    small_integers_are_exact(c as u64);
    small_integers_are_exact(count as u64);
    let l = Float32::spec_from_u64(c as u64);
    let w = Float32::spec_from_u64(count as u64);
    assert(0 < count * o && c * o <= count * o) by (nonlinear_arith)
        requires
            c <= count,
            0 < count,
            0 < o,
    ;
    if w.is_zero() {
        assert(w.abs_steps() == 0);
    }
    lemma_ratio(l, w);
    let n = (c * o) * o;
    let d = count * o;
    let q = l.spec_div(w);
    assert(q.magnitude() == round_magnitude(n, d)) by {
        reveal(Float32::spec_div);
    }
    rounding_upper_bound(n, d);
    rounding_lower_bound(n, d);
    let s = q.abs_steps() as int;
    let x = count * s;
    let y = (c * o) as int;
    assert((count * o) * s == o * x) by (nonlinear_arith)
        requires
            x == count * s,
    ;
    assert(n == o * y) by (nonlinear_arith)
        requires
            n == (c * o) * o,
            y == c * o,
    ;
    assert(d == o * count) by (nonlinear_arith)
        requires
            d == count * o,
    ;
    lemma_scaled(o as int, x, y, count as int);
}

proof fn lemma_scaled(o: int, x: int, y: int, count: int)
    requires
        o > 0,
        0x100_0000 * (o * x) <= 0x100_0001 * (o * y) + 0x80_0000 * (o * count),
        0x100_0000 * (o * y) <= 0x100_0000 * (o * x) + o * y + 0x80_0000 * (o * count),
    ensures
        0x100_0000 * x <= 0x100_0001 * y + 0x80_0000 * count,
        0x100_0000 * y <= 0x100_0000 * x + y + 0x80_0000 * count,
{
    let a = 0x100_0000 * x;
    let b = 0x100_0001 * y + 0x80_0000 * count;
    assert(o * a == 0x100_0000 * (o * x)) by (nonlinear_arith)
        requires
            a == 0x100_0000 * x,
    ;
    assert(o * b == 0x100_0001 * (o * y) + 0x80_0000 * (o * count)) by (nonlinear_arith)
        requires
            b == 0x100_0001 * y + 0x80_0000 * count,
    ;
    lemma_cancel(o, a, b);
    let e = 0x100_0000 * y;
    let f = 0x100_0000 * x + y + 0x80_0000 * count;
    assert(o * e == 0x100_0000 * (o * y)) by (nonlinear_arith)
        requires
            e == 0x100_0000 * y,
    ;
    assert(o * f == 0x100_0000 * (o * x) + o * y + 0x80_0000 * (o * count)) by (nonlinear_arith)
        requires
            f == 0x100_0000 * x + y + 0x80_0000 * count,
    ;
    lemma_cancel(o, e, f);
}

/// The computed level is off by less than a thousandth.
proof fn lemma_tone_steps(c: nat, count: nat)
    requires
        c <= count,
        0 < count <= 0x100_0000,
    ensures
        0x10_0000 * (count * tone_steps(c, count)) <= 0x10_0000 * (255 * (c * one())) + 255 * (
        count * one()),
        0x10_0000 * (255 * (c * one())) <= 0x10_0000 * (count * tone_steps(c, count)) + 255 * (
        count * one()),
        ({
            let r = (2 * tone_steps(c, count) + one()) / (2 * one());
            tone(c, count) == if r < 255 {
                r
            } else {
                255
            }
        }),
{
    let o = one();
    lemma_one_is_large();
    lemma_share(c, count);
    lemma_top_level();
    let q = Float32::spec_from_u64(c as u64).spec_div(Float32::spec_from_u64(count as u64));
    let k = Float32 { bits: 0x437f_0000 };
    let s = q.abs_steps();
    let t = k.abs_steps();
    assert(s * t <= o * (0x100_0000_0000 * o)) by (nonlinear_arith)
        requires
            s <= o,
            t == 255 * o,
            0 < o,
    ;
    lemma_product_bound(q, k);
    let p = q.spec_mul(k);
    let v = p.abs_steps();
    assert(v == tone_steps(c, count));
    assert(p.magnitude() == round_magnitude(s * t, o)) by {
        reveal(Float32::spec_mul);
    }
    rounding_lower_bound(s * t, o);
    let z = (255 * s) as int;
    assert(s * t == o * z) by (nonlinear_arith)
        requires
            t == 255 * o,
            z == 255 * s,
    ;
    lemma_mul_basics(o as int);
    lemma_scaled(o as int, v as int, z, 1);
    // 2^24 v is close to 2^24 (255 s), and count s to c one
    let x = (count * s) as int;
    let y = (c * o) as int;
    let w = (count * o) as int;
    let g = (count * v) as int;
    assert(0x100_0000 * g <= 0x100_0001 * (255 * x) + 0x80_0000 * count) by (nonlinear_arith)
        requires
            0x100_0000 * v <= 0x100_0001 * (255 * s) + 0x80_0000,
            x == count * s,
            g == count * v,
            count > 0,
    ;
    assert(0x100_0000 * (255 * x) <= 0x100_0000 * g + 255 * x + 0x80_0000 * count)
        by (nonlinear_arith)
        requires
            0x100_0000 * (255 * s) <= 0x100_0000 * v + 255 * s + 0x80_0000,
            x == count * s,
            g == count * v,
            count > 0,
    ;
    assert(0 <= y <= w && w >= 0x1_0000_0000_0000 * count) by (nonlinear_arith)
        requires
            y == c * o,
            w == count * o,
            c <= count,
            o >= 0x1_0000_0000_0000,
    ;
    reveal(Float32::spec_round_to_u32);
    assert(v <= 0x100 * o) by (nonlinear_arith)
        requires
            0x100_0000 * v <= 0x100_0001 * (255 * s) + 0x80_0000,
            s <= o,
            o >= 0x1_0000_0000_0000,
    ;
    let r = (2 * v + o) / (2 * o);
    assert(r < 0x1_0000) by {
        lemma_multiply_divide_lt((2 * v + o) as int, (2 * o) as int, 0x1_0000);
    }
}

/// A bin keeps at most a 64th of the pixels, up to rounding.
proof fn lemma_clip_limit(count: nat)
    requires
        0x100 <= count <= 0x100_0000,
    ensures
        0x40_0000 * (64 * clip_limit(count)) <= 0x40_0001 * count,
{
    let o = one();
    lemma_one_is_large();
    small_integers_are_exact(count as u64);
    let w = Float32::spec_from_u64(count as u64);
    let b = Float32 { bits: 0x4380_0000 };
    let f = Float32 { bits: CLAHE_CLIP_FACTOR_BITS };
    assert(b.abs_steps() == 256 * o) by {
        lemma_pow2_adds(23, 134);
        lemma_pow2_adds(8, 149);
        lemma2_to64();
        assert(b.magnitude() == 0x4380_0000);
        assert(steps(0x4380_0000) == 0x80_0000 * pow2(134));
    }
    assert(f.abs_steps() == 4 * o) by {
        lemma_pow2_adds(23, 128);
        lemma_pow2_adds(2, 149);
        lemma2_to64();
        assert(f.magnitude() == 0x4080_0000);
        assert(steps(0x4080_0000) == 0x80_0000 * pow2(128));
    }
    let n = (count * o) * o;
    let d = 256 * o;
    let a = w.spec_div(b);
    assert(n <= d * (0x100_0000_0000 * o)) by (nonlinear_arith)
        requires
            n == (count * o) * o,
            d == 256 * o,
            count <= 0x100_0000,
            o > 0,
    ;
    crate::float_laws::lemma_not_infinite(n, d);
    assert(a == Float32::pack(false, round_magnitude(n, d))) by {
        reveal(Float32::spec_div);
    }
    rounding_upper_bound(n, d);
    let s = a.abs_steps() as int;
    let y = (count * o) as int;
    // 2^24 (256 s) <= (2^24 + 1) y + 2^23 256
    assert(d * s == o * (256 * s)) by (nonlinear_arith)
        requires
            d == 256 * o,
    ;
    assert(n == o * y) by (nonlinear_arith)
        requires
            n == (count * o) * o,
            y == count * o,
    ;
    lemma_cancel_upper(o as int, 256 * s, y, 256);
    assert(0x100 * o <= y <= 0x100_0000 * o) by (nonlinear_arith)
        requires
            y == count * o,
            0x100 <= count <= 0x100_0000,
            o > 0,
    ;
    assert((4 * o) * s <= o * (0x100_0000_0000 * o)) by (nonlinear_arith)
        requires
            0x100_0000 * (256 * s) <= 0x100_0001 * y + 0x80_0000 * 256,
            y <= 0x100_0000 * o,
            o >= 0x1_0000_0000_0000,
            s >= 0,
    ;
    lemma_product_bound(f, a);
    let p = f.spec_mul(a);
    let v = p.abs_steps() as int;
    assert((4 * o) * s == o * (4 * s)) by (nonlinear_arith);
    lemma_mul_basics(o as int);
    lemma_cancel_upper(o as int, v, 4 * s, 1);
    lemma_unity();
    let u = unity();
    order_is_that_of_values(p, u);
    let m = p.spec_max(u);
    let z = m.abs_steps() as int;
    assert(z == v || z == o);
    reveal(Float32::spec_trunc_to_u32);
    let t = clip_limit(count) as int;
    assert(t <= z / o as int);
    lemma_fundamental_div_mod(z, o as int);
    lemma_mod_bound(z, o as int);
    assert(t * o <= z) by (nonlinear_arith)
        requires
            t <= z / o as int,
            z == o * (z / o as int) + z % o as int,
            0 <= z % o as int,
            o > 0,
    ;
    assert(0x40_0000 * (64 * z) <= 0x40_0001 * y);
    assert(o * (0x40_0000 * (64 * t)) <= o * (0x40_0001 * count)) by (nonlinear_arith)
        requires
            t * o <= z,
            0x40_0000 * (64 * z) <= 0x40_0001 * y,
            y == count * o,
    ;
    lemma_cancel(o as int, 0x40_0000 * (64 * t), 0x40_0001 * count as int);
}

proof fn lemma_cancel_upper(o: int, x: int, y: int, k: int)
    requires
        o > 0,
        0x100_0000 * (o * x) <= 0x100_0001 * (o * y) + 0x80_0000 * (k * o),
    ensures
        0x100_0000 * x <= 0x100_0001 * y + 0x80_0000 * k,
{
    let a = 0x100_0000 * x;
    let b = 0x100_0001 * y + 0x80_0000 * k;
    assert(o * a == 0x100_0000 * (o * x)) by (nonlinear_arith)
        requires
            a == 0x100_0000 * x,
    ;
    assert(o * b == 0x100_0001 * (o * y) + 0x80_0000 * (k * o)) by (nonlinear_arith)
        requires
            b == 0x100_0001 * y + 0x80_0000 * k,
    ;
    lemma_cancel(o, a, b);
}

/// A level of the spread histogram has at most a few more pixels than the limit.
proof fn lemma_spread_bin(bins: Seq<nat>, limit: nat, i: int)
    requires
        bins.len() == 256,
        0 <= i < 256,
    ensures
        256 * redistributed(bins, limit)[i] <= 256 * limit + total(bins, 256) + 256,
{
    let extra = excess(bins, limit);
    crate::equalize::lemma_total_clipped(bins, limit, 256);
    assert(redistributed(bins, limit)[i] <= limit + extra / 256 + 1);
}

/// Two levels that few pixels separate are few levels apart.
proof fn lemma_tones_are_near(low: nat, high: nat, count: nat)
    requires
        low <= high <= count,
        0x100 <= count <= 0x100_0000,
        0x40_0000 * (256 * (high - low)) <= 4 * (0x40_0001 * count) + 0x40_0000 * (count + 256),
    ensures
        tone(high, count) - tone(low, count) <= 6,
{
    let o = one() as int;
    lemma_one_is_large();
    lemma_tone_steps(low, count);
    lemma_tone_steps(high, count);
    let a = tone_steps(low, count) as int;
    let b = tone_steps(high, count) as int;
    let w = count * o;
    let y = (high - low) * o;
    assert(high * o - low * o == y) by (nonlinear_arith)
        requires
            y == (high - low) * o,
    ;
    assert(0x40_0000 * (256 * y) <= 4 * (0x40_0001 * w) + 0x40_0000 * (2 * w)) by (nonlinear_arith)
        requires
            0x40_0000 * (256 * (high - low)) <= 4 * (0x40_0001 * count) + 0x40_0000 * (count + 256),
            256 <= count,
            y == (high - low) * o,
            w == count * o,
            o > 0,
    ;
    let ga = count * a;
    let gb = count * b;
    assert(w > 0) by (nonlinear_arith)
        requires
            w == count * o,
            count > 0,
            o > 0,
    ;
    assert(gb - ga < 6 * w);
    assert(b - a < 6 * o) by (nonlinear_arith)
        requires
            gb - ga < 6 * w,
            ga == count * a,
            gb == count * b,
            w == count * o,
            count > 0,
    ;
    let ra = (2 * a + o) / (2 * o);
    let rb = (2 * b + o) / (2 * o);
    lemma_fundamental_div_mod(2 * a + o, 2 * o);
    lemma_mod_bound(2 * a + o, 2 * o);
    lemma_fundamental_div_mod(2 * b + o, 2 * o);
    lemma_mod_bound(2 * b + o, 2 * o);
    assert(rb - ra < 7) by (nonlinear_arith)
        requires
            (2 * o) * rb <= 2 * b + o,
            2 * a + o < (2 * o) * ra + 2 * o,
            b - a < 6 * o,
            o > 0,
    ;
}

/// Contrast is limited: in a tile of 256 to 2^24 pixels, however its pixels are spread over the
/// levels, the tone curve starts at level 6 at most and rises by 6 levels at most from one level
/// to the next.
pub proof fn contrast_is_limited(bins: Seq<nat>, i: int)
    requires
        bins.len() == 256,
        0x100 <= total(bins, 256) <= 0x100_0000,
        0 <= i < 255,
    ensures
        tone_curve(bins)[0] <= 6,
        tone_curve(bins)[i + 1] - tone_curve(bins)[i] <= 6,
{
    let count = total(bins, 256);
    let limit = clip_limit(count);
    let spread = redistributed(bins, limit);
    lemma_clip_limit(count);
    lemma_spread_bin(bins, limit, 0);
    lemma_spread_bin(bins, limit, i + 1);
    spread_keeps_the_pixel_count(bins, limit);
    crate::equalize::lemma_total_order(spread, 1, 256);
    crate::equalize::lemma_total_order(spread, i + 2, 256);
    assert(total(spread, 0) == 0);
    assert(total(spread, 1) == total(spread, 0) + spread[0]);
    lemma_tones_are_near(0, total(spread, 1), count);
    lemma_no_pixels(count);
    lemma_tones_are_near(total(spread, i + 1), total(spread, i + 2), count);
}

/// No pixels at all give the darkest level.
proof fn lemma_no_pixels(count: nat)
    requires
        0 < count <= 0x100_0000,
    ensures
        tone(0, count) == 0,
{
    let o = one() as int;
    lemma_one_is_large();
    lemma_tone_steps(0, count);
    let v = tone_steps(0, count) as int;
    let w = count * o;
    lemma_mul_basics(o);
    assert(2 * v + o < 2 * o) by (nonlinear_arith)
        requires
            0x10_0000 * (count * v) <= 255 * w,
            w == count * o,
            count > 0,
            o > 0,
    ;
    lemma_basic_div(2 * v + o, 2 * o);
}

/// A bin keeps a 64th of the tile's pixels, four times the average of 256 bins, and at least
/// one.
#[verifier::spinoff_prover]
#[verifier::rlimit(40)]
pub proof fn bins_keep_a_64th(count: nat)
    requires
        0 < count <= 0x100_0000,
    ensures
        clip_limit(count) == if count < 128 {
            1
        } else {
            count / 64
        },
{
    let o = one();
    lemma_one_is_large();
    small_integers_are_exact(count as u64);
    let w = Float32::spec_from_u64(count as u64);
    let b = Float32 { bits: 0x4380_0000 };
    let f = Float32 { bits: CLAHE_CLIP_FACTOR_BITS };
    lemma2_to64();
    assert(b.abs_steps() == 256 * o) by {
        lemma_pow2_adds(23, 134);
        lemma_pow2_adds(8, 149);
        assert(b.magnitude() == 0x4380_0000);
        assert(steps(0x4380_0000) == 0x80_0000 * pow2(134));
    }
    assert(f.abs_steps() == 4 * o) by {
        lemma_pow2_adds(23, 128);
        lemma_pow2_adds(2, 149);
        assert(f.magnitude() == 0x4080_0000);
        assert(steps(0x4080_0000) == 0x80_0000 * pow2(128));
    }
    lemma_pow2_adds(8, 141);
    lemma_pow2_adds(2, 141);
    lemma_pow2_adds(6, 143);
    let m1 = short_significands_are_exact(count, 141);
    let m2 = short_significands_are_exact(count, 143);
    let a = w.spec_div(b);
    assert(w.abs_steps() * o == b.abs_steps() * steps(m1)) by (nonlinear_arith)
        requires
            w.abs_steps() == count * o,
            b.abs_steps() == 256 * o,
            steps(m1) == count * pow2(141),
            o == 0x100 * pow2(141),
    ;
    rounding_keeps_values(b.abs_steps(), m1);
    assert(a == Float32::pack(false, m1)) by {
        reveal(Float32::spec_div);
    }
    let p = f.spec_mul(a);
    assert(f.abs_steps() * a.abs_steps() == o * steps(m2)) by (nonlinear_arith)
        requires
            f.abs_steps() == 4 * o,
            a.abs_steps() == count * pow2(141),
            steps(m2) == count * pow2(143),
            pow2(143) == 4 * pow2(141),
    ;
    rounding_keeps_values(o, m2);
    assert(p == Float32::pack(false, m2)) by {
        reveal(Float32::spec_mul);
    }
    lemma_unity();
    order_is_that_of_values(p, unity());
    let m = p.spec_max(unity());
    let v = count * pow2(143);
    let z = m.abs_steps();
    assert(z == if v < o {
        o
    } else {
        v
    });
    reveal(Float32::spec_trunc_to_u32);
    let q = z / o;
    let h = pow2(143);
    lemma_pow2_pos(143);
    lemma_div_by_multiple(1, o as int);
    lemma_mul_basics(o as int);
    if count < 64 {
        assert(v < o) by (nonlinear_arith)
            requires
                v == count * h,
                o == 64 * h,
                count < 64,
                h > 0,
        ;
        assert(q == 1);
    } else {
        assert(v >= o) by (nonlinear_arith)
            requires
                v == count * h,
                o == 64 * h,
                count >= 64,
        ;
        let k = count / 64;
        let r = (count % 64) as int;
        let rh = r * h;
        assert(v == k * o + rh && 0 <= rh < o) by (nonlinear_arith)
            requires
                v == count * h,
                o == 64 * h,
                count == 64 * k + r,
                0 <= r < 64,
                rh == r * h,
                h > 0,
        ;
        lemma_fundamental_div_mod_converse(v as int, o as int, k as int, rh);
        assert(q == k);
    }
}

/// The level of a pixel that `cumulative` of `count` pixels do not exceed is that share of 255,
/// rounded to the nearest level.
#[verifier::spinoff_prover]
#[verifier::rlimit(40)]
pub proof fn tones_are_shares(cumulative: nat, count: nat)
    requires
        cumulative <= count,
        0 < count <= 0x100_0000,
    ensures
        0x20_0000 * distance(tone(cumulative, count) * count, 255 * cumulative as int) <= 0x10_01fe
            * count,
{
    let o = one() as int;
    lemma_one_is_large();
    lemma_tone_steps(cumulative, count);
    let c = cumulative as int;
    let n = count as int;
    let v = tone_steps(cumulative, count) as int;
    let r = (2 * v + o) / (2 * o);
    lemma_fundamental_div_mod(2 * v + o, 2 * o);
    lemma_mod_bound(2 * v + o, 2 * o);
    let ro = r * o;
    assert((2 * o) * r == 2 * ro) by (nonlinear_arith)
        requires
            ro == r * o,
    ;
    assert(2 * distance(ro, v) <= o);
    let (nv, nro, no, co) = (n * v, n * ro, n * o, c * o);
    assert(2 * distance(nro, nv) <= no) by (nonlinear_arith)
        requires
            2 * distance(ro, v) <= o,
            nv == n * v,
            nro == n * ro,
            no == n * o,
            n > 0,
    ;
    assert(0x10_0000 * nv <= 0x10_0000 * (255 * co) + 255 * no);
    assert(0x10_0000 * (255 * co) <= 0x10_0000 * nv + 255 * no);
    assert(0x20_0000 * distance(nro, 255 * co) <= 0x10_01fe * no);
    let rn = r * n;
    let d = distance(rn, 255 * c);
    assert(distance(nro, 255 * co) == o * d) by (nonlinear_arith)
        requires
            nro == n * ro,
            ro == r * o,
            rn == r * n,
            co == c * o,
            d == distance(rn, 255 * c),
            o > 0,
    ;
    assert(0x20_0000 * d <= 0x10_01fe * n) by (nonlinear_arith)
        requires
            0x20_0000 * (o * d) <= 0x10_01fe * no,
            no == n * o,
            o > 0,
    ;
    if r > 255 {
        assert(rn >= 256 * n) by (nonlinear_arith)
            requires
                rn == r * n,
                r >= 256,
                n > 0,
        ;
    }
}

/// A tile whose bins all keep their pixels is equalized exactly: each level becomes the share of
/// the tile's pixels up to that level.
pub proof fn even_tiles_are_equalized(bins: Seq<nat>, l: int)
    requires
        bins.len() == 256,
        128 <= total(bins, 256) <= 0x100_0000,
        forall|i: int| 0 <= i < 256 ==> 64 * (#[trigger] bins[i]) <= total(bins, 256),
        0 <= l < 256,
    ensures
        0x20_0000 * distance(
            tone_curve(bins)[l] * total(bins, 256),
            255 * total(bins, l + 1) as int,
        ) <= 0x10_01fe * total(bins, 256),
{
    let count = total(bins, 256);
    bins_keep_a_64th(count);
    let limit = clip_limit(count);
    let cut = crate::equalize::clipped(bins, limit);
    assert forall|i: int| 0 <= i < 256 implies #[trigger] bins[i] <= limit by {
        assert(64 * bins[i] <= count);
    }
    assert(cut =~= bins);
    assert(excess(bins, limit) == 0);
    assert(redistributed(bins, limit) =~= bins);
    crate::equalize::lemma_total_order(bins, l + 1, 256);
    tones_are_shares(total(bins, l + 1), count);
}

/// What the bins lose is shared out evenly: every level gets the same, but for one pixel more on
/// the lowest levels, and no level is left with less than it was allowed to keep.
pub proof fn the_excess_is_shared_evenly(bins: Seq<nat>, limit: nat, i: int, j: int)
    requires
        bins.len() == 256,
        0 <= i <= j < 256,
    ensures
        ({
            let spread = redistributed(bins, limit);
            let (p, q) = (
                if bins[i] < limit {
                    bins[i]
                } else {
                    limit
                },
                if bins[j] < limit {
                    bins[j]
                } else {
                    limit
                },
            );
            &&& spread[i] >= p && spread[j] >= q
            &&& 0 <= (spread[i] - p) - (spread[j] - q) <= 1
        }),
{
    crate::equalize::lemma_total_clipped(bins, limit, 256);
}

/// A tile without pixels changes nothing: every level stays.
pub proof fn empty_tiles_change_nothing(bins: Seq<nat>, l: int)
    requires
        total(bins, 256) == 0,
        0 <= l < 256,
    ensures
        tone_curve(bins)[l] == l,
{
}

} // verus!
