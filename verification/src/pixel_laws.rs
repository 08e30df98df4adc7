//! What becomes of single samples: in the motion signal and in the networks' inputs.
use crate::capture::IrFrame;
use crate::contrast_laws::lemma_share;
use crate::decode_laws::lemma_signed_product;
use crate::detector::{detector_input, detector_value};
use crate::detector_laws::lemma_sums_keep_order;
use crate::float32::{one, round_magnitude, steps, Float32};
use crate::float_laws::{
    differences_are_close, distance, lemma_negation, lemma_not_infinite, lemma_one_is_large,
    lemma_ratio, lemma_unity, order_is_that_of_values, rounding_is_monotone, rounding_keeps_values,
    rounding_lower_bound, rounding_upper_bound, short_significands_are_exact,
    small_integers_are_exact, within,
};
use crate::preprocess::{
    changed_pixels, encoder_input, encoder_value, motion_fraction, sample_at, zero,
};
use crate::resample::{eight_bit, pixel_grid};
use vstd::arithmetic::div_mod::*;
use vstd::arithmetic::mul::*;
use vstd::arithmetic::power2::*;
use vstd::prelude::*;

verus! {

/// The places at which two frames differ by more than 1500.
pub open spec fn moved_places(a: Seq<u16>, b: Seq<u16>, n: int) -> Set<int> {
    Set::new(|i: int| 0 <= i < n && (a[i] - b[i] > 1500 || b[i] - a[i] > 1500))
}

proof fn lemma_moved_places(a: Seq<u16>, b: Seq<u16>, n: int)
    requires
        0 <= n,
    ensures
        moved_places(a, b, n).finite(),
        moved_places(a, b, n).len() == changed_pixels(a, b, n),
        changed_pixels(a, b, n) <= n,
    decreases n,
{
    if n == 0 {
        assert(moved_places(a, b, n) =~= Set::empty());
    } else {
        lemma_moved_places(a, b, n - 1);
        let before = moved_places(a, b, n - 1);
        if a[n - 1] - b[n - 1] > 1500 || b[n - 1] - a[n - 1] > 1500 {
            assert(moved_places(a, b, n) =~= before.insert(n - 1));
        } else {
            assert(moved_places(a, b, n) =~= before);
        }
    }
}

/// Motion is the share of the pixels that changed by more than 1500, up to rounding; frames of
/// different sizes show none.
pub proof fn motion_is_the_share_of_moved_pixels(a: IrFrame, b: IrFrame)
    requires
        a.data@.len() <= 0x100_0000,
    ensures
        a.width == b.width && a.height == b.height && a.data@.len() == b.data@.len()
            && a.data@.len() > 0 ==> {
            let n = a.data@.len();
            let moved = moved_places(a.data@, b.data@, n as int);
            let f = motion_fraction(a, b);
            &&& moved.finite()
            &&& within(f, one())
            &&& 0x40_0000 * distance(n * f.signed_steps(), (moved.len() * one()) as int)
                <= moved.len() * one()
        },
        a.width != b.width || a.height != b.height || a.data@.len() != b.data@.len()
            ==> motion_fraction(a, b).signed_steps() == 0,
{
    let n = a.data@.len();
    let o = one();
    lemma_one_is_large();
    assert(zero().signed_steps() == 0);
    if a.width == b.width && a.height == b.height && n == b.data@.len() && n > 0 {
        lemma_moved_places(a.data@, b.data@, n as int);
        let c = changed_pixels(a.data@, b.data@, n as int);
        lemma_share(c, n);
        let f = motion_fraction(a, b);
        let co = c * o;
        if c == 0 {
            small_integers_are_exact(0);
            small_integers_are_exact(n as u64);
            let z = Float32::spec_from_u64(0);
            let d = Float32::spec_from_u64(n as u64);
            assert(n * o > 0) by (nonlinear_arith)
                requires
                    n > 0,
                    o > 0,
            ;
            lemma_mul_basics(o as int);
            if d.is_zero() {
                assert(d.abs_steps() == 0);
            }
            rounding_keeps_values(d.abs_steps(), 0);
            lemma_mul_basics(d.abs_steps() as int);
            assert(f.abs_steps() == 0) by {
                reveal(Float32::spec_div);
            }
            lemma_mul_basics(n as int);
        } else {
            assert(co >= 0x1_0000_0000_0000 && co >= o) by (nonlinear_arith)
                requires
                    co == c * o,
                    c >= 1,
                    o >= 0x1_0000_0000_0000,
            ;
            assert(0x80_0000 * n <= co) by (nonlinear_arith)
                requires
                    co >= 0x1_0000_0000_0000,
                    n <= 0x100_0000,
            ;
        }
    }
}

/// A quotient against the exact one, with its sign.
pub proof fn lemma_signed_quotient(a: Float32, b: Float32)
    requires
        a.is_finite(),
        b.is_finite(),
        !b.is_negative(),
        !b.is_zero(),
        b.abs_steps() > 0,
        a.abs_steps() * one() <= b.abs_steps() * (0x100_0000_0000 * one()),
    ensures
        a.spec_div(b).is_finite(),
        a.spec_div(b).is_negative() == a.is_negative(),
        0x100_0000 * distance(
            b.signed_steps() * a.spec_div(b).signed_steps(),
            a.signed_steps() * one(),
        ) <= a.abs_steps() * one() + 0x80_0000 * b.signed_steps(),
{
    let o = one();
    let n = a.abs_steps() * o;
    let d = b.abs_steps();
    lemma_not_infinite(n, d);
    rounding_upper_bound(n, d);
    rounding_lower_bound(n, d);
    let q = a.spec_div(b);
    assert(q == Float32::pack(a.is_negative(), round_magnitude(n, d))) by {
        reveal(Float32::spec_div);
    }
    let v = q.abs_steps() as int;
    let x = a.abs_steps() as int;
    assert((-x) * o == -(x * o) && d * (-v) == -(d * v)) by (nonlinear_arith);
}

/// A larger dividend has no smaller quotient.
proof fn lemma_quotient_order(a: Float32, c: Float32, b: Float32)
    requires
        a.is_finite(),
        c.is_finite(),
        b.is_finite(),
        !b.is_negative(),
        !b.is_zero(),
        b.abs_steps() > 0,
        a.spec_le(c),
        a.abs_steps() * one() <= b.abs_steps() * (0x100_0000_0000 * one()),
        c.abs_steps() * one() <= b.abs_steps() * (0x100_0000_0000 * one()),
    ensures
        a.spec_div(b).spec_le(c.spec_div(b)),
{
    let o = one();
    let (x, y) = (a.abs_steps(), c.abs_steps());
    let d = b.abs_steps();
    lemma_signed_quotient(a, b);
    lemma_signed_quotient(c, b);
    order_is_that_of_values(a, c);
    if x <= y {
        assert((x * o) * d <= (y * o) * d) by (nonlinear_arith)
            requires
                x <= y,
        ;
        rounding_is_monotone(x * o, d, y * o, d);
    }
    if y <= x {
        assert((y * o) * d <= (x * o) * d) by (nonlinear_arith)
            requires
                y <= x,
        ;
        rounding_is_monotone(y * o, d, x * o, d);
    }
    lemma_mul_basics(o as int);
    lemma_mul_basics(d as int);
    rounding_keeps_values(d, 0);
    let (p, q) = (a.spec_div(b), c.spec_div(b));
    assert(p.magnitude() == round_magnitude(x * o, d)) by {
        reveal(Float32::spec_div);
    }
    assert(q.magnitude() == round_magnitude(y * o, d)) by {
        reveal(Float32::spec_div);
    }
    if a.is_negative() && !c.is_negative() {
    } else if !a.is_negative() && c.is_negative() {
        assert(x == 0 && y == 0);
    }
}

/// 65535 and a half, in steps.
proof fn lemma_encoder_constants()
    ensures
        (Float32 { bits: 0x477f_ff00 }).abs_steps() == 65535 * one(),
        2 * (Float32 { bits: 0x3f00_0000 }).abs_steps() == one(),
{
    let full = Float32 { bits: 0x477f_ff00 };
    let half = Float32 { bits: 0x3f00_0000 };
    lemma_pow2_adds(8, 141);
    lemma_pow2_adds(24, 125);
    lemma2_to64();
    assert(full.magnitude() == 0x477f_ff00 && half.magnitude() == 0x3f00_0000);
    assert(steps(0x477f_ff00) == 0xff_ff00 * pow2(141));
    assert(steps(0x3f00_0000) == 0x80_0000 * pow2(125));
}

/// The encoder sees black as -1 and white as 1, with all other samples on the line between them,
/// up to a millionth.
pub proof fn encoder_values_are_linear(pixel: u16)
    ensures
        encoder_value(pixel).is_finite(),
        0x10_0000 * distance(
            65535 * encoder_value(pixel).signed_steps(),
            (2 * pixel - 65535) * one(),
        ) <= 65535 * one(),
{
    let o = one() as int;
    lemma_one_is_large();
    lemma_encoder_constants();
    let full = Float32 { bits: 0x477f_ff00 };
    let half = Float32 { bits: 0x3f00_0000 };
    let x = Float32::spec_from_u64(pixel as u64);
    small_integers_are_exact(pixel as u64);
    assert(0 <= pixel * o <= 65535 * o) by (nonlinear_arith)
        requires
            0 <= pixel <= 65535,
            o > 0,
    ;
    assert(x.abs_steps() * o <= full.abs_steps() * (0x100_0000_0000 * o)) by (nonlinear_arith)
        requires
            x.abs_steps() <= 65535 * o,
            full.abs_steps() == 65535 * o,
            o > 0,
    ;
    lemma_signed_quotient(x, full);
    lemma_ratio(x, full);
    let q = x.spec_div(full);
    let qs = q.signed_steps();
    assert(0x100_0000 * distance((65535 * o) * qs, (pixel * o) * o) <= (pixel * o) * o + 0x80_0000
        * (65535 * o));
    lemma_drop_factor(o, 65535 * qs, pixel * o, 65535);
    differences_are_close(q, half);
    let d = q.spec_sub(half);
    let ds = d.signed_steps();
    assert(d.abs_steps() <= o);
    let h = half.abs_steps();
    assert(d.abs_steps() * o <= h * (0x100_0000_0000 * o)) by (nonlinear_arith)
        requires
            d.abs_steps() <= o,
            2 * h == o,
            o > 0,
    ;
    lemma_signed_quotient(d, half);
    let v = d.spec_div(half).signed_steps();
    let ad = d.abs_steps() as int;
    assert(0x100_0000 * distance(h * v, ds * o) <= ad * o + 0x80_0000 * h);
    assert(2 * (h * v) == o * v && 2 * (ds * o) == o * (2 * ds) && 2 * (ad * o) == o * (2 * ad))
        by (nonlinear_arith)
        requires
            2 * h == o,
    ;
    lemma_drop_factor_of(o, v, 2 * ds, 2 * ad);
    assert((2 * pixel - 65535) * o == 2 * (pixel * o) - 65535 * o) by (nonlinear_arith);
}

proof fn lemma_drop_factor(o: int, x: int, y: int, k: int)
    requires
        o > 0,
        0x100_0000 * distance((65535 * o) * (x / 65535), y * o) <= y * o + 0x80_0000 * (k * o),
        x % 65535 == 0,
    ensures
        0x100_0000 * distance(x, y) <= y + 0x80_0000 * k,
{
    let s = x / 65535;
    assert((65535 * o) * s == o * x) by (nonlinear_arith)
        requires
            x == 65535 * s,
    ;
    let e = y + 0x80_0000 * k;
    assert(y * o + 0x80_0000 * (k * o) == o * e && y * o == o * y) by (nonlinear_arith)
        requires
            e == y + 0x80_0000 * k,
    ;
    let d = distance(x, y);
    assert(distance(o * x, o * y) == o * d) by (nonlinear_arith)
        requires
            d == distance(x, y),
            o > 0,
    ;
    assert(0x100_0000 * d <= e) by (nonlinear_arith)
        requires
            0x100_0000 * (o * d) <= o * e,
            o > 0,
    ;
}

proof fn lemma_drop_factor_of(o: int, x: int, y: int, a: int)
    requires
        o > 0,
        0x100_0000 * distance(o * x, o * y) <= o * a + 0x80_0000 * o,
    ensures
        0x100_0000 * distance(x, y) <= a + 0x80_0000,
{
    let d = distance(x, y);
    assert(distance(o * x, o * y) == o * d) by (nonlinear_arith)
        requires
            d == distance(x, y),
            o > 0,
    ;
    assert(0x100_0000 * d <= a + 0x80_0000) by (nonlinear_arith)
        requires
            0x100_0000 * (o * d) <= o * a + 0x80_0000 * o,
            o > 0,
    ;
}

/// A brighter sample has no smaller number.
pub proof fn encoder_values_keep_the_order(dark: u16, bright: u16)
    requires
        dark <= bright,
    ensures
        encoder_value(dark).spec_le(encoder_value(bright)),
{
    let o = one() as int;
    lemma_one_is_large();
    lemma_encoder_constants();
    let full = Float32 { bits: 0x477f_ff00 };
    let half = Float32 { bits: 0x3f00_0000 };
    let x = Float32::spec_from_u64(dark as u64);
    let y = Float32::spec_from_u64(bright as u64);
    small_integers_are_exact(dark as u64);
    small_integers_are_exact(bright as u64);
    assert(0 <= dark * o <= bright * o && bright * o <= 65535 * o) by (nonlinear_arith)
        requires
            0 <= dark <= bright <= 65535,
            o > 0,
    ;
    order_is_that_of_values(x, y);
    let big = full.abs_steps();
    assert(x.abs_steps() * o <= big * (0x100_0000_0000 * o) && y.abs_steps() * o <= big * (
    0x100_0000_0000 * o)) by (nonlinear_arith)
        requires
            x.abs_steps() <= 65535 * o,
            y.abs_steps() <= 65535 * o,
            big == 65535 * o,
            o > 0,
    ;
    lemma_quotient_order(x, y, full);
    lemma_ratio(x, full);
    lemma_ratio(y, full);
    let (p, q) = (x.spec_div(full), y.spec_div(full));
    order_is_that_of_values(p, q);
    lemma_negation(half);
    lemma_sums_keep_order(p, half.spec_neg(), q, half.spec_neg());
    differences_are_close(p, half);
    differences_are_close(q, half);
    let (d, e) = (p.spec_sub(half), q.spec_sub(half));
    let h = half.abs_steps();
    assert(d.abs_steps() <= o && e.abs_steps() <= o);
    assert(d.abs_steps() * o <= h * (0x100_0000_0000 * o) && e.abs_steps() * o <= h * (
    0x100_0000_0000 * o)) by (nonlinear_arith)
        requires
            d.abs_steps() <= o,
            e.abs_steps() <= o,
            2 * h == o,
            o > 0,
    ;
    lemma_quotient_order(d, e, half);
}

/// The encoder's input is the picture three times over: each of the planes holds, at each pixel,
/// the number that lies as far between -1 and 1 as the pixel's sample between black and white.
pub proof fn encoder_planes_show_the_picture(pixels: Seq<u16>, plane: int, k: int)
    requires
        pixels.len() == 112 * 112,
        0 <= plane < 3,
        0 <= k < 112 * 112,
    ensures
        encoder_input(pixels).len() == 3 * 112 * 112,
        0x10_0000 * distance(
            65535 * encoder_input(pixels)[plane * 112 * 112 + k].signed_steps(),
            (2 * pixels[k] - 65535) * one(),
        ) <= 65535 * one(),
{
    encoder_values_are_linear(pixels[k]);
    assert((plane * 112 * 112 + k) % 12544 == k);
}

/// The detector's number for a level is exactly a 128th of its distance from 127.
#[verifier::spinoff_prover]
#[verifier::rlimit(40)]
pub proof fn detector_values_are_exact(level: u8)
    ensures
        detector_value(level).is_finite(),
        128 * detector_value(level).signed_steps() == (level - 127) * one(),
{
    let o = one();
    lemma_pow2_pos(149);
    let x = Float32::spec_from_u64(level as u64);
    let c = Float32 { bits: 0x42fe_0000 };
    let r = Float32 { bits: 0x4300_0000 };
    small_integers_are_exact(level as u64);
    lemma_pow2_adds(17, 132);
    lemma_pow2_adds(23, 133);
    lemma_pow2_adds(7, 149);
    lemma_pow2_adds(7, 142);
    lemma2_to64();
    assert(c.magnitude() == 0x42fe_0000 && r.magnitude() == 0x4300_0000);
    assert(steps(0x42fe_0000) == 0xfe_0000 * pow2(132));
    assert(0xfe_0000 * pow2(132) == 127 * (0x2_0000 * pow2(132))) by (nonlinear_arith);
    assert(c.abs_steps() == 127 * o);
    assert(steps(0x4300_0000) == 0x80_0000 * pow2(133));
    assert(r.abs_steps() == 128 * o);
    lemma_negation(c);
    let negative = level < 127;
    let k: nat = if negative {
        (127 - level) as nat
    } else {
        (level - 127) as nat
    };
    let mag = short_significands_are_exact(k, 149);
    let d = x.spec_sub(c);
    assert((level - 127) * o == level * o - 127 * o) by (nonlinear_arith);
    assert((127 - level) * o == 127 * o - level * o) by (nonlinear_arith);
    assert(d.abs_steps() == k * o && (k > 0 ==> d.is_negative() == negative) && d.is_finite()) by {
        reveal(Float32::spec_add);
        rounding_keeps_values(1, mag);
        lemma_mul_basics(steps(mag) as int);
        lemma_mul_basics((k * o) as int);
        let sum = x.signed_steps() + c.spec_neg().signed_steps();
        assert(sum == level * o - 127 * o);
        if k == 0 {
            lemma_mul_basics(o as int);
            assert(level == 127);
            assert(sum == 0);
        } else {
            assert(k * o > 0) by (nonlinear_arith)
                requires
                    k > 0,
                    o > 0,
            ;
        }
        assert(d.magnitude() == mag || k == 0);
    }
    let mag2 = short_significands_are_exact(k, 142);
    assert(d.abs_steps() * o == r.abs_steps() * steps(mag2)) by (nonlinear_arith)
        requires
            d.abs_steps() == k * o,
            r.abs_steps() == 128 * o,
            steps(mag2) == k * pow2(142),
            o == 0x80 * pow2(142),
    ;
    rounding_keeps_values(r.abs_steps(), mag2);
    let v = detector_value(level);
    assert(v.abs_steps() == k * pow2(142) && v.is_finite() && v.is_negative() == d.is_negative())
        by {
        reveal(Float32::spec_div);
    }
    assert(128 * (k * pow2(142)) == k * o) by (nonlinear_arith)
        requires
            o == 0x80 * pow2(142),
    ;
    if k == 0 {
        lemma_mul_basics(o as int);
    }
}

/// The detector's input has one plane per channel: plane `c` holds, at pixel `k`, the number of
/// that pixel's channel `c`.
pub proof fn detector_planes_show_the_channels(rgb: Seq<u8>, c: int, k: int)
    requires
        rgb.len() == 3 * 320 * 240,
        0 <= c < 3,
        0 <= k < 320 * 240,
    ensures
        detector_input(rgb).len() == 3 * 320 * 240,
        128 * detector_input(rgb)[c * 320 * 240 + k].signed_steps() == (rgb[3 * k + c] - 127)
            * one(),
{
    let i = c * 320 * 240 + k;
    assert(i % 76800 == k && i / 76800 == c);
    detector_values_are_exact(rgb[3 * k + c]);
}

/// A sample's 8-bit level is the whole number nearest to its 257th part.
#[verifier::spinoff_prover]
#[verifier::rlimit(40)]
pub proof fn eight_bit_levels_are_nearest(sample: u16)
    ensures
        eight_bit(sample) == (sample + 128) / 257,
{
    let o = one() as int;
    lemma_one_is_large();
    lemma_encoder_constants();
    lemma_unity();
    let full = Float32 { bits: 0x477f_ff00 };
    let u = Float32 { bits: 0x3f80_0000 };
    let r = u.spec_div(full);
    assert(u.abs_steps() * o <= full.abs_steps() * (0x100_0000_0000 * o)) by (nonlinear_arith)
        requires
            u.abs_steps() == o,
            full.abs_steps() == 65535 * o,
            o > 0,
    ;
    lemma_signed_quotient(u, full);
    let rs = r.signed_steps();
    assert(0x100_0000 * distance((65535 * o) * rs, o * o) <= o * o + 0x80_0000 * (65535 * o));
    lemma_drop_factor(o, 65535 * rs, o, 65535);
    assert(r.abs_steps() <= o);
    let x = Float32::spec_from_u64(sample as u64);
    small_integers_are_exact(sample as u64);
    let s = sample as int;
    let so = s * o;
    assert(0 <= so <= 65535 * o) by (nonlinear_arith)
        requires
            so == s * o,
            0 <= s <= 65535,
            o > 0,
    ;
    assert(so * rs <= o * (0x100_0000_0000 * o)) by (nonlinear_arith)
        requires
            0 <= so <= 65535 * o,
            0 <= rs <= o,
    ;
    lemma_signed_product(x, r);
    let p = x.spec_mul(r);
    let ps = p.signed_steps();
    // o ps is close to s o rs: ps is close to s rs
    let sr = s * rs;
    assert(so * rs == o * sr) by (nonlinear_arith)
        requires
            so == s * o,
            sr == s * rs,
    ;
    lemma_drop_factor_of(o, ps, sr, sr);
    assert(0x100_0000 * distance(65535 * sr, so) <= so + 0x80_0000 * (65535 * s))
        by (nonlinear_arith)
        requires
            0x100_0000 * distance(65535 * rs, o) <= o + 0x80_0000 * 65535,
            sr == s * rs,
            so == s * o,
            s >= 0,
    ;
    let k = Float32 { bits: 0x437f_0000 };
    assert(k.abs_steps() == 255 * o) by {
        assert(k.magnitude() == 0x437f_0000);
        lemma_pow2_adds(16, 133);
        lemma2_to64();
        assert(steps(0x437f_0000) == 0xff_0000 * pow2(133));
        assert(0xff_0000 * pow2(133) == 255 * (0x1_0000 * pow2(133))) by (nonlinear_arith);
    }
    assert(!p.is_negative()) by {
        reveal(Float32::spec_mul);
    }
    assert(0 <= ps <= 2 * o);
    assert(ps * (255 * o) <= o * (0x100_0000_0000 * o)) by (nonlinear_arith)
        requires
            0 <= ps <= 2 * o,
    ;
    lemma_signed_product(p, k);
    let y = p.spec_mul(k);
    assert(!y.is_negative()) by {
        reveal(Float32::spec_mul);
    }
    let ys = y.signed_steps();
    assert(ps * (255 * o) == o * (255 * ps)) by (nonlinear_arith);
    lemma_drop_factor_of(o, ys, 255 * ps, 255 * ps);
    // 257 ys is close to s one
    assert(1000 * distance(257 * ys, so) <= 200 * o);
    reveal(Float32::spec_round_to_u32);
    let q = (s + 128) / 257;
    lemma_fundamental_div_mod(s + 128, 257);
    lemma_mod_bound(s + 128, 257);
    let qo = q * o;
    assert(257 * qo - 128 * o <= so <= 257 * qo + 128 * o) by (nonlinear_arith)
        requires
            257 * q - 128 <= s <= 257 * q + 128,
            qo == q * o,
            so == s * o,
            o > 0,
    ;
    assert(2 * qo <= 2 * ys + o < 2 * qo + 2 * o);
    assert((2 * ys + o) / (2 * o) == q) by {
        assert(2 * qo == q * (2 * o)) by (nonlinear_arith)
            requires
                qo == q * o,
        ;
        lemma_fundamental_div_mod_converse(2 * ys + o, 2 * o, q, 2 * ys + o - 2 * qo);
    }
}

/// A frame is resized from one sample per pixel: the frame's own samples first, black for the
/// pixels that have none, and nothing beyond the last pixel.
pub proof fn grids_hold_the_frames_samples(frame: IrFrame, i: int)
    requires
        0 <= i < frame.width * frame.height,
    ensures
        pixel_grid(frame).len() == frame.width * frame.height,
        i < frame.data@.len() ==> pixel_grid(frame)[i] == frame.data@[i],
        i >= frame.data@.len() ==> pixel_grid(frame)[i] == 0,
{
}

/// Samples stand row by row, from left to right: one column further is one sample further, and
/// one row further is as many samples further as a row has.
pub proof fn samples_stand_row_by_row(data: Seq<u16>, width: u32, x: int, y: int)
    ensures
        sample_at(data, width, 0, 0) == data[0],
        sample_at(data, width, x, y) == data[x + width * y],
        sample_at(data, width, x + width, y) == sample_at(data, width, x, y + 1),
{
    assert(y * width == width * y && (y + 1) * width + x == y * width + (x + width) && 0 * width
        == 0) by (nonlinear_arith);
}

} // verus!
