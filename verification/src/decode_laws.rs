//! How the network's numbers move and stretch an anchor.
use crate::detector::{
    best_anchor, decoded, delta_at, edges, exponents, face_anchor, moved_center, prior_grid,
    BoxDelta, FaceBox, Prior, CENTER_VARIANCE_BITS, SIZE_VARIANCE_BITS,
};
use crate::detector_laws::{
    anchors_lie_in_the_picture, best_anchor_is_best, lemma_center_stays_near, lemma_product_steps,
    lemma_sums_keep_order, modest, moderate, short_move,
};
use crate::float32::{one, round_magnitude, steps, Float32};
use crate::float_laws::{
    differences_are_close, distance, lemma_negation, lemma_two, rounding_lower_bound,
    rounding_upper_bound, sums_are_close, two, within,
};
use vstd::arithmetic::power2::*;
use vstd::prelude::*;

verus! {

/// One, in the steps in which a fifth and a tenth are given.
proof fn lemma_fifth()
    ensures
        one() == 0x400_0000 * pow2(123),
        pow2(123) > 0x1_0000_0000,
        5 * (Float32 { bits: SIZE_VARIANCE_BITS }).abs_steps() == one() + pow2(123),
        10 * (Float32 { bits: CENTER_VARIANCE_BITS }).abs_steps() == one() + pow2(123),
{
    let v = Float32 { bits: SIZE_VARIANCE_BITS };
    let t = Float32 { bits: CENTER_VARIANCE_BITS };
    lemma_pow2_adds(26, 123);
    lemma_pow2_adds(32, 91);
    lemma_pow2_strictly_increases(0, 91);
    lemma_pow2_unfold(123);
    lemma2_to64();
    assert(v.magnitude() == 0x3e4c_cccd && t.magnitude() == 0x3dcc_cccd);
    assert(steps(0x3e4c_cccd) == 0xcc_cccd * pow2(123));
    assert(steps(0x3dcc_cccd) == 0xcc_cccd * pow2(122));
}

/// A wider face has no smaller exponent: the exponents keep the order of the deltas, for each
/// side on its own.
pub proof fn exponents_keep_the_order(d: BoxDelta, e: BoxDelta)
    ensures
        d.dw.spec_le(e.dw) ==> exponents(d).0.spec_le(exponents(e).0),
        d.dh.spec_le(e.dh) ==> exponents(d).1.spec_le(exponents(e).1),
{
    let v = Float32 { bits: SIZE_VARIANCE_BITS };
    lemma_fifth();
    if d.dw.spec_le(e.dw) {
        crate::crop_laws::lemma_scaled_order(d.dw, e.dw, v);
    }
    if d.dh.spec_le(e.dh) {
        crate::crop_laws::lemma_scaled_order(d.dh, e.dh, v);
    }
}

/// The opposite delta has the opposite exponent, so that what narrows a face and what widens it
/// are never confused.
pub proof fn exponents_are_odd(d: BoxDelta)
    requires
        d.dw.is_finite(),
        d.dh.is_finite(),
    ensures
        ({
            let opposite = BoxDelta {
                dx: d.dx,
                dy: d.dy,
                dw: d.dw.spec_neg(),
                dh: d.dh.spec_neg(),
            };
            &&& exponents(opposite).0 == exponents(d).0.spec_neg()
            &&& exponents(opposite).1 == exponents(d).1.spec_neg()
        }),
        d.dw.is_negative() <==> exponents(d).0.is_negative(),
        d.dh.is_negative() <==> exponents(d).1.is_negative(),
{
    reveal(Float32::spec_mul);
    lemma_negation(d.dw);
    lemma_negation(d.dh);
}

/// Width and height are treated alike.
pub proof fn exponents_treat_sides_alike(d: BoxDelta)
    ensures
        ({
            let turned = BoxDelta { dx: d.dy, dy: d.dx, dw: d.dh, dh: d.dw };
            exponents(turned) == (exponents(d).1, exponents(d).0)
        }),
{
}

/// How far a product is off its exact value, with its sign.
pub proof fn lemma_signed_product(a: Float32, b: Float32)
    requires
        a.is_finite(),
        b.is_finite(),
        a.abs_steps() * b.abs_steps() <= one() * (0x100_0000_0000 * one()),
    ensures
        a.spec_mul(b).is_finite(),
        0x100_0000 * distance(
            one() * a.spec_mul(b).signed_steps(),
            a.signed_steps() * b.signed_steps(),
        ) <= a.abs_steps() * b.abs_steps() + 0x80_0000 * one(),
{
    let o = one();
    let n = a.abs_steps() * b.abs_steps();
    lemma_pow2_pos(149);
    crate::float_laws::lemma_not_infinite(n, o);
    rounding_upper_bound(n, o);
    rounding_lower_bound(n, o);
    let p = a.spec_mul(b);
    let negative = a.is_negative() != b.is_negative();
    assert(p == Float32::pack(negative, round_magnitude(n, o))) by {
        reveal(Float32::spec_mul);
    }
    let v = p.abs_steps();
    assert(p.signed_steps() == if negative {
        -(v as int)
    } else {
        v as int
    });
    let x = a.abs_steps() as int;
    let y = b.abs_steps() as int;
    assert((-x) * y == -(x * y) && x * (-y) == -(x * y) && (-x) * (-y) == x * y && o * (-v)
        == -(o * v)) by (nonlinear_arith);
}

/// The exponents are a fifth of the deltas, up to a millionth.
pub proof fn exponents_are_a_fifth(d: BoxDelta)
    requires
        d.dw.is_finite(),
        d.dh.is_finite(),
        d.dw.abs_steps() <= 0x1000_0000 * one(),
        d.dh.abs_steps() <= 0x1000_0000 * one(),
    ensures
        0x10_0000 * distance(5 * exponents(d).0.signed_steps(), d.dw.signed_steps())
            <= d.dw.abs_steps() + 0x40_0000,
        0x10_0000 * distance(5 * exponents(d).1.signed_steps(), d.dh.signed_steps())
            <= d.dh.abs_steps() + 0x40_0000,
{
    lemma_a_fifth(d.dw);
    lemma_a_fifth(d.dh);
}

proof fn lemma_a_fifth(x: Float32)
    requires
        x.is_finite(),
        x.abs_steps() <= 0x1000_0000 * one(),
    ensures
        0x10_0000 * distance(
            5 * x.spec_mul(Float32 { bits: SIZE_VARIANCE_BITS }).signed_steps(),
            x.signed_steps(),
        ) <= x.abs_steps() + 0x40_0000,
{
    let v = Float32 { bits: SIZE_VARIANCE_BITS };
    let o = one() as int;
    let u = pow2(123) as int;
    lemma_fifth();
    let s = x.signed_steps();
    let a = x.abs_steps() as int;
    let t = v.abs_steps() as int;
    assert(a * t <= o * (0x100_0000_0000 * o)) by (nonlinear_arith)
        requires
            0 <= a <= 0x1000_0000 * o,
            0 <= t <= o,
    ;
    lemma_signed_product(x, v);
    let e = x.spec_mul(v).signed_steps();
    let oe = o * e;
    let st = s * t;
    let at = a * t;
    let su = s * u;
    let au = a * u;
    // everything in units of u, of which one has 2^26
    assert(5 * st == 0x400_0000 * su + su && 5 * at == 0x400_0000 * au + au && oe == 0x400_0000 * (
    u * e)) by (nonlinear_arith)
        requires
            st == s * t,
            at == a * t,
            su == s * u,
            au == a * u,
            5 * t == o + u,
            o == 0x400_0000 * u,
            oe == o * e,
    ;
    assert(distance(su, 0) == au) by (nonlinear_arith)
        requires
            su == s * u,
            au == a * u,
            s == a || s == -a,
            a >= 0,
            u > 0,
    ;
    let ue = u * e;
    assert(0x100_0000 * distance(0x400_0000 * ue, st) <= at + 0x80_0000 * o);
    assert(0x100_0000 * distance(5 * (0x400_0000 * ue), 5 * st) <= 5 * at + 5 * (0x80_0000 * o));
    assert(0x10_0000 * distance(5 * ue, su) <= au + 0x40_0000 * u);
    let d = distance(5 * e, s);
    assert(distance(5 * ue, su) == u * d) by (nonlinear_arith)
        requires
            ue == u * e,
            su == s * u,
            u > 0,
            d == distance(5 * e, s),
    ;
    assert(0x10_0000 * d <= a + 0x40_0000) by (nonlinear_arith)
        requires
            0x10_0000 * (u * d) <= au + 0x40_0000 * u,
            au == a * u,
            u > 0,
    ;
}

/// Both directions are decoded alike: an anchor, a delta and a growth that are turned by a right
/// angle give the turned box.
pub proof fn boxes_treat_directions_alike(p: Prior, d: BoxDelta, growth: (Float32, Float32))
    ensures
        ({
            let b = decoded(p, d, growth);
            decoded(
                Prior { cx: p.cy, cy: p.cx, w: p.h, h: p.w },
                BoxDelta { dx: d.dy, dy: d.dx, dw: d.dh, dh: d.dw },
                (growth.1, growth.0),
            ) == (FaceBox { x1: b.y1, y1: b.x1, x2: b.y2, y2: b.x2 })
        }),
{
}

/// A larger delta moves the center no less far.
pub proof fn centers_keep_the_order(center: Float32, extent: Float32, d: Float32, e: Float32)
    requires
        within(center, one()),
        modest(extent),
        short_move(d),
        short_move(e),
        d.spec_le(e),
    ensures
        moved_center(center, extent, d).spec_le(moved_center(center, extent, e)),
{
    let v = Float32 { bits: CENTER_VARIANCE_BITS };
    lemma_fifth();
    let o = one();
    lemma_pow2_pos(149);
    crate::crop_laws::lemma_scaled_order(d, e, v);
    if extent.is_zero() {
        assert(extent.abs_steps() == 0);
    }
    crate::crop_laws::lemma_scaled_order(d.spec_mul(v), e.spec_mul(v), extent);
    lemma_move_is_short(d, extent);
    lemma_move_is_short(e, extent);
    let x = d.spec_mul(v).spec_mul(extent);
    let y = e.spec_mul(v).spec_mul(extent);
    crate::float_laws::order_is_that_of_values(x, y);
    lemma_sums_keep_order(x, center, y, center);
}

/// A short move, in steps.
proof fn lemma_move_is_short(delta: Float32, extent: Float32)
    requires
        modest(extent),
        short_move(delta),
    ensures
        ({
            let v = Float32 { bits: CENTER_VARIANCE_BITS };
            let m = delta.spec_mul(v);
            &&& m.is_finite() && m.abs_steps() <= 0x1000 * one()
            &&& m.spec_mul(extent).is_finite()
            &&& m.spec_mul(extent).abs_steps() <= 0x2000 * one()
        }),
{
    let o = one();
    let v = Float32 { bits: CENTER_VARIANCE_BITS };
    lemma_fifth();
    assert(delta.abs_steps() * v.abs_steps() <= (0x1000 * o) * o) by (nonlinear_arith)
        requires
            delta.abs_steps() <= 0x1000 * o,
            v.abs_steps() <= o,
    ;
    lemma_product_steps(delta, v, 0x1000);
    let m = delta.spec_mul(v);
    assert(m.abs_steps() * extent.abs_steps() <= (0x2000 * o) * o) by (nonlinear_arith)
        requires
            m.abs_steps() <= 0x1000 * o,
            extent.abs_steps() <= 2 * o,
    ;
    lemma_product_steps(m, extent, 0x2000);
}

/// The center moves by a tenth of the delta, counted in the anchor's own side. In steps, the
/// product of the delta and the side has one more factor of one.
#[verifier::spinoff_prover]
#[verifier::rlimit(40)]
pub proof fn centers_move_by_a_tenth(center: Float32, extent: Float32, delta: Float32)
    requires
        within(center, one()),
        modest(extent),
        short_move(delta),
    ensures
        64 * distance(
            10 * (moved_center(center, extent, delta).signed_steps() - center.signed_steps())
                * one(),
            delta.signed_steps() * extent.signed_steps(),
        ) <= one() * one(),
{
    let o = one() as int;
    let u = pow2(123) as int;
    let v = Float32 { bits: CENTER_VARIANCE_BITS };
    lemma_fifth();
    lemma_pow2_pos(149);
    lemma_move_is_short(delta, extent);
    let d = delta.signed_steps();
    let x = extent.signed_steps();
    let t = v.abs_steps() as int;
    let m = delta.spec_mul(v);
    let p = m.spec_mul(extent);
    let ad = delta.abs_steps() as int;
    let am = m.abs_steps() as int;
    assert(ad * t <= o * (0x100_0000_0000 * o) && ad * t <= 0x1000 * (o * o)) by (nonlinear_arith)
        requires
            0 <= ad <= 0x1000 * o,
            0 <= t <= o,
    ;
    assert(am * x <= o * (0x100_0000_0000 * o) && am * x <= 0x2000 * (o * o)) by (nonlinear_arith)
        requires
            0 <= am <= 0x1000 * o,
            0 <= x <= 2 * o,
    ;
    lemma_signed_product(delta, v);
    lemma_signed_product(m, extent);
    sums_are_close(p, center);
    let ms = m.signed_steps();
    let ps = p.signed_steps();
    let c = center.signed_steps();
    let r = moved_center(center, extent, delta).signed_steps();
    let oo = o * o;
    assert(oo >= 0x1_0000_0000 * o) by (nonlinear_arith)
        requires
            oo == o * o,
            o >= 0x1_0000_0000,
    ;
    // the sum: r - c is close to ps
    assert(0x100_0000 * distance(r, ps + c) <= 0x2001 * o + 0x80_0000);
    assert(0x100_0000 * distance(o * (r - c), o * ps) <= 0x2001 * oo + 0x80_0000 * o)
        by (nonlinear_arith)
        requires
            0x100_0000 * distance(r, ps + c) <= 0x2001 * o + 0x80_0000,
            oo == o * o,
            o > 0,
    ;
    // the second product: o ps is close to ms x
    assert(0x100_0000 * distance(o * ps, ms * x) <= 0x2000 * oo + 0x80_0000 * o);
    // the first product: o ms is close to d t, so ms x is close to d t x / o
    assert(0x100_0000 * distance(o * ms, d * t) <= 0x1000 * oo + 0x80_0000 * o);
    lemma_tenth(o, u, d, t, x, ms, oo);
    assert(0x100_0000 * distance(10 * (o * (r - c)), d * x) <= 0x3_f000 * oo);
    assert(10 * (r - c) * o == 10 * (o * (r - c))) by (nonlinear_arith);
}

proof fn lemma_tenth(o: int, u: int, d: int, t: int, x: int, ms: int, oo: int)
    requires
        o == 0x400_0000 * u,
        u > 0x1_0000_0000,
        10 * t == o + u,
        oo == o * o,
        0 <= x <= 2 * o,
        -0x1000 * o <= d <= 0x1000 * o,
        0x100_0000 * distance(o * ms, d * t) <= 0x1000 * oo + 0x80_0000 * o,
    ensures
        0x100_0000 * distance(10 * (ms * x), d * x) <= 0x1_6000 * oo,
{
    // 10 o ms is close to d (o + u)
    let f = 10 * ms - d;
    assert(10 * (o * ms) - 10 * (d * t) == o * f - d * u) by (nonlinear_arith)
        requires
            10 * t == o + u,
            f == 10 * ms - d,
    ;
    assert(distance(d * u, 0) <= 0x1000 * (o * u)) by (nonlinear_arith)
        requires
            -0x1000 * o <= d <= 0x1000 * o,
            u > 0,
    ;
    assert(0x400_0000 * (o * u) == oo) by (nonlinear_arith)
        requires
            o == 0x400_0000 * u,
            oo == o * o,
    ;
    assert(oo >= 0x1_0000_0000 * o) by (nonlinear_arith)
        requires
            oo == o * o,
            o >= 0x1_0000_0000,
    ;
    assert(0x100_0000 * distance(o * f, 0) <= 0xb000 * oo);
    assert(0x100_0000 * distance(f, 0) <= 0xb000 * o) by (nonlinear_arith)
        requires
            0x100_0000 * distance(o * f, 0) <= 0xb000 * oo,
            oo == o * o,
            o > 0,
    ;
    assert(0x100_0000 * distance(f * x, 0) <= 0x1_6000 * oo) by (nonlinear_arith)
        requires
            0x100_0000 * distance(f, 0) <= 0xb000 * o,
            0 <= x <= 2 * o,
            oo == o * o,
    ;
    assert(f * x == 10 * (ms * x) - d * x) by (nonlinear_arith)
        requires
            f == 10 * ms - d,
    ;
}

/// One direction of a decoded box.
#[verifier::spinoff_prover]
#[verifier::rlimit(40)]
proof fn lemma_decoded_axis(center: Float32, extent: Float32, delta: Float32, growth: Float32)
    requires
        within(center, one()),
        modest(extent),
        short_move(delta),
        moderate(growth),
    ensures
        ({
            let o = one() as int;
            let (a, b) = edges(moved_center(center, extent, delta), growth.spec_mul(extent));
            let (low, high) = (a.signed_steps(), b.signed_steps());
            &&& a.is_finite() && b.is_finite()
            &&& 64 * distance(
                (high - low) * o,
                growth.signed_steps() * extent.signed_steps(),
            ) <= o * o
            &&& 8 * distance(
                10 * (low + high - 2 * center.signed_steps()) * o,
                2 * (delta.signed_steps() * extent.signed_steps()),
            ) <= o * o
        }),
{
    let o = one() as int;
    lemma_fifth();
    lemma_two();
    lemma_center_stays_near(center, extent, delta);
    centers_move_by_a_tenth(center, extent, delta);
    let mc = moved_center(center, extent, delta);
    let m = mc.signed_steps();
    let (g, x) = (growth.signed_steps(), extent.signed_steps());
    let oo = o * o;
    assert(0 <= g * x <= 4 * oo && g * x <= o * (0x100_0000_0000 * o) && g * x <= (4 * o) * o)
        by (nonlinear_arith)
        requires
            0 <= g <= 2 * o,
            0 <= x <= 2 * o,
            oo == o * o,
    ;
    lemma_product_steps(growth, extent, 4);
    lemma_signed_product(growth, extent);
    let y = growth.spec_mul(extent);
    let ys = y.signed_steps();
    assert(two().signed_steps() == 2 * o);
    assert(ys * o <= (2 * o) * (0x100_0000_0000 * o)) by (nonlinear_arith)
        requires
            0 <= ys <= 4 * o,
    ;
    if two().is_zero() {
        assert(two().abs_steps() == 0);
    }
    crate::pixel_laws::lemma_signed_quotient(y, two());
    let half = y.spec_div(two());
    let h = half.signed_steps();
    let d = distance(2 * h, ys);
    assert((2 * o) * h == o * (2 * h) && ys * o == o * ys) by (nonlinear_arith);
    assert(distance(o * (2 * h), o * ys) == o * d) by (nonlinear_arith)
        requires
            d == distance(2 * h, ys),
            o > 0,
    ;
    assert(0x100_0000 * d <= ys + 0x100_0000) by (nonlinear_arith)
        requires
            0x100_0000 * (o * d) <= o * ys + 0x80_0000 * (2 * o),
            o > 0,
    ;
    assert(0 <= h <= 3 * o);
    differences_are_close(mc, half);
    sums_are_close(mc, half);
    let (a, b) = edges(mc, y);
    let (low, high) = (a.signed_steps(), b.signed_steps());
    assert(0x100_0000 * distance(low, m - h) <= 0x4004 * o);
    assert(0x100_0000 * distance(high, m + h) <= 0x4004 * o);
    assert(0x100_0000 * distance(high - low, ys) <= 0x8010 * o);
    assert(oo >= 0x1_0000_0000 * o) by (nonlinear_arith)
        requires
            oo == o * o,
            o >= 0x1_0000_0000,
    ;
    assert(0x100_0000 * distance((high - low) * o, o * ys) <= 0x8010 * oo) by (nonlinear_arith)
        requires
            0x100_0000 * distance(high - low, ys) <= 0x8010 * o,
            oo == o * o,
            o > 0,
    ;
    assert(0x100_0000 * distance(o * ys, g * x) <= 4 * oo + 0x80_0000 * o);
    let c = center.signed_steps();
    let t = low + high - 2 * c;
    assert(0x100_0000 * distance(t, 2 * (m - c)) <= 0x8008 * o);
    assert(0x100_0000 * distance(10 * t * o, 20 * ((m - c) * o)) <= 0x5_0050 * oo)
        by (nonlinear_arith)
        requires
            0x100_0000 * distance(t, 2 * (m - c)) <= 0x8008 * o,
            oo == o * o,
            o > 0,
    ;
    assert(10 * (m - c) * o == 10 * ((m - c) * o)) by (nonlinear_arith);
}

/// A decoded box is its anchor, moved and grown: its sides are the anchor's times the growth, and
/// its middle is the anchor's, moved by a tenth of the delta counted in the anchor's sides. So it
/// is for every anchor, up to rounding, if the center moves by a delta of at most 4096 and the
/// sides grow or shrink by a factor of two at most.
pub proof fn boxes_are_moved_and_grown_anchors(
    k: int,
    delta: BoxDelta,
    growth: (Float32, Float32),
)
    requires
        0 <= k < 4420,
        short_move(delta.dx),
        short_move(delta.dy),
        moderate(growth.0),
        moderate(growth.1),
    ensures
        ({
            let o = one() as int;
            let p = prior_grid()[k];
            let b = decoded(p, delta, growth);
            let (x1, x2) = (b.x1.signed_steps(), b.x2.signed_steps());
            let (y1, y2) = (b.y1.signed_steps(), b.y2.signed_steps());
            let (w, h) = (p.w.signed_steps(), p.h.signed_steps());
            &&& 64 * distance((x2 - x1) * o, growth.0.signed_steps() * w) <= o * o
            &&& 64 * distance((y2 - y1) * o, growth.1.signed_steps() * h) <= o * o
            &&& 8 * distance(
                10 * (x1 + x2 - 2 * p.cx.signed_steps()) * o,
                2 * (delta.dx.signed_steps() * w),
            ) <= o * o
            &&& 8 * distance(
                10 * (y1 + y2 - 2 * p.cy.signed_steps()) * o,
                2 * (delta.dy.signed_steps() * h),
            ) <= o * o
        }),
{
    let p = prior_grid()[k];
    anchors_lie_in_the_picture(k);
    lemma_decoded_axis(p.cx, p.w, delta.dx, growth.0);
    lemma_decoded_axis(p.cy, p.h, delta.dy, growth.1);
}

/// The best face is reported: for a threshold above zero, an anchor is reported only if its own
/// face score, the second of its pair, reaches the threshold, no anchor's face score is higher,
/// and every anchor before it has a lower one. Nothing is reported only if no face score reaches
/// the threshold. The first scores of the pairs do not matter.
pub proof fn the_best_face_is_reported(scores: Seq<Float32>, threshold: Float32, j: int)
    requires
        (Float32 { bits: 0 }).spec_lt(threshold),
        0 <= j < scores.len() as int / 2,
    ensures
        match face_anchor(scores, threshold) {
            Some(i) => {
                &&& 0 <= i < scores.len() as int / 2
                &&& threshold.spec_le(scores[2 * i + 1])
                &&& !scores[2 * i + 1].spec_lt(scores[2 * j + 1])
                &&& j < i ==> scores[2 * j + 1].is_nan() || scores[2 * j + 1].spec_lt(
                    scores[2 * i + 1],
                )
            },
            None => !threshold.spec_le(scores[2 * j + 1]),
        },
{
    let n = scores.len() as int / 2;
    best_anchor_is_best(scores, n, j);
    let (b, s) = best_anchor(scores, n);
}

/// A threshold of zero or less is always reached.
pub proof fn low_thresholds_are_always_reached(scores: Seq<Float32>, threshold: Float32)
    requires
        !(Float32 { bits: 0 }).spec_lt(threshold),
    ensures
        face_anchor(scores, threshold) is Some,
{
    let n = scores.len() as int / 2;
    lemma_best_is_not_negative(scores, n);
}

proof fn lemma_best_is_not_negative(scores: Seq<Float32>, n: int)
    ensures
        (Float32 { bits: 0 }).spec_le(best_anchor(scores, n).1),
    decreases n,
{
    if n > 0 {
        lemma_best_is_not_negative(scores, n - 1);
    }
}

/// Every anchor has four numbers of its own: leaving out the first anchor's four moves all others
/// up by one anchor, and they come in the order of the two moves and the two sizes.
pub proof fn deltas_follow_one_another(boxes: Seq<Float32>, i: int)
    requires
        0 <= i,
        4 * i + 8 <= boxes.len(),
    ensures
        delta_at(boxes, i + 1) == delta_at(boxes.skip(4), i),
        ({
            let d = delta_at(boxes, i);
            boxes.subrange(4 * i, 4 * i + 4) == seq![d.dx, d.dy, d.dw, d.dh]
        }),
{
    let d = delta_at(boxes, i);
    assert(boxes.subrange(4 * i, 4 * i + 4) =~= seq![d.dx, d.dy, d.dw, d.dh]);
}

} // verus!
