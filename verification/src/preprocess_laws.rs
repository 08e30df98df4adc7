//! What cropping and the motion signal guarantee.
use crate::capture::IrFrame;
use crate::detector::FaceBox;
use crate::float32::{lemma_steps_increase, one, round_magnitude, steps, Float32};
use crate::float_laws::{
    lemma_not_infinite, lemma_ratio, rounding_is_monotone, rounding_keeps_values,
    small_integers_are_exact, within,
};
use crate::preprocess::{
    changed_pixels, crop_fits, crop_window, holds_its_positions, motion_fraction, shifted,
    whole_pixels, zero,
};
use vstd::arithmetic::div_mod::*;
use vstd::arithmetic::mul::*;
use vstd::arithmetic::power2::*;
use vstd::prelude::*;

verus! {

/// An axis of up to 2^24 pixels holds every position that is clamped to it.
pub proof fn short_axes_hold_their_positions(size: u32)
    requires
        size <= 0x100_0000,
    ensures
        holds_its_positions(size),
{
    let o = one();
    lemma_pow2_pos(149);
    small_integers_are_exact(size as u64);
    reveal(Float32::spec_round_to_u32);
    assert(2 * (size * o) + o == size * (2 * o) + o) by (nonlinear_arith);
    lemma_fundamental_div_mod_converse(
        (2 * (size * o) + o) as int,
        2 * o as int,
        size as int,
        o as int,
    );
}

/// A value clamped to an axis rounds to a pixel position on it.
proof fn lemma_clamped_position(x: Float32, size: u32)
    requires
        holds_its_positions(size),
        size < u32::MAX,
    ensures
        x.spec_clamp(zero(), Float32::spec_from_u64(size as u64)).spec_round_to_u32() <= size,
{
    let w = Float32::spec_from_u64(size as u64);
    let c = x.spec_clamp(zero(), w);
    let o = one();
    lemma_pow2_pos(149);
    lemma_count_value(size);
    reveal(Float32::spec_round_to_u32);
    if !c.is_nan() && !c.is_negative() {
        assert(c.magnitude() <= w.magnitude());
        if c.magnitude() < w.magnitude() {
            lemma_steps_increase(c.magnitude(), w.magnitude());
        }
        lemma_div_is_ordered(
            (2 * c.abs_steps() + o) as int,
            (2 * w.abs_steps() + o) as int,
            2 * o as int,
        );
    }
}

proof fn lemma_count_value(size: u32)
    ensures
        Float32::spec_from_u64(size as u64).is_finite(),
        !Float32::spec_from_u64(size as u64).is_negative(),
{
    reveal(Float32::spec_from_u64);
    lemma_pow2_pos(149);
    assert(size * one() <= 1 * (0x100_0000_0000 * one())) by (nonlinear_arith)
        requires
            size <= u32::MAX,
            one() > 0,
    ;
    lemma_not_infinite(size as nat * one(), 1);
}

proof fn lemma_window_on_axis(edges: (Float32, Float32), side: Float32, size: u32)
    requires
        holds_its_positions(size),
        size < u32::MAX,
    ensures
        ({
            let (a, b) = whole_pixels(
                shifted(edges, side, Float32::spec_from_u64(size as u64)),
                size,
            );
            0 <= a <= b <= size
        }),
{
    let w = Float32::spec_from_u64(size as u64);
    let center = crate::preprocess::half_of(edges.0.spec_add(edges.1));
    let a = center.spec_sub(crate::preprocess::half_of(side));
    let b = center.spec_add(crate::preprocess::half_of(side));
    let (a, b) = if a.spec_lt(zero()) {
        (zero(), b.spec_sub(a))
    } else {
        (a, b)
    };
    let (a, b) = if w.spec_lt(b) {
        (a.spec_sub(b.spec_sub(w)), w)
    } else {
        (a, b)
    };
    lemma_clamped_position(a, size);
    assert(shifted(edges, side, w).0 == a.spec_clamp(zero(), w));
}

/// Whatever the face box and the margin, even what is not a number, the crop of a complete
/// frame lies in the frame, as long as rounding does not make a side longer than it is.
pub proof fn crops_stay_in_the_frame(frame: IrFrame, face_box: FaceBox, margin: Float32)
    requires
        frame.complete(),
        frame.width < u32::MAX,
        frame.height < u32::MAX,
        holds_its_positions(frame.width),
        holds_its_positions(frame.height),
    ensures
        crop_fits(frame, crop_window(frame.width, frame.height, face_box, margin)),
        ({
            let ((x1, x2), (y1, y2)) = crop_window(frame.width, frame.height, face_box, margin);
            0 <= x1 <= x2 <= frame.width && 0 <= y1 <= y2 <= frame.height
        }),
{
    let w = Float32::spec_from_u64(frame.width as u64);
    let h = Float32::spec_from_u64(frame.height as u64);
    let x = crate::preprocess::expanded(face_box.x1, face_box.x2, w, margin);
    let y = crate::preprocess::expanded(face_box.y1, face_box.y2, h, margin);
    let side = crate::preprocess::square_side(x, y, w, h);
    lemma_window_on_axis(x, side, frame.width);
    lemma_window_on_axis(y, side, frame.height);
    let ((x1, x2), (y1, y2)) = crop_window(frame.width, frame.height, face_box, margin);
    lemma_area(x1, x2, y1, y2, frame.width as int, frame.height as int);
}

proof fn lemma_area(x1: int, x2: int, y1: int, y2: int, width: int, height: int)
    requires
        0 <= x1 <= x2 <= width,
        0 <= y1 <= y2 <= height,
    ensures
        (x2 - x1) * (y2 - y1) <= width * height,
        y1 < y2 ==> (y2 - 1) * width + x2 <= width * height,
{
    assert((x2 - x1) * (y2 - y1) <= width * height) by (nonlinear_arith)
        requires
            0 <= x1 <= x2 <= width,
            0 <= y1 <= y2 <= height,
    ;
    if y1 < y2 {
        assert((y2 - 1) * width + width <= width * height) by (nonlinear_arith)
            requires
                0 <= y2 - 1 < height,
                0 <= width,
        ;
    }
}

/// Two equal frames show no motion.
pub proof fn a_still_scene_has_no_motion(a: IrFrame, b: IrFrame)
    requires
        a.data@ == b.data@,
        a.data@.len() <= u64::MAX,
    ensures
        motion_fraction(a, b) == zero(),
{
    if a.data@.len() > 0 {
        lemma_nothing_changed(a.data@, a.data@.len() as int);
        lemma_count_rounds(0);
        lemma_count_rounds(a.data@.len());
        let c = Float32::spec_from_u64(a.data@.len() as u64);
        let z = Float32::spec_from_u64(0);
        reveal(Float32::spec_div);
        lemma_steps_increase(0, c.magnitude());
        lemma_mul_basics(one() as int);
        rounding_keeps_values(c.abs_steps(), 0);
        lemma_mul_basics(c.abs_steps() as int);
    }
}

proof fn lemma_nothing_changed(a: Seq<u16>, n: int)
    ensures
        changed_pixels(a, a, n) == 0,
    decreases n,
{
    if n > 0 {
        lemma_nothing_changed(a, n - 1);
    }
}

/// Which of two frames came first does not matter to the motion between them.
pub proof fn motion_is_symmetric(a: IrFrame, b: IrFrame)
    ensures
        motion_fraction(a, b) == motion_fraction(b, a),
{
    lemma_changed_both_ways(a.data@, b.data@, a.data@.len() as int);
}

proof fn lemma_changed_both_ways(a: Seq<u16>, b: Seq<u16>, n: int)
    ensures
        changed_pixels(a, b, n) == changed_pixels(b, a, n),
    decreases n,
{
    if n > 0 {
        lemma_changed_both_ways(a, b, n - 1);
    }
}

proof fn lemma_changed_bound(a: Seq<u16>, b: Seq<u16>, n: int)
    requires
        n >= 0,
    ensures
        changed_pixels(a, b, n) <= n,
    decreases n,
{
    if n > 0 {
        lemma_changed_bound(a, b, n - 1);
    }
}

/// A count is a finite number, and zero only for none.
pub proof fn lemma_count_rounds(x: nat)
    requires
        x <= u64::MAX,
    ensures
        !Float32::spec_from_u64(x as u64).is_negative(),
        Float32::spec_from_u64(x as u64).is_finite(),
        x > 0 <==> !Float32::spec_from_u64(x as u64).is_zero(),
        Float32::spec_from_u64(x as u64).magnitude() == round_magnitude(x * one(), 1),
{
    reveal(Float32::spec_from_u64);
    lemma_pow2_pos(149);
    let o = one();
    // 2^64 as a pattern
    let top: nat = 0x5f80_0000;
    lemma_pow2_adds(64, 149);
    lemma_pow2_adds(23, 190);
    lemma2_to64();
    lemma2_to64_rest();
    assert(steps(top) == 0x80_0000 * pow2(190));
    assert(pow2(64) == 0x1_0000_0000_0000_0000);
    rounding_keeps_values(1, top);
    lemma_mul_basics(steps(top) as int);
    lemma_mul_basics((x * o) as int);
    assert((x * o) * 1 <= (1 * steps(top)) * 1) by {
        assert(x * o <= 0x1_0000_0000_0000_0000 * o) by (nonlinear_arith)
            requires
                x <= 0x1_0000_0000_0000_0000,
        ;
    }
    rounding_is_monotone(x * o, 1, 1 * steps(top), 1);
    rounding_keeps_values(1, 0);
    lemma_mul_basics(o as int);
    if x > 0 {
        rounding_keeps_values(1, 1);
        assert(1nat * 1 <= (x * o) * 1) by (nonlinear_arith)
            requires
                x > 0,
                o > 0,
        ;
        rounding_is_monotone(1, 1, x * o, 1);
    }
}

/// The motion between two frames is a fraction: between zero and one.
pub proof fn motion_is_a_fraction(a: IrFrame, b: IrFrame)
    requires
        a.data@.len() <= u64::MAX,
    ensures
        within(motion_fraction(a, b), one()),
{
    lemma_pow2_pos(149);
    let n = a.data@.len();
    if a.width == b.width && a.height == b.height && n == b.data@.len() && n > 0 {
        let k = changed_pixels(a.data@, b.data@, n as int);
        lemma_changed_bound(a.data@, b.data@, n as int);
        lemma_count_rounds(k);
        lemma_count_rounds(n);
        let o = one();
        assert((k * o) * 1 <= (n * o) * 1) by (nonlinear_arith)
            requires
                k <= n,
        ;
        rounding_is_monotone(k * o, 1, n * o, 1);
        let x = Float32::spec_from_u64(k as u64);
        let y = Float32::spec_from_u64(n as u64);
        if x.magnitude() < y.magnitude() {
            lemma_steps_increase(x.magnitude(), y.magnitude());
        }
        lemma_ratio(x, y);
    }
}

/// A number no larger than a half, doubled, is no larger than one.
#[verifier::rlimit(30)]
proof fn lemma_half_distance(v: Float32)
    requires
        within(v, one()),
    ensures
        ({
            let half = Float32 { bits: 0x3f00_0000 };
            let r = v.spec_sub(half).spec_div(half);
            r.is_finite() && r.abs_steps() <= one()
        }),
{
    let half = Float32 { bits: 0x3f00_0000 };
    let o = one();
    let h = half.abs_steps();
    lemma_pow2_pos(149);
    lemma_pow2_adds(1, 148);
    lemma_pow2_adds(23, 125);
    lemma2_to64();
    assert(half.magnitude() == 0x3f00_0000);
    assert(steps(0x3f00_0000) == 0x80_0000 * pow2(125));
    assert(2 * h == o);
    let d = v.spec_sub(half);
    assert(d.is_finite() && d.abs_steps() <= h) by {
        reveal(Float32::spec_add);
        let n = half.spec_neg();
        assert(n.magnitude() == half.magnitude() && n.is_negative());
        let sum = v.signed_steps() + n.signed_steps();
        assert(sum == v.abs_steps() - h);
        let m = if sum < 0 {
            (-sum) as nat
        } else {
            sum as nat
        };
        rounding_keeps_values(1, half.magnitude());
        lemma_mul_basics(h as int);
        lemma_mul_basics(m as int);
        rounding_is_monotone(m, 1, 1 * h, 1);
        let g = round_magnitude(m, 1);
        assert(g <= half.magnitude());
        if g < half.magnitude() {
            lemma_steps_increase(g, half.magnitude());
        }
    }
    reveal(Float32::spec_div);
    crate::float_laws::lemma_unity();
    let u = crate::float_laws::unity();
    let n = d.abs_steps() * o;
    assert(n * h <= (h * o) * h) by (nonlinear_arith)
        requires
            n == d.abs_steps() * o,
            d.abs_steps() <= h,
    ;
    rounding_keeps_values(h, u.magnitude());
    rounding_is_monotone(n, h, h * o, h);
    let g = round_magnitude(n, h);
    if g < u.magnitude() {
        lemma_steps_increase(g, u.magnitude());
    }
}

/// Every number of the encoder's input lies between -1 and 1.
pub proof fn encoder_values_lie_within_one(pixel: u16)
    ensures
        crate::preprocess::encoder_value(pixel).is_finite(),
        -one() <= crate::preprocess::encoder_value(pixel).signed_steps() <= one(),
{
    let full = Float32 { bits: 0x477f_ff00 };
    lemma_count_rounds(pixel as nat);
    lemma_count_rounds(65535);
    small_integers_are_exact(pixel as u64);
    small_integers_are_exact(65535);
    lemma_pow2_pos(149);
    lemma_pow2_adds(8, 141);
    lemma2_to64();
    assert(full.magnitude() == 0x477f_ff00);
    assert(steps(0x477f_ff00) == 0xff_ff00 * pow2(141));
    assert(full.abs_steps() == 65535 * one());
    assert(pixel * one() <= 65535 * one()) by (nonlinear_arith)
        requires
            pixel <= 65535,
    ;
    lemma_ratio(Float32::spec_from_u64(pixel as u64), full);
    lemma_half_distance(Float32::spec_from_u64(pixel as u64).spec_div(full));
}

} // verus!
