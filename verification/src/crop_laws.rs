//! Crops are square, cover the face, and keep their size at the edges of a frame.
use crate::detector::FaceBox;
use crate::float32::{one, round_magnitude, steps, Float32, INFINITE};
use crate::float_laws::{
    differences_are_close, distance, lemma_product_bound, lemma_two, lemma_unity,
    order_is_that_of_values, rounding_is_monotone, rounding_keeps_values, rounding_lower_bound,
    rounding_upper_bound, small_integers_are_exact, sums_are_close, two, unity,
};
use crate::preprocess::{
    crop_window, expanded, half_of, shifted, square_side, whole_pixels, zero,
};
use crate::window_laws::{
    lemma_pixel, lemma_round_is_pixel, lemma_sign_of_difference, pixel,
    windows_round_to_their_extent,
};
use vstd::arithmetic::div_mod::*;
use vstd::arithmetic::mul::*;
use vstd::arithmetic::power2::*;
use vstd::prelude::*;

verus! {

/// The largest frame side that these laws speak of. Beyond it the arithmetic of the crop can be
/// off by more than half a pixel.
pub const MAX_SIDE: u32 = 0x1_0000;

/// The length of an axis of `top` pixels, in steps.
spec fn span(top: u32) -> int {
    top * one() as int
}

/// How far what is computed of positions around an axis of `top` pixels can be off: the
/// millionth part of its length, in round numbers.
pub open spec fn tolerance(top: u32) -> int {
    top * pow2(129) + 1
}

proof fn lemma_tolerance(top: u32)
    requires
        0 < top <= MAX_SIDE,
    ensures
        0x10_0000 * tolerance(top) == span(top) + 0x10_0000,
        16 * tolerance(top) <= one() + 16,
        tolerance(top) > 0,
        one() <= span(top) <= 0x1_0000 * one(),
        one() >= 0x1_0000_0000,
{
    lemma_pow2_adds(20, 129);
    lemma_pow2_adds(32, 117);
    lemma_pow2_pos(129);
    lemma_pow2_pos(117);
    lemma2_to64();
    let u = pow2(129) as int;
    assert(one() == 0x10_0000 * u);
    assert(top * (0x10_0000 * u) == 0x10_0000 * (top * u)) by (nonlinear_arith);
    assert(u <= top * u <= 0x1_0000 * u) by (nonlinear_arith)
        requires
            0 < top <= 0x1_0000,
            u > 0,
    ;
}

proof fn lemma_span(size: u32, top: u32)
    requires
        size <= top,
    ensures
        0 <= size * one() <= span(top),
        span(size) == size * one(),
{
    lemma_pow2_pos(149);
    assert(0 <= size * one() <= top * one()) by (nonlinear_arith)
        requires
            0 <= size <= top,
            one() > 0,
    ;
}

/// What is computed of pixel positions is off by less than the tolerance.
proof fn lemma_close_sum(a: Float32, b: Float32, top: u32)
    requires
        a.is_finite(),
        b.is_finite(),
        0 < top <= MAX_SIDE,
        -16 * span(top) <= a.signed_steps() + b.signed_steps() <= 16 * span(top),
    ensures
        a.spec_add(b).is_finite(),
        distance(a.spec_add(b).signed_steps(), a.signed_steps() + b.signed_steps()) <= tolerance(
            top,
        ),
{
    lemma_tolerance(top);
    sums_are_close(a, b);
}

proof fn lemma_close_difference(a: Float32, b: Float32, top: u32)
    requires
        a.is_finite(),
        b.is_finite(),
        0 < top <= MAX_SIDE,
        -16 * span(top) <= a.signed_steps() - b.signed_steps() <= 16 * span(top),
    ensures
        a.spec_sub(b).is_finite(),
        distance(a.spec_sub(b).signed_steps(), a.signed_steps() - b.signed_steps()) <= tolerance(
            top,
        ),
{
    lemma_tolerance(top);
    differences_are_close(a, b);
}

/// Halving is off by less than the tolerance.
#[verifier::rlimit(30)]
proof fn lemma_close_half(x: Float32, top: u32)
    requires
        x.is_finite(),
        0 < top <= MAX_SIDE,
        -16 * span(top) <= x.signed_steps() <= 16 * span(top),
    ensures
        half_of(x).is_finite(),
        distance(2 * half_of(x).signed_steps(), x.signed_steps()) <= tolerance(top),
        x.signed_steps() >= 0 ==> half_of(x).signed_steps() >= 0,
{
    reveal(Float32::spec_div);
    lemma_two();
    lemma_tolerance(top);
    let o = one();
    let s = x.abs_steps();
    let n = s * o;
    let d = 2 * o;
    assert(two().abs_steps() == d);
    let r = round_magnitude(n, d);
    assert(n * d <= (d * s) * d) by (nonlinear_arith)
        requires
            n == s * o,
            d == 2 * o,
    ;
    rounding_keeps_values(d, x.magnitude());
    rounding_is_monotone(n, d, d * s, d);
    assert(r < INFINITE);
    rounding_upper_bound(n, d);
    rounding_lower_bound(n, d);
    let v = steps(r) as int;
    lemma_scaled_half(s as int, v, o as int);
    if x.is_negative() && x.signed_steps() == 0 {
        lemma_mul_basics(o as int);
        lemma_mul_basics(d as int);
        rounding_keeps_values(d, 0);
        assert(s == 0 && n == 0 && r == 0);
    }
}

proof fn lemma_scaled_half(s: int, v: int, o: int)
    requires
        o > 0,
        0x100_0000 * ((2 * o) * v) <= 0x100_0001 * (s * o) + 0x80_0000 * (2 * o),
        0x100_0000 * (s * o) <= 0x100_0000 * ((2 * o) * v) + s * o + 0x80_0000 * (2 * o),
    ensures
        0x100_0000 * distance(2 * v, s) <= s + 0x100_0000,
{
    assert(0x100_0000 * (2 * v) <= 0x100_0001 * s + 0x100_0000) by (nonlinear_arith)
        requires
            o > 0,
            0x100_0000 * ((2 * o) * v) <= 0x100_0001 * (s * o) + 0x80_0000 * (2 * o),
    ;
    assert(0x100_0000 * s <= 0x100_0000 * (2 * v) + s + 0x100_0000) by (nonlinear_arith)
        requires
            o > 0,
            0x100_0000 * (s * o) <= 0x100_0000 * ((2 * o) * v) + s * o + 0x80_0000 * (2 * o),
    ;
}

/// A number clamped to an axis: what was out of range moves to its end.
proof fn lemma_clamped(x: Float32, size: u32)
    requires
        x.is_finite(),
        size <= MAX_SIDE,
    ensures
        ({
            let w = Float32::spec_from_u64(size as u64);
            let c = x.spec_clamp(zero(), w);
            &&& c.is_finite()
            &&& c.signed_steps() == if x.signed_steps() < 0 {
                0
            } else if x.signed_steps() > size * one() {
                size * one() as int
            } else {
                x.signed_steps()
            }
        }),
{
    small_integers_are_exact(size as u64);
    let w = Float32::spec_from_u64(size as u64);
    order_is_that_of_values(x, zero());
    order_is_that_of_values(w, x);
}

/// A window with its first edge shifted to zero where it lies before the axis.
spec fn from_zero(a: Float32, b: Float32) -> (Float32, Float32) {
    if a.spec_lt(zero()) {
        (zero(), b.spec_sub(a))
    } else {
        (a, b)
    }
}

/// A window with its last edge shifted to the end where it lies beyond the axis.
spec fn up_to(a: Float32, b: Float32, size: Float32) -> (Float32, Float32) {
    if size.spec_lt(b) {
        (a.spec_sub(b.spec_sub(size)), size)
    } else {
        (a, b)
    }
}

/// The edges of a window around its center.
proof fn lemma_around_center(c: Float32, h: Float32, top: u32)
    requires
        c.is_finite(),
        h.is_finite(),
        0 < top <= MAX_SIDE,
        -8 * span(top) <= c.signed_steps() <= 8 * span(top),
        0 <= h.signed_steps() <= span(top),
    ensures
        ({
            let p = c.spec_sub(h);
            let q = c.spec_add(h);
            &&& p.is_finite()
            &&& q.is_finite()
            &&& distance(p.signed_steps(), c.signed_steps() - h.signed_steps()) <= tolerance(top)
            &&& distance(q.signed_steps(), c.signed_steps() + h.signed_steps()) <= tolerance(top)
            &&& p.signed_steps() <= q.signed_steps()
        }),
{
    lemma_tolerance(top);
    lemma_close_difference(c, h, top);
    lemma_close_sum(c, h, top);
    crate::float_laws::lemma_negation(h);
    crate::detector_laws::lemma_sums_keep_order(c, h.spec_neg(), c, h);
    order_is_that_of_values(c.spec_sub(h), c.spec_add(h));
}

/// How many pixels lie between two positions, of which at least one where there is room.
spec fn covered(a: int, b: int, size: u32) -> int {
    let start = pixel(a);
    let end = if pixel(b) < start + 1 {
        start + 1
    } else {
        pixel(b)
    };
    (if end < size {
        end
    } else {
        size as int
    }) - start
}

/// A position on the axis is rounded to a pixel on it.
proof fn lemma_pixel_on_axis(x: int, size: u32)
    requires
        0 <= x <= span(size),
    ensures
        0 <= pixel(x) <= size,
{
    let o = one() as int;
    lemma_pow2_pos(149);
    lemma_pixel(x);
    assert(pixel(x) <= size) by (nonlinear_arith)
        requires
            2 * (pixel(x) * o) <= 2 * x + o,
            x <= size * o,
            o > 0,
    ;
}

/// Two roundings that keep to the whole part of an extent keep to it after the pixel that a
/// window has at least.
proof fn lemma_covered(a: int, b: int, size: u32, n: int)
    requires
        0 <= n,
        0 <= a <= span(size),
        0 <= b <= span(size),
        n <= pixel(b) - pixel(a) <= n + 1,
    ensures
        n <= covered(a, b, size) <= n + 1,
{
    lemma_pixel_on_axis(a, size);
    lemma_pixel_on_axis(b, size);
}

/// The pixel of a whole number of pixels.
proof fn lemma_whole_pixel(size: u32)
    ensures
        pixel(span(size)) == size,
        pixel(0) == 0,
{
    let o = one() as int;
    lemma_pow2_pos(149);
    assert(2 * (size * o) + o == size * (2 * o) + o) by (nonlinear_arith);
    lemma_fundamental_div_mod_converse(2 * span(size) + o, 2 * o, size as int, o);
    lemma_basic_div(o, 2 * o);
}

/// A position that is less than half a pixel off an extent of `n` whole pixels and a part is
/// rounded to `n` or the pixel after.
proof fn lemma_near_extent(x: int, extent: int, n: int)
    requires
        0 <= x,
        n * one() <= extent < n * one() + one(),
        2 * distance(x, extent) < one(),
    ensures
        n <= pixel(x) <= n + 1,
{
    let o = one() as int;
    lemma_pixel(x);
    let r = pixel(x);
    assert(n <= r <= n + 1) by (nonlinear_arith)
        requires
            2 * (r * o) <= 2 * x + o,
            2 * x + o < 2 * (r * o) + 2 * o,
            n * o <= extent < n * o + o,
            2 * x < 2 * extent + o,
            2 * extent < 2 * x + o,
            o > 0,
    ;
}

/// The window of a crop before it is shifted, and what it is made of.
spec fn unshifted(edges: (Float32, Float32), side: Float32) -> (Float32, Float32) {
    let center = half_of(edges.0.spec_add(edges.1));
    (center.spec_sub(half_of(side)), center.spec_add(half_of(side)))
}

/// What is asked of the edges and the side of a window.
spec fn sound(edges: (Float32, Float32), side: Float32, size: u32, top: u32) -> bool {
    &&& 0 < size <= top <= MAX_SIDE
    &&& edges.0.is_finite()
    &&& edges.1.is_finite()
    &&& -8 * span(top) <= edges.0.signed_steps() + edges.1.signed_steps() <= 8 * span(top)
    &&& side.is_finite()
    &&& 0 <= side.signed_steps() <= span(size)
}

proof fn lemma_unshifted(edges: (Float32, Float32), side: Float32, size: u32, top: u32)
    requires
        sound(edges, side, size, top),
    ensures
        ({
            let c = half_of(edges.0.spec_add(edges.1));
            let h = half_of(side);
            let (p, q) = unshifted(edges, side);
            let t = tolerance(top);
            &&& c.is_finite() && h.is_finite() && p.is_finite() && q.is_finite()
            &&& distance(
                2 * c.signed_steps(),
                edges.0.signed_steps() + edges.1.signed_steps(),
            ) <= 2 * t
            &&& distance(2 * h.signed_steps(), side.signed_steps()) <= t
            &&& 0 <= h.signed_steps() <= span(top)
            &&& -5 * span(top) <= c.signed_steps() <= 5 * span(top)
            &&& distance(p.signed_steps(), c.signed_steps() - h.signed_steps()) <= t
            &&& distance(q.signed_steps(), c.signed_steps() + h.signed_steps()) <= t
            &&& p.signed_steps() <= q.signed_steps()
            &&& p.signed_steps() < 0 <==> c.signed_steps() < h.signed_steps()
        }),
{
    lemma_tolerance(top);
    lemma_span(size, top);
    let sum = edges.0.spec_add(edges.1);
    lemma_close_sum(edges.0, edges.1, top);
    lemma_close_half(sum, top);
    lemma_close_half(side, top);
    lemma_around_center(half_of(sum), half_of(side), top);
    lemma_sign_of_difference(half_of(sum), half_of(side));
}

/// The window before it is clamped to the axis.
spec fn moved(p: Float32, q: Float32, w: Float32) -> (Float32, Float32) {
    let (a, b) = from_zero(p, q);
    up_to(a, b, w)
}

/// A window that had to be moved up: it begins with the axis.
proof fn lemma_moved_up(edges: (Float32, Float32), side: Float32, size: u32, top: u32, n: int)
    requires
        sound(edges, side, size, top),
        unshifted(edges, side).0.signed_steps() < 0,
        n * one() <= 2 * half_of(side).signed_steps() < n * one() + one(),
        n >= 0,
    ensures
        ({
            let w = Float32::spec_from_u64(size as u64);
            let (p, q) = unshifted(edges, side);
            let (c, d) = moved(p, q, w);
            let s = c.spec_clamp(zero(), w);
            let t = d.spec_clamp(zero(), w);
            &&& s.is_finite() && s.signed_steps() == 0
            &&& t.is_finite() && 0 <= t.signed_steps() <= span(size)
            &&& n <= covered(0, t.signed_steps(), size) <= n + 1
        }),
{
    let o = one() as int;
    lemma_tolerance(top);
    lemma_span(size, top);
    lemma_unshifted(edges, side, size, top);
    lemma_whole_pixel(size);
    small_integers_are_exact(size as u64);
    let w = Float32::spec_from_u64(size as u64);
    let (p, q) = unshifted(edges, side);
    let extent = 2 * half_of(side).signed_steps();
    order_is_that_of_values(p, zero());
    lemma_close_difference(q, p, top);
    lemma_sign_of_difference(q, p);
    let b = q.spec_sub(p);
    assert(from_zero(p, q) == (zero(), b));
    assert(distance(b.signed_steps(), extent) <= 3 * tolerance(top));
    order_is_that_of_values(w, b);
    if w.spec_lt(b) {
        lemma_close_difference(b, w, top);
        lemma_sign_of_difference(b, w);
        let d = b.spec_sub(w);
        lemma_close_difference(zero(), d, top);
        lemma_below_zero(d);
        lemma_clamped(zero().spec_sub(d), size);
        lemma_clamped(w, size);
        assert(n <= size <= n + 1) by (nonlinear_arith)
            requires
                n * o <= extent < n * o + o,
                extent < size * o + o,
                size * o < extent + o,
                o > 0,
        ;
        lemma_covered(0, span(size), size, n);
    } else {
        lemma_clamped(zero(), size);
        lemma_clamped(b, size);
        lemma_near_extent(b.signed_steps(), extent, n);
        lemma_covered(0, b.signed_steps(), size, n);
    }
}

/// Where a window begins whose end is pushed back to the end of the axis.
proof fn lemma_pushed_back(p: Float32, q: Float32, size: u32, top: u32)
    requires
        0 < size <= top <= MAX_SIDE,
        p.is_finite(),
        q.is_finite(),
        0 <= p.signed_steps() <= q.signed_steps() <= 7 * span(top),
        q.signed_steps() > span(size),
    ensures
        ({
            let w = Float32::spec_from_u64(size as u64);
            let (c, d) = moved(p, q, w);
            let s = c.spec_clamp(zero(), w);
            let t = d.spec_clamp(zero(), w);
            let start = span(size) - (q.signed_steps() - p.signed_steps());
            &&& s.is_finite() && 0 <= s.signed_steps() <= span(size)
            &&& t.is_finite() && t.signed_steps() == span(size)
            &&& s.signed_steps() == 0 || s.signed_steps() <= start + 2 * tolerance(top)
            &&& s.signed_steps() == span(size) || s.signed_steps() >= start - 2 * tolerance(top)
        }),
{
    lemma_tolerance(top);
    lemma_span(size, top);
    small_integers_are_exact(size as u64);
    let w = Float32::spec_from_u64(size as u64);
    order_is_that_of_values(p, zero());
    order_is_that_of_values(w, q);
    assert(from_zero(p, q) == (p, q));
    lemma_close_difference(q, w, top);
    let d = q.spec_sub(w);
    lemma_close_difference(p, d, top);
    lemma_clamped(p.spec_sub(d), size);
    lemma_clamped(w, size);
}

/// The pixel at which a window begins that ends with the axis.
proof fn lemma_first_pixel(s: int, extent: int, size: u32, n: int)
    requires
        0 <= s <= span(size),
        n * one() <= extent < n * one() + one(),
        2 * extent < 2 * span(size) + one(),
        s == 0 || 2 * s < 2 * (span(size) - extent) + one(),
        s == span(size) || 2 * (span(size) - extent) < 2 * s + one(),
        0 <= extent,
    ensures
        size - n - 1 <= pixel(s) <= size - n,
{
    let o = one() as int;
    lemma_pow2_pos(149);
    lemma_pixel(s);
    let r = pixel(s);
    let z = size as int;
    assert(n <= z) by (nonlinear_arith)
        requires
            n * o <= extent,
            2 * extent < 2 * (z * o) + o,
            o > 0,
    ;
    assert(n >= 0) by (nonlinear_arith)
        requires
            n * o + o > 0,
            o > 0,
    ;
    assert(r <= z - n) by (nonlinear_arith)
        requires
            2 * (r * o) <= 2 * s + o,
            n * o <= extent,
            n <= z,
            s == 0 || 2 * s < 2 * (z * o - extent) + o,
            o > 0,
    ;
    if s == span(size) {
        lemma_whole_pixel(size);
    } else {
        assert(z - n - 1 <= r) by (nonlinear_arith)
            requires
                2 * s + o < 2 * (r * o) + 2 * o,
                extent < n * o + o,
                2 * (z * o - extent) < 2 * s + o,
                o > 0,
        ;
    }
}

/// A window that had to be moved down: it ends with the axis.
proof fn lemma_moved_down(edges: (Float32, Float32), side: Float32, size: u32, top: u32, n: int)
    requires
        sound(edges, side, size, top),
        unshifted(edges, side).0.signed_steps() >= 0,
        unshifted(edges, side).1.signed_steps() > span(size),
        n * one() <= 2 * half_of(side).signed_steps() < n * one() + one(),
        n >= 0,
    ensures
        ({
            let w = Float32::spec_from_u64(size as u64);
            let (p, q) = unshifted(edges, side);
            let (c, d) = moved(p, q, w);
            let s = c.spec_clamp(zero(), w);
            let t = d.spec_clamp(zero(), w);
            &&& s.is_finite() && 0 <= s.signed_steps() <= span(size)
            &&& t.is_finite() && t.signed_steps() == span(size)
            &&& n <= covered(s.signed_steps(), span(size), size) <= n + 1
        }),
{
    lemma_tolerance(top);
    lemma_span(size, top);
    lemma_unshifted(edges, side, size, top);
    lemma_whole_pixel(size);
    let w = Float32::spec_from_u64(size as u64);
    let (p, q) = unshifted(edges, side);
    let extent = 2 * half_of(side).signed_steps();
    lemma_pushed_back(p, q, size, top);
    let s = moved(p, q, w).0.spec_clamp(zero(), w).signed_steps();
    assert(extent <= span(size) + tolerance(top));
    lemma_first_pixel(s, extent, size, n);
    lemma_covered(s, span(size), size, n);
}

/// The number of pixels of a window along one axis is the whole part of its extent, or one more,
/// wherever it lies and however it had to be moved.
proof fn lemma_window_pixels(edges: (Float32, Float32), side: Float32, size: u32, top: u32, n: int)
    requires
        sound(edges, side, size, top),
        n * one() <= 2 * half_of(side).signed_steps() < n * one() + one(),
    ensures
        ({
            let (s, e) = whole_pixels(
                shifted(edges, side, Float32::spec_from_u64(size as u64)),
                size,
            );
            n <= e - s <= n + 1
        }),
{
    let o = one() as int;
    lemma_tolerance(top);
    lemma_span(size, top);
    lemma_unshifted(edges, side, size, top);
    lemma_whole_pixel(size);
    small_integers_are_exact(size as u64);
    let w = Float32::spec_from_u64(size as u64);
    let center = half_of(edges.0.spec_add(edges.1));
    let half = half_of(side);
    let (p, q) = unshifted(edges, side);
    assert(n >= 0) by (nonlinear_arith)
        requires
            n * o + o > 0,
            o > 0,
    ;
    let (c, d) = moved(p, q, w);
    let s = c.spec_clamp(zero(), w);
    let t = d.spec_clamp(zero(), w);
    assert(shifted(edges, side, w) == (s, t));
    if p.signed_steps() < 0 {
        lemma_moved_up(edges, side, size, top, n);
    } else if q.signed_steps() > span(size) {
        lemma_moved_down(edges, side, size, top, n);
    } else {
        order_is_that_of_values(p, zero());
        order_is_that_of_values(w, q);
        lemma_clamped(p, size);
        lemma_clamped(q, size);
        windows_round_to_their_extent(center, half, n);
        lemma_round_is_pixel(p);
        lemma_round_is_pixel(q);
        lemma_covered(p.signed_steps(), q.signed_steps(), size, n);
    }
    lemma_round_is_pixel(s);
    lemma_round_is_pixel(t);
}

/// A product with a positive number keeps the order.
pub proof fn lemma_scaled_order(a: Float32, b: Float32, w: Float32)
    requires
        a.spec_le(b),
        w.is_finite(),
        !w.is_negative(),
        !w.is_zero(),
    ensures
        a.spec_mul(w).spec_le(b.spec_mul(w)),
{
    reveal(Float32::spec_mul);
    let o = one();
    lemma_pow2_pos(149);
    let m = a.magnitude();
    let n = b.magnitude();
    if a.is_finite() && b.is_finite() {
        if m < n {
            crate::float32::lemma_steps_increase(m, n);
        }
        if n < m {
            crate::float32::lemma_steps_increase(n, m);
        }
        let x = a.abs_steps() * w.abs_steps();
        let y = b.abs_steps() * w.abs_steps();
        if a.abs_steps() <= b.abs_steps() {
            assert(x * o <= y * o) by (nonlinear_arith)
                requires
                    x == a.abs_steps() * w.abs_steps(),
                    y == b.abs_steps() * w.abs_steps(),
                    a.abs_steps() <= b.abs_steps(),
            ;
            rounding_is_monotone(x, o, y, o);
        }
        if b.abs_steps() <= a.abs_steps() {
            assert(y * o <= x * o) by (nonlinear_arith)
                requires
                    x == a.abs_steps() * w.abs_steps(),
                    y == b.abs_steps() * w.abs_steps(),
                    b.abs_steps() <= a.abs_steps(),
            ;
            rounding_is_monotone(y, o, x, o);
        }
        if a.is_zero() || b.is_zero() {
            lemma_mul_basics(w.abs_steps() as int);
            lemma_mul_basics(o as int);
            rounding_keeps_values(o, 0);
        }
    }
}

/// Anything that is a number, clamped to an axis, lies on it.
proof fn lemma_clamp_lies_on_axis(x: Float32, size: u32)
    requires
        !x.is_nan(),
        0 < size <= MAX_SIDE,
    ensures
        ({
            let c = x.spec_clamp(zero(), Float32::spec_from_u64(size as u64));
            c.is_finite() && 0 <= c.signed_steps() <= size * one()
        }),
{
    small_integers_are_exact(size as u64);
    let w = Float32::spec_from_u64(size as u64);
    lemma_pow2_pos(149);
    assert(size * one() > 0) by (nonlinear_arith)
        requires
            size > 0,
            one() > 0,
    ;
    if x.is_finite() {
        lemma_clamped(x, size);
    }
}

/// Clamping keeps the order.
proof fn lemma_clamp_order(a: Float32, b: Float32, size: u32)
    requires
        a.spec_le(b),
        0 < size <= MAX_SIDE,
    ensures
        ({
            let w = Float32::spec_from_u64(size as u64);
            a.spec_clamp(zero(), w).spec_le(b.spec_clamp(zero(), w))
        }),
{
    small_integers_are_exact(size as u64);
}

/// The margin around a face is at most twice the frame's longer side, and at least that of a face
/// of one pixel.
proof fn lemma_margin(e: Float32, margin: Float32, top: u32)
    requires
        e.is_finite(),
        0 < top <= MAX_SIDE,
        e.signed_steps() <= span(top) + one(),
        margin.is_finite(),
        !margin.is_negative(),
        margin.signed_steps() <= one(),
    ensures
        ({
            let m = e.spec_max(unity()).spec_mul(margin);
            &&& m.is_finite()
            &&& !m.is_negative()
            &&& margin.signed_steps() <= m.signed_steps() <= 3 * span(top)
        }),
{
    let o = one() as int;
    lemma_tolerance(top);
    lemma_unity();
    let x = e.spec_max(unity());
    order_is_that_of_values(e, unity());
    assert(x.is_finite() && !x.is_negative());
    let s = x.abs_steps() as int;
    let t = margin.abs_steps() as int;
    let l = 2 * span(top);
    assert(o <= s <= l);
    assert(s * t <= l * o) by (nonlinear_arith)
        requires
            0 <= s <= l,
            0 <= t <= o,
    ;
    assert(l * o <= o * (0x100_0000_0000 * o)) by (nonlinear_arith)
        requires
            l <= 0x2_0000 * o,
            o > 0,
    ;
    lemma_product_bound(x, margin);
    let m = x.spec_mul(margin);
    let v = m.abs_steps() as int;
    assert(2 * v <= 3 * l) by (nonlinear_arith)
        requires
            0x100_0000 * (o * v) <= 0x100_0001 * (s * t) + 0x80_0000 * o,
            s * t <= l * o,
            l >= 2 * o,
            o >= 0x1_0000_0000,
            v >= 0,
    ;
    let n = (s * t) as nat;
    assert((o * t) * o <= n * o) by (nonlinear_arith)
        requires
            n == s * t,
            s >= o,
            t >= 0,
            o > 0,
    ;
    rounding_keeps_values(one(), margin.magnitude());
    rounding_is_monotone(one() * margin.abs_steps(), one(), n, one());
    assert(m.magnitude() == round_magnitude(n, one())) by {
        reveal(Float32::spec_mul);
    }
    if margin.magnitude() < m.magnitude() {
        crate::float32::lemma_steps_increase(margin.magnitude(), m.magnitude());
    }
}

/// The edges of a face on an axis of `size` pixels.
spec fn face_edges(first: Float32, second: Float32, size: u32) -> (Float32, Float32) {
    let w = Float32::spec_from_u64(size as u64);
    (first.spec_mul(w).spec_clamp(zero(), w), second.spec_mul(w).spec_clamp(zero(), w))
}

/// What is asked of a face along one axis, and of the margin.
spec fn measurable(first: Float32, second: Float32, size: u32, margin: Float32, top: u32) -> bool {
    &&& first.spec_le(second)
    &&& 0 < size <= top <= MAX_SIDE
    &&& margin.is_finite()
    &&& !margin.is_negative()
    &&& margin.signed_steps() <= one()
}

/// The edges of a face are ordered and lie on the axis; pushed out by the margin, they are still
/// ordered.
proof fn lemma_expanded(first: Float32, second: Float32, size: u32, margin: Float32, top: u32)
    requires
        measurable(first, second, size, margin, top),
    ensures
        ({
            let (a, b) = face_edges(first, second, size);
            let (x0, x1) = expanded(first, second, Float32::spec_from_u64(size as u64), margin);
            let m = b.spec_sub(a).spec_max(unity()).spec_mul(margin).signed_steps();
            let t = tolerance(top);
            &&& a.is_finite() && b.is_finite() && x0.is_finite() && x1.is_finite()
            &&& 0 <= a.signed_steps() <= b.signed_steps() <= span(size) <= span(top)
            &&& margin.signed_steps() <= m <= 3 * span(top)
            &&& distance(x0.signed_steps(), a.signed_steps() - m) <= t
            &&& distance(x1.signed_steps(), b.signed_steps() + m) <= t
            &&& x0.signed_steps() <= x1.signed_steps()
        }),
{
    let o = one() as int;
    lemma_tolerance(top);
    lemma_span(size, top);
    small_integers_are_exact(size as u64);
    let w = Float32::spec_from_u64(size as u64);
    assert(0 < size * o) by (nonlinear_arith)
        requires
            0 < size,
            o > 0,
    ;
    if w.is_zero() {
        assert(w.abs_steps() == 0);
    }
    lemma_scaled_order(first, second, w);
    let (a, b) = face_edges(first, second, size);
    lemma_clamp_lies_on_axis(first.spec_mul(w), size);
    lemma_clamp_lies_on_axis(second.spec_mul(w), size);
    lemma_clamp_order(first.spec_mul(w), second.spec_mul(w), size);
    order_is_that_of_values(a, b);
    lemma_close_difference(b, a, top);
    let e = b.spec_sub(a);
    lemma_margin(e, margin, top);
    let m = e.spec_max(unity()).spec_mul(margin);
    lemma_close_difference(a, m, top);
    lemma_close_sum(b, m, top);
    crate::float_laws::lemma_negation(m);
    crate::detector_laws::lemma_sums_keep_order(a, m.spec_neg(), b, m);
    order_is_that_of_values(a.spec_sub(m), b.spec_add(m));
}

/// The longer of two sides.
pub open spec fn longer(width: u32, height: u32) -> u32 {
    if width < height {
        height
    } else {
        width
    }
}

/// The side of the square around a face in a frame, as it is computed.
pub open spec fn crop_side(width: u32, height: u32, face_box: FaceBox, margin: Float32) -> Float32 {
    let w = Float32::spec_from_u64(width as u64);
    let h = Float32::spec_from_u64(height as u64);
    square_side(
        expanded(face_box.x1, face_box.x2, w, margin),
        expanded(face_box.y1, face_box.y2, h, margin),
        w,
        h,
    )
}

/// What these laws speak of: frames of up to 65536 pixels a side, face boxes whose edges are in
/// order, and margins of at most the face's own size.
pub open spec fn ordinary(width: u32, height: u32, face_box: FaceBox, margin: Float32) -> bool {
    &&& 0 < width <= MAX_SIDE
    &&& 0 < height <= MAX_SIDE
    &&& face_box.x1.spec_le(face_box.x2)
    &&& face_box.y1.spec_le(face_box.y2)
    &&& margin.is_finite()
    &&& !margin.is_negative()
    &&& margin.signed_steps() <= one()
}

/// The square around a face has a side that is not negative and fits the frame. It covers the
/// face and its margin in a direction in which these fit.
proof fn lemma_side(width: u32, height: u32, face_box: FaceBox, margin: Float32)
    requires
        ordinary(width, height, face_box, margin),
    ensures
        ({
            let w = Float32::spec_from_u64(width as u64);
            let h = Float32::spec_from_u64(height as u64);
            let x = expanded(face_box.x1, face_box.x2, w, margin);
            let y = expanded(face_box.y1, face_box.y2, h, margin);
            let side = crop_side(width, height, face_box, margin);
            let top = longer(width, height);
            &&& sound(x, side, width, top)
            &&& sound(y, side, height, top)
            &&& x.1.spec_sub(x.0).spec_le(w.spec_min(h)) ==> x.1.spec_sub(x.0).spec_le(side)
            &&& y.1.spec_sub(y.0).spec_le(w.spec_min(h)) ==> y.1.spec_sub(y.0).spec_le(side)
        }),
{
    let top = longer(width, height);
    lemma_tolerance(top);
    lemma_span(width, top);
    lemma_span(height, top);
    lemma_expanded(face_box.x1, face_box.x2, width, margin, top);
    lemma_expanded(face_box.y1, face_box.y2, height, margin, top);
    small_integers_are_exact(width as u64);
    small_integers_are_exact(height as u64);
    let w = Float32::spec_from_u64(width as u64);
    let h = Float32::spec_from_u64(height as u64);
    let x = expanded(face_box.x1, face_box.x2, w, margin);
    let y = expanded(face_box.y1, face_box.y2, h, margin);
    lemma_close_difference(x.1, x.0, top);
    lemma_close_difference(y.1, y.0, top);
    lemma_sign_of_difference(x.1, x.0);
    lemma_sign_of_difference(y.1, y.0);
    let dx = x.1.spec_sub(x.0);
    let dy = y.1.spec_sub(y.0);
    order_is_that_of_values(dx, dy);
    order_is_that_of_values(h, w);
    let big = dx.spec_max(dy);
    let small = w.spec_min(h);
    order_is_that_of_values(small, big);
    order_is_that_of_values(dx, small);
    order_is_that_of_values(dy, small);
    let side = crop_side(width, height, face_box, margin);
    order_is_that_of_values(dx, side);
    order_is_that_of_values(dy, side);
}

/// A crop near the edge of the frame keeps its size: the window is moved, not cut. Both sides of
/// the crop are the whole part of the square around the face, or one pixel more.
pub proof fn crops_keep_their_size(
    width: u32,
    height: u32,
    face_box: FaceBox,
    margin: Float32,
    n: int,
)
    requires
        ordinary(width, height, face_box, margin),
        ({
            let side = 2 * half_of(crop_side(width, height, face_box, margin)).signed_steps();
            n * one() <= side < n * one() + one()
        }),
    ensures
        ({
            let ((x1, x2), (y1, y2)) = crop_window(width, height, face_box, margin);
            &&& n <= x2 - x1 <= n + 1
            &&& n <= y2 - y1 <= n + 1
        }),
{
    let w = Float32::spec_from_u64(width as u64);
    let h = Float32::spec_from_u64(height as u64);
    let x = expanded(face_box.x1, face_box.x2, w, margin);
    let y = expanded(face_box.y1, face_box.y2, h, margin);
    let side = crop_side(width, height, face_box, margin);
    let top = longer(width, height);
    lemma_side(width, height, face_box, margin);
    lemma_window_pixels(x, side, width, top, n);
    lemma_window_pixels(y, side, height, top, n);
}

/// A crop is square up to a pixel, wherever the face lies: its sides differ by one at most, which
/// is what rounding a window to whole pixels can do.
pub proof fn crops_are_square(width: u32, height: u32, face_box: FaceBox, margin: Float32)
    requires
        ordinary(width, height, face_box, margin),
    ensures
        ({
            let ((x1, x2), (y1, y2)) = crop_window(width, height, face_box, margin);
            -1 <= (x2 - x1) - (y2 - y1) <= 1
        }),
{
    let o = one() as int;
    lemma_pow2_pos(149);
    let side = 2 * half_of(crop_side(width, height, face_box, margin)).signed_steps();
    let n = side / o;
    lemma_fundamental_div_mod(side, o);
    lemma_mod_bound(side, o);
    lemma_mul_is_commutative(n, o);
    crops_keep_their_size(width, height, face_box, margin, n);
}

/// Of two positions on an axis, the later one is not rounded to an earlier pixel.
proof fn lemma_rounding_order(x: Float32, y: Float32)
    requires
        x.is_finite(),
        y.is_finite(),
        x.signed_steps() <= y.signed_steps(),
    ensures
        x.spec_round_to_u32() <= y.spec_round_to_u32(),
{
    reveal(Float32::spec_round_to_u32);
    let o = one() as int;
    lemma_pow2_pos(149);
    if !x.is_negative() {
        if y.is_negative() {
            assert(x.abs_steps() == 0);
            lemma_basic_div(o, 2 * o);
        } else {
            lemma_div_is_ordered(2 * x.abs_steps() + o, 2 * y.abs_steps() + o, 2 * o);
        }
    }
}

/// Nothing is above zero that is zero less a number that is not negative.
proof fn lemma_below_zero(g: Float32)
    requires
        g.is_finite(),
        g.signed_steps() >= 0,
    ensures
        zero().spec_sub(g).signed_steps() <= 0,
{
    reveal(Float32::spec_add);
    crate::float_laws::lemma_negation(g);
}

/// The edges of a window around a face, before it is shifted: they lie outside of the face's by
/// the margin, up to the tolerance.
proof fn lemma_around_face(
    first: Float32,
    second: Float32,
    size: u32,
    margin: Float32,
    side: Float32,
    top: u32,
)
    requires
        measurable(first, second, size, margin, top),
        sound(
            expanded(first, second, Float32::spec_from_u64(size as u64), margin),
            side,
            size,
            top,
        ),
        ({
            let (x0, x1) = expanded(first, second, Float32::spec_from_u64(size as u64), margin);
            x1.spec_sub(x0).spec_le(side)
        }),
    ensures
        ({
            let x = expanded(first, second, Float32::spec_from_u64(size as u64), margin);
            let (a, b) = face_edges(first, second, size);
            let (p, q) = unshifted(x, side);
            let slack = 5 * tolerance(top) - margin.signed_steps();
            &&& p.signed_steps() <= a.signed_steps() + slack
            &&& q.signed_steps() >= b.signed_steps() - slack
        }),
{
    lemma_tolerance(top);
    lemma_span(size, top);
    lemma_expanded(first, second, size, margin, top);
    let x = expanded(first, second, Float32::spec_from_u64(size as u64), margin);
    lemma_close_difference(x.1, x.0, top);
    order_is_that_of_values(x.1.spec_sub(x.0), side);
    lemma_unshifted(x, side, size, top);
}

/// A window that is shifted into the axis still begins no later and ends no earlier, up to the
/// tolerance.
proof fn lemma_shift_keeps_edges(p: Float32, q: Float32, a: int, b: int, size: u32, top: u32)
    requires
        0 < size <= top <= MAX_SIDE,
        p.is_finite(),
        q.is_finite(),
        p.signed_steps() <= a,
        q.signed_steps() >= b,
        -7 * span(top) <= p.signed_steps() <= q.signed_steps() <= 7 * span(top),
    ensures
        ({
            let w = Float32::spec_from_u64(size as u64);
            let (c, d) = moved(p, q, w);
            let s = c.spec_clamp(zero(), w);
            let t = d.spec_clamp(zero(), w);
            &&& s.is_finite() && 0 <= s.signed_steps() <= span(size)
            &&& t.is_finite() && 0 <= t.signed_steps() <= span(size)
            &&& s.signed_steps() == 0 || s.signed_steps() <= a + tolerance(top)
            &&& t.signed_steps() == span(size) || t.signed_steps() >= b - tolerance(top)
        }),
{
    lemma_tolerance(top);
    lemma_span(size, top);
    small_integers_are_exact(size as u64);
    let w = Float32::spec_from_u64(size as u64);
    order_is_that_of_values(p, zero());
    if p.spec_lt(zero()) {
        lemma_close_difference(q, p, top);
    }
    let (c, d) = from_zero(p, q);
    order_is_that_of_values(w, d);
    if w.spec_lt(d) {
        lemma_close_difference(d, w, top);
        lemma_sign_of_difference(d, w);
        let g = d.spec_sub(w);
        lemma_close_difference(c, g, top);
        if p.spec_lt(zero()) {
            lemma_below_zero(g);
        }
        lemma_clamped(c.spec_sub(g), size);
        lemma_clamped(w, size);
    } else {
        lemma_clamped(c, size);
        lemma_clamped(d, size);
    }
}

/// One axis of a crop covers the face, up to what the tolerance costs beyond the margin.
proof fn lemma_axis_covers(
    first: Float32,
    second: Float32,
    size: u32,
    margin: Float32,
    side: Float32,
    top: u32,
)
    requires
        measurable(first, second, size, margin, top),
        sound(
            expanded(first, second, Float32::spec_from_u64(size as u64), margin),
            side,
            size,
            top,
        ),
        ({
            let (x0, x1) = expanded(first, second, Float32::spec_from_u64(size as u64), margin);
            x1.spec_sub(x0).spec_le(side)
        }),
    ensures
        ({
            let w = Float32::spec_from_u64(size as u64);
            let (s, e) = whole_pixels(shifted(expanded(first, second, w, margin), side, w), size);
            let (a, b) = face_edges(first, second, size);
            &&& s <= a.spec_round_to_u32() + 1
            &&& b.spec_round_to_u32() <= e + 1
            &&& 6 * tolerance(top) <= margin.signed_steps() ==> s <= a.spec_round_to_u32()
                && b.spec_round_to_u32() <= e
        }),
{
    let o = one() as int;
    lemma_tolerance(top);
    lemma_span(size, top);
    let w = Float32::spec_from_u64(size as u64);
    let x = expanded(first, second, w, margin);
    let (a, b) = face_edges(first, second, size);
    lemma_expanded(first, second, size, margin, top);
    lemma_unshifted(x, side, size, top);
    lemma_around_face(first, second, size, margin, side, top);
    let (p, q) = unshifted(x, side);
    let slack = 5 * tolerance(top) - margin.signed_steps();
    lemma_shift_keeps_edges(
        p,
        q,
        a.signed_steps() + slack,
        b.signed_steps() - slack,
        size,
        top,
    );
    let (c, d) = moved(p, q, w);
    let s = c.spec_clamp(zero(), w);
    let t = d.spec_clamp(zero(), w);
    assert(shifted(x, side, w) == (s, t));
    lemma_round_is_pixel(s);
    lemma_round_is_pixel(t);
    lemma_round_is_pixel(a);
    lemma_round_is_pixel(b);
    lemma_whole_pixel(size);
    lemma_pixel_on_axis(b.signed_steps(), size);
    lemma_pixel_on_axis(s.signed_steps(), size);
    lemma_pixel_within(s.signed_steps(), a.signed_steps());
    lemma_pixel_within(b.signed_steps(), t.signed_steps());
    if 6 * tolerance(top) <= margin.signed_steps() {
        lemma_rounding_order(s, a);
        lemma_rounding_order(b, t);
    }
}

/// A position that is less than a pixel beyond another is rounded to at most the next pixel.
proof fn lemma_pixel_within(x: int, y: int)
    requires
        0 <= x,
        0 <= y,
        x < y + one(),
    ensures
        pixel(x) <= pixel(y) + 1,
{
    let o = one() as int;
    lemma_pixel(x);
    lemma_pixel(y);
    assert(pixel(x) <= pixel(y) + 1) by (nonlinear_arith)
        requires
            2 * (pixel(x) * o) <= 2 * x + o,
            2 * y + o < 2 * (pixel(y) * o) + 2 * o,
            x < y + o,
            o > 0,
    ;
}

/// The square around the face and its margin fits in the frame.
pub open spec fn square_fits(width: u32, height: u32, face_box: FaceBox, margin: Float32) -> bool {
    let w = Float32::spec_from_u64(width as u64);
    let h = Float32::spec_from_u64(height as u64);
    let x = expanded(face_box.x1, face_box.x2, w, margin);
    let y = expanded(face_box.y1, face_box.y2, h, margin);
    &&& x.1.spec_sub(x.0).spec_le(w.spec_min(h))
    &&& y.1.spec_sub(y.0).spec_le(w.spec_min(h))
}

/// The first and the last pixel position of a face on an axis of `size` pixels.
pub open spec fn face_pixels(first: Float32, second: Float32, size: u32) -> (int, int) {
    let w = Float32::spec_from_u64(size as u64);
    (
        first.spec_mul(w).spec_clamp(zero(), w).spec_round_to_u32() as int,
        second.spec_mul(w).spec_clamp(zero(), w).spec_round_to_u32() as int,
    )
}

/// A crop shows the face: where the square around the face and its margin fits in the frame, the
/// crop begins no later than the face and ends no earlier, in both directions, also where the
/// window had to be moved. Up to a pixel this is so for every margin, and exactly for one that is
/// more than what rounding moves: a millionth of the longer side, six times.
pub proof fn crops_cover_the_face(width: u32, height: u32, face_box: FaceBox, margin: Float32)
    requires
        ordinary(width, height, face_box, margin),
        square_fits(width, height, face_box, margin),
    ensures
        ({
            let ((x1, x2), (y1, y2)) = crop_window(width, height, face_box, margin);
            let (left, right) = face_pixels(face_box.x1, face_box.x2, width);
            let (upper, lower) = face_pixels(face_box.y1, face_box.y2, height);
            &&& x1 <= left + 1 && right <= x2 + 1
            &&& y1 <= upper + 1 && lower <= y2 + 1
            &&& 6 * tolerance(longer(width, height)) <= margin.signed_steps() ==> {
                &&& x1 <= left && right <= x2
                &&& y1 <= upper && lower <= y2
            }
        }),
{
    let top = longer(width, height);
    let side = crop_side(width, height, face_box, margin);
    lemma_side(width, height, face_box, margin);
    lemma_axis_covers(face_box.x1, face_box.x2, width, margin, side, top);
    lemma_axis_covers(face_box.y1, face_box.y2, height, margin, side, top);
}

/// An edge of a face that lies in the picture, in pixels.
proof fn lemma_edge(edge: Float32, size: u32, top: u32)
    requires
        edge.is_finite(),
        !edge.is_negative(),
        edge.signed_steps() <= one(),
        0 < size <= top <= MAX_SIDE,
    ensures
        ({
            let w = Float32::spec_from_u64(size as u64);
            let a = edge.spec_mul(w).spec_clamp(zero(), w);
            &&& a.is_finite()
            &&& 0 <= a.signed_steps() <= span(size)
            &&& distance(a.signed_steps(), edge.signed_steps() * size) <= tolerance(top)
        }),
{
    let o = one() as int;
    lemma_tolerance(top);
    lemma_span(size, top);
    small_integers_are_exact(size as u64);
    let w = Float32::spec_from_u64(size as u64);
    let f = edge.signed_steps();
    let z = f * size;
    let so = size * o;
    assert(0 <= z <= so && f * so == o * z && f * so <= o * (0x100_0000_0000 * o))
        by (nonlinear_arith)
        requires
            0 <= f <= o,
            z == f * size,
            so == size * o,
            0 < size <= 0x1_0000,
    ;
    crate::decode_laws::lemma_signed_product(edge, w);
    let p = edge.spec_mul(w);
    let ps = p.signed_steps();
    let d = distance(ps, z);
    assert(distance(o * ps, o * z) == o * d) by (nonlinear_arith)
        requires
            d == distance(ps, z),
            o > 0,
    ;
    assert(0x100_0000 * d <= z + 0x80_0000) by (nonlinear_arith)
        requires
            0x100_0000 * (o * d) <= o * z + 0x80_0000 * o,
            o > 0,
    ;
    lemma_clamped(p, size);
}

/// The extent of a face along an axis, in steps, and what the face and its margin need: the
/// margin is a fraction of that extent, but of no less than a pixel, on each side. The second
/// number has one more factor of one.
pub open spec fn needed(first: Float32, second: Float32, size: u32, margin: Float32) -> int {
    let extent = (second.signed_steps() - first.signed_steps()) * size;
    let counted = if extent < one() {
        one() as int
    } else {
        extent
    };
    extent * one() + 2 * (counted * margin.signed_steps())
}

/// The face box lies in the picture.
pub open spec fn pictured(face_box: FaceBox) -> bool {
    &&& face_box.x1.is_finite() && !face_box.x1.is_negative()
    &&& face_box.y1.is_finite() && !face_box.y1.is_negative()
    &&& face_box.x2.is_finite() && !face_box.x2.is_negative()
    &&& face_box.y2.is_finite() && !face_box.y2.is_negative()
    &&& face_box.x2.signed_steps() <= one()
    &&& face_box.y2.signed_steps() <= one()
}

/// What the expanded face needs along an axis, and where its middle is.
#[verifier::spinoff_prover]
#[verifier::rlimit(40)]
proof fn lemma_needed(first: Float32, second: Float32, size: u32, margin: Float32, top: u32)
    requires
        measurable(first, second, size, margin, top),
        first.is_finite(),
        !first.is_negative(),
        second.is_finite(),
        !second.is_negative(),
        second.signed_steps() <= one(),
    ensures
        ({
            let (x0, x1) = expanded(first, second, Float32::spec_from_u64(size as u64), margin);
            &&& x1.spec_sub(x0).is_finite()
            &&& distance(
                x1.spec_sub(x0).signed_steps() * one(),
                needed(first, second, size, margin),
            ) <= 13 * (tolerance(top) * one())
            &&& distance(
                x0.signed_steps() + x1.signed_steps(),
                (first.signed_steps() + second.signed_steps()) * size,
            ) <= 4 * tolerance(top)
        }),
{
    let o = one() as int;
    let t = tolerance(top);
    lemma_tolerance(top);
    lemma_span(size, top);
    order_is_that_of_values(first, second);
    lemma_edge(first, size, top);
    lemma_edge(second, size, top);
    lemma_expanded(first, second, size, margin, top);
    let (a, b) = face_edges(first, second, size);
    let (x0, x1) = expanded(first, second, Float32::spec_from_u64(size as u64), margin);
    let (af, bf) = (a.signed_steps(), b.signed_steps());
    let (f, g) = (first.signed_steps(), second.signed_steps());
    let mg = margin.signed_steps();
    lemma_close_difference(b, a, top);
    let d = b.spec_sub(a);
    lemma_unity();
    order_is_that_of_values(d, unity());
    let e = d.spec_max(unity());
    let es = e.signed_steps();
    let extent = (g - f) * size;
    assert(extent == g * size - f * size && (f + g) * size == f * size + g * size)
        by (nonlinear_arith)
        requires
            extent == (g - f) * size,
    ;
    assert(extent >= 0) by (nonlinear_arith)
        requires
            extent == (g - f) * size,
            g >= f,
            size > 0,
    ;
    let counted = if extent < o {
        o
    } else {
        extent
    };
    assert(distance(es, counted) <= 3 * t);
    assert(0 <= es <= 2 * span(top));
    assert(es * mg <= 2 * (span(top) * o) && es * mg <= o * (0x100_0000_0000 * o) && es * mg >= 0)
        by (nonlinear_arith)
        requires
            0 <= es <= 2 * span(top),
            0 <= mg <= o,
            span(top) <= 0x1_0000 * o,
            o > 0,
    ;
    crate::decode_laws::lemma_signed_product(e, margin);
    let m = e.spec_mul(margin).signed_steps();
    let so = span(top) * o;
    let to = t * o;
    assert(0x10_0000 * to == so + 0x10_0000 * o) by (nonlinear_arith)
        requires
            0x10_0000 * t == span(top) + 0x10_0000,
            so == span(top) * o,
            to == t * o,
    ;
    assert(distance(o * m, es * mg) <= to);
    assert(distance(es * mg, counted * mg) <= 3 * to) by (nonlinear_arith)
        requires
            distance(es, counted) <= 3 * t,
            0 <= mg <= o,
            to == t * o,
    ;
    lemma_close_difference(x1, x0, top);
    let dx = x1.spec_sub(x0).signed_steps();
    assert(distance(dx, extent + 2 * m) <= 5 * t);
    assert(distance(dx * o, extent * o + 2 * (o * m)) <= 5 * to) by (nonlinear_arith)
        requires
            distance(dx, extent + 2 * m) <= 5 * t,
            to == t * o,
            o > 0,
    ;
}

/// The side that a face needs, with one more factor of one: that of the larger of its two extents
/// with their margins, but no larger than the frame.
pub open spec fn needed_side(width: u32, height: u32, face_box: FaceBox, margin: Float32) -> int {
    let across = needed(face_box.x1, face_box.x2, width, margin);
    let down = needed(face_box.y1, face_box.y2, height, margin);
    let larger = if across < down {
        down
    } else {
        across
    };
    let room = (if width < height {
        width
    } else {
        height
    }) * (one() * one()) as int;
    if larger < room {
        larger
    } else {
        room
    }
}

/// The largest and the smallest of what is known up to an error are known up to that error.
proof fn lemma_side_of_close_extents(
    xs: int,
    ys: int,
    ms: int,
    ss: int,
    across: int,
    down: int,
    room: int,
    error: int,
    o: int,
)
    requires
        o > 0,
        distance(xs * o, across) <= error,
        distance(ys * o, down) <= error,
        ms * o == room,
        error >= 0,
        ({
            let bs = if xs < ys {
                ys
            } else {
                xs
            };
            ss == if ms < bs {
                ms
            } else {
                bs
            }
        }),
    ensures
        ({
            let larger = if across < down {
                down
            } else {
                across
            };
            distance(
                ss * o,
                if larger < room {
                    larger
                } else {
                    room
                },
            ) <= error
        }),
{
    lemma_order_of_multiples(xs, ys, o);
    lemma_order_of_multiples(ms, xs, o);
    lemma_order_of_multiples(ms, ys, o);
}

/// The computed side is the needed one, up to rounding.
#[verifier::spinoff_prover]
#[verifier::rlimit(40)]
proof fn lemma_side_is_needed(width: u32, height: u32, face_box: FaceBox, margin: Float32)
    requires
        ordinary(width, height, face_box, margin),
        pictured(face_box),
    ensures
        distance(
            crop_side(width, height, face_box, margin).signed_steps() * one(),
            needed_side(width, height, face_box, margin),
        ) <= 13 * (tolerance(longer(width, height)) * one()),
{
    let o = one() as int;
    let top = longer(width, height);
    lemma_tolerance(top);
    lemma_needed(face_box.x1, face_box.x2, width, margin, top);
    lemma_needed(face_box.y1, face_box.y2, height, margin, top);
    small_integers_are_exact(width as u64);
    small_integers_are_exact(height as u64);
    let w = Float32::spec_from_u64(width as u64);
    let h = Float32::spec_from_u64(height as u64);
    let x = expanded(face_box.x1, face_box.x2, w, margin);
    let y = expanded(face_box.y1, face_box.y2, h, margin);
    let dx = x.1.spec_sub(x.0);
    let dy = y.1.spec_sub(y.0);
    order_is_that_of_values(dx, dy);
    order_is_that_of_values(h, w);
    let big = dx.spec_max(dy);
    let small = w.spec_min(h);
    order_is_that_of_values(small, big);
    let side = crop_side(width, height, face_box, margin);
    assert(side == big.spec_min(small));
    let (xs, ys) = (dx.signed_steps(), dy.signed_steps());
    let (bs, ms, ss) = (big.signed_steps(), small.signed_steps(), side.signed_steps());
    assert(bs == if xs < ys {
        ys
    } else {
        xs
    });
    assert(ss == if ms < bs {
        ms
    } else {
        bs
    });
    lemma_order_of_multiples(height as int, width as int, o);
    let least = if width < height {
        width
    } else {
        height
    } as int;
    assert(ms == least * o);
    let room = least * (o * o);
    assert(ms * o == room) by (nonlinear_arith)
        requires
            ms == least * o,
            room == least * (o * o),
    ;
    let error = 13 * (tolerance(top) * o);
    assert(error >= 0) by (nonlinear_arith)
        requires
            error == 13 * (tolerance(top) * o),
            tolerance(top) > 0,
            o > 0,
    ;
    lemma_side_of_close_extents(
        xs,
        ys,
        ms,
        ss,
        needed(face_box.x1, face_box.x2, width, margin),
        needed(face_box.y1, face_box.y2, height, margin),
        room,
        error,
        o,
    );
}

/// A crop is as large as the face needs: its side is that of the larger of the two extents of the
/// face with its margin on both sides, but no larger than the frame, up to two pixels.
#[verifier::spinoff_prover]
#[verifier::rlimit(40)]
pub proof fn crops_are_as_large_as_needed(
    width: u32,
    height: u32,
    face_box: FaceBox,
    margin: Float32,
)
    requires
        ordinary(width, height, face_box, margin),
        pictured(face_box),
    ensures
        ({
            let ((x1, x2), (y1, y2)) = crop_window(width, height, face_box, margin);
            let oo = one() * one() as int;
            let side = needed_side(width, height, face_box, margin);
            &&& distance((x2 - x1) * oo, side) <= 2 * oo
            &&& distance((y2 - y1) * oo, side) <= 2 * oo
        }),
{
    let o = one() as int;
    let oo = o * o;
    let top = longer(width, height);
    let t = tolerance(top);
    let to = t * o;
    lemma_tolerance(top);
    lemma_side(width, height, face_box, margin);
    lemma_side_is_needed(width, height, face_box, margin);
    let side = crop_side(width, height, face_box, margin);
    let ss = side.signed_steps();
    lemma_span(width, top);
    lemma_close_half(side, top);
    let twice = 2 * half_of(side).signed_steps();
    assert(distance(twice * o, ss * o) <= to) by (nonlinear_arith)
        requires
            distance(twice, ss) <= t,
            to == t * o,
            o > 0,
    ;
    let n = twice / o;
    lemma_fundamental_div_mod(twice, o);
    lemma_mod_bound(twice, o);
    lemma_mul_is_commutative(n, o);
    crops_keep_their_size(width, height, face_box, margin, n);
    let ((x1, x2), (y1, y2)) = crop_window(width, height, face_box, margin);
    assert(16 * to <= oo + 16 * o) by (nonlinear_arith)
        requires
            16 * t <= o + 16,
            to == t * o,
            oo == o * o,
            o > 0,
    ;
    assert(oo >= 0x1_0000_0000 * o) by (nonlinear_arith)
        requires
            oo == o * o,
            o >= 0x1_0000_0000,
    ;
    lemma_pixels_and_extent(x2 - x1, n, twice, o, oo);
    lemma_pixels_and_extent(y2 - y1, n, twice, o, oo);
}

proof fn lemma_order_of_multiples(a: int, b: int, o: int)
    requires
        o > 0,
    ensures
        a < b <==> a * o < b * o,
{
    assert(a < b <==> a * o < b * o) by (nonlinear_arith)
        requires
            o > 0,
    ;
}

proof fn lemma_pixels_and_extent(k: int, n: int, twice: int, o: int, oo: int)
    requires
        n <= k <= n + 1,
        n * o <= twice < n * o + o,
        oo == o * o,
        o > 0,
    ensures
        distance(k * oo, twice * o) <= oo,
{
    assert(distance(k * o, twice) <= o) by (nonlinear_arith)
        requires
            n <= k <= n + 1,
            n * o <= twice < n * o + o,
            o > 0,
    ;
    assert(distance(k * oo, twice * o) <= oo) by (nonlinear_arith)
        requires
            distance(k * o, twice) <= o,
            oo == o * o,
            o > 0,
    ;
}

/// Where the middle of a window lies: at the middle of the face, or, at an edge of the frame, on
/// that side of it on which there is room.
#[verifier::spinoff_prover]
#[verifier::rlimit(40)]
proof fn lemma_window_middle(
    first: Float32,
    second: Float32,
    size: u32,
    margin: Float32,
    side: Float32,
    top: u32,
)
    requires
        measurable(first, second, size, margin, top),
        first.is_finite(),
        !first.is_negative(),
        second.is_finite(),
        !second.is_negative(),
        second.signed_steps() <= one(),
        sound(
            expanded(first, second, Float32::spec_from_u64(size as u64), margin),
            side,
            size,
            top,
        ),
    ensures
        ({
            let (s, e) = whole_pixels(
                shifted(
                    expanded(first, second, Float32::spec_from_u64(size as u64), margin),
                    side,
                    Float32::spec_from_u64(size as u64),
                ),
                size,
            );
            let window = (s + e) * one();
            let face = (first.signed_steps() + second.signed_steps()) * size;
            ||| distance(window, face) <= 3 * one()
            ||| s == 0 && face <= window + 3 * one()
            ||| e == size && window <= face + 3 * one()
        }),
{
    let o = one() as int;
    let t = tolerance(top);
    let w = Float32::spec_from_u64(size as u64);
    let edges = expanded(first, second, w, margin);
    lemma_tolerance(top);
    lemma_span(size, top);
    lemma_needed(first, second, size, margin, top);
    lemma_unshifted(edges, side, size, top);
    lemma_whole_pixel(size);
    small_integers_are_exact(size as u64);
    let center = half_of(edges.0.spec_add(edges.1)).signed_steps();
    let half = half_of(side).signed_steps();
    let (p, q) = unshifted(edges, side);
    let n = (2 * half) / o;
    lemma_fundamental_div_mod(2 * half, o);
    lemma_mod_bound(2 * half, o);
    lemma_mul_is_commutative(n, o);
    lemma_div_pos_is_pos(2 * half, o);
    let (c, d) = moved(p, q, w);
    let a = c.spec_clamp(zero(), w);
    let b = d.spec_clamp(zero(), w);
    assert(shifted(edges, side, w) == (a, b));
    let (s, e) = whole_pixels((a, b), size);
    let face = (first.signed_steps() + second.signed_steps()) * size;
    assert(distance(2 * center, face) <= 6 * t);
    if p.signed_steps() < 0 {
        lemma_moved_up(edges, side, size, top, n);
        lemma_round_is_pixel(a);
        lemma_round_is_pixel(b);
        lemma_middle_at_start(s, e, n, half, center, face, t, o);
    } else if q.signed_steps() > span(size) {
        lemma_moved_down(edges, side, size, top, n);
        lemma_round_is_pixel(a);
        lemma_round_is_pixel(b);
        lemma_middle_at_end(s, e, size as int, n, half, center, face, t, o);
    } else {
        lemma_unmoved(p, q, size);
        lemma_middle_in_place(
            s,
            e,
            p.signed_steps(),
            q.signed_steps(),
            pixel(p.signed_steps()),
            pixel(q.signed_steps()),
            center,
            face,
            t,
            o,
        );
    }
}

/// A window that lies on the axis stays where it is.
proof fn lemma_unmoved(p: Float32, q: Float32, size: u32)
    requires
        p.is_finite(),
        q.is_finite(),
        0 < size <= MAX_SIDE,
        0 <= p.signed_steps() <= q.signed_steps() <= span(size),
    ensures
        ({
            let w = Float32::spec_from_u64(size as u64);
            let (c, d) = moved(p, q, w);
            let (s, e) = whole_pixels((c.spec_clamp(zero(), w), d.spec_clamp(zero(), w)), size);
            let (i, j) = (pixel(p.signed_steps()), pixel(q.signed_steps()));
            let o = one();
            &&& s == i
            &&& j <= e
            &&& e <= j || e <= i + 1
            &&& 2 * (i * o) <= 2 * p.signed_steps() + o
            &&& 2 * p.signed_steps() + o < 2 * (i * o) + 2 * o
            &&& 2 * (j * o) <= 2 * q.signed_steps() + o
            &&& 2 * q.signed_steps() + o < 2 * (j * o) + 2 * o
        }),
{
    let w = Float32::spec_from_u64(size as u64);
    lemma_tolerance(size);
    lemma_span(size, size);
    small_integers_are_exact(size as u64);
    order_is_that_of_values(p, zero());
    order_is_that_of_values(w, q);
    lemma_clamped(p, size);
    lemma_clamped(q, size);
    let a = p.spec_clamp(zero(), w);
    let b = q.spec_clamp(zero(), w);
    assert(moved(p, q, w) == (p, q));
    lemma_round_is_pixel(a);
    lemma_round_is_pixel(b);
    lemma_pixel_on_axis(p.signed_steps(), size);
    lemma_pixel_on_axis(q.signed_steps(), size);
    lemma_pixel(p.signed_steps());
    lemma_pixel(q.signed_steps());
}

proof fn lemma_middle_at_start(
    s: int,
    e: int,
    n: int,
    half: int,
    center: int,
    face: int,
    t: int,
    o: int,
)
    requires
        s == 0,
        n <= e,
        2 * half < n * o + o,
        center < half,
        distance(2 * center, face) <= 6 * t,
        16 * t <= o + 16,
        o >= 0x1_0000_0000,
    ensures
        face <= (s + e) * o + 3 * o,
{
    assert(n * o <= (s + e) * o) by (nonlinear_arith)
        requires
            n <= e,
            s == 0,
            o > 0,
    ;
}

proof fn lemma_middle_at_end(
    s: int,
    e: int,
    size: int,
    n: int,
    half: int,
    center: int,
    face: int,
    t: int,
    o: int,
)
    requires
        e == size,
        s <= size - n,
        2 * half < n * o + o,
        center + half + t >= size * o,
        distance(2 * center, face) <= 6 * t,
        16 * t <= o + 16,
        o >= 0x1_0000_0000,
    ensures
        (s + e) * o <= face + 3 * o,
{
    assert((s + e) * o <= 2 * (size * o) - n * o) by (nonlinear_arith)
        requires
            s <= size - n,
            e == size,
            o > 0,
    ;
}

proof fn lemma_middle_in_place(
    s: int,
    e: int,
    p: int,
    q: int,
    i: int,
    j: int,
    center: int,
    face: int,
    t: int,
    o: int,
)
    requires
        p <= q,
        s == i,
        j <= e,
        e <= j || e <= i + 1,
        2 * (i * o) <= 2 * p + o,
        2 * p + o < 2 * (i * o) + 2 * o,
        2 * (j * o) <= 2 * q + o,
        2 * q + o < 2 * (j * o) + 2 * o,
        distance(p + q, 2 * center) <= 2 * t,
        distance(2 * center, face) <= 6 * t,
        16 * t <= o + 16,
        o >= 0x1_0000_0000,
    ensures
        distance((s + e) * o, face) <= 3 * o,
{
    lemma_nearest_pixels(p, q, i, j, o);
    assert(distance((s + e) * o, i * o + j * o) <= o) by (nonlinear_arith)
        requires
            s == i,
            j <= e <= j + 1,
            o > 0,
    ;
}

proof fn lemma_nearest_pixels(p: int, q: int, i: int, j: int, o: int)
    requires
        o > 0,
        p <= q,
        2 * (i * o) <= 2 * p + o,
        2 * p + o < 2 * (i * o) + 2 * o,
        2 * (j * o) <= 2 * q + o,
        2 * q + o < 2 * (j * o) + 2 * o,
    ensures
        i <= j,
        distance(i * o + j * o, p + q) <= o,
{
    assert(i <= j) by (nonlinear_arith)
        requires
            o > 0,
            2 * (i * o) < 2 * (j * o) + 2 * o,
    ;
}

/// A crop is centered on the face: the middle of the window is the middle of the face, up to
/// three half pixels, unless the window lies at an edge of the frame; there the face may only be
/// nearer to that edge.
pub proof fn crops_are_centered(width: u32, height: u32, face_box: FaceBox, margin: Float32)
    requires
        ordinary(width, height, face_box, margin),
        pictured(face_box),
    ensures
        ({
            let ((x1, x2), (y1, y2)) = crop_window(width, height, face_box, margin);
            let o = one() as int;
            let face_x = (face_box.x1.signed_steps() + face_box.x2.signed_steps()) * width;
            let face_y = (face_box.y1.signed_steps() + face_box.y2.signed_steps()) * height;
            &&& {
                ||| distance((x1 + x2) * o, face_x) <= 3 * o
                ||| x1 == 0 && face_x <= (x1 + x2) * o + 3 * o
                ||| x2 == width && (x1 + x2) * o <= face_x + 3 * o
            }
            &&& {
                ||| distance((y1 + y2) * o, face_y) <= 3 * o
                ||| y1 == 0 && face_y <= (y1 + y2) * o + 3 * o
                ||| y2 == height && (y1 + y2) * o <= face_y + 3 * o
            }
        }),
{
    let top = longer(width, height);
    let side = crop_side(width, height, face_box, margin);
    lemma_side(width, height, face_box, margin);
    lemma_window_middle(face_box.x1, face_box.x2, width, margin, side, top);
    lemma_window_middle(face_box.y1, face_box.y2, height, margin, side, top);
}

} // verus!
