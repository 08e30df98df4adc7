//! What holds of detections.
use crate::detector::{
    anchor, anchor_sizes, best_anchor, decoded, edges, face_anchor, face_score, grid_height,
    grid_width, level_priors, moved_center, prior_grid, there_are_4420_anchors, BoxDelta, FaceBox,
    Prior,
};
use crate::float32::{lemma_steps_increase, one, round_magnitude, steps, Float32};
use crate::float_laws::{
    differences_are_close, lemma_ratio, lemma_two, lemma_unity, order_is_that_of_values,
    rounding_is_monotone, rounding_keeps_sides, rounding_keeps_values, small_integers_are_exact,
    sums_are_close, two, unity, within,
};
use vstd::arithmetic::div_mod::*;
use vstd::arithmetic::mul::*;
use vstd::arithmetic::power2::*;
use vstd::prelude::*;

verus! {

/// The rank of the number nearest to `s` steps.
spec fn nearest_rank(s: int) -> int {
    if s < 0 {
        -round_magnitude((-s) as nat, 1)
    } else {
        round_magnitude(s as nat, 1) as int
    }
}

proof fn lemma_nearest_rank_grows(a: int, b: int)
    requires
        a <= b,
    ensures
        nearest_rank(a) <= nearest_rank(b),
{
    if 0 <= a {
        rounding_is_monotone(a as nat, 1, b as nat, 1);
    } else if b < 0 {
        rounding_is_monotone((-b) as nat, 1, (-a) as nat, 1);
    }
}

/// A sum of finite numbers stands where its exact value would.
proof fn lemma_sum_rank(a: Float32, b: Float32)
    requires
        a.is_finite(),
        b.is_finite(),
    ensures
        !a.spec_add(b).is_nan(),
        a.spec_add(b).rank() == nearest_rank(a.signed_steps() + b.signed_steps()),
{
    reveal(Float32::spec_add);
    let sum = a.signed_steps() + b.signed_steps();
    rounding_keeps_values(1, 0);
    assert(round_magnitude(0, 1) == 0);
}

/// Sums of ordered numbers are ordered.
pub proof fn lemma_sums_keep_order(a: Float32, b: Float32, c: Float32, d: Float32)
    requires
        a.is_finite(),
        b.is_finite(),
        c.is_finite(),
        d.is_finite(),
        a.signed_steps() + b.signed_steps() <= c.signed_steps() + d.signed_steps(),
    ensures
        a.spec_add(b).spec_le(c.spec_add(d)),
{
    lemma_sum_rank(a, b);
    lemma_sum_rank(c, d);
    lemma_nearest_rank_grows(
        a.signed_steps() + b.signed_steps(),
        c.signed_steps() + d.signed_steps(),
    );
}

/// Half of a number that is not negative is not negative either.
proof fn lemma_half(extent: Float32)
    requires
        extent.is_finite(),
        !extent.is_negative(),
    ensures
        extent.spec_div(two()).is_finite(),
        !extent.spec_div(two()).is_negative(),
{
    reveal(Float32::spec_div);
    lemma_two();
    lemma_pow2_pos(149);
    let t = two().abs_steps();
    let n = extent.abs_steps() * one();
    assert(n * t <= (t * extent.abs_steps()) * t) by (nonlinear_arith)
        requires
            n == extent.abs_steps() * one(),
            one() <= t,
    ;
    rounding_keeps_values(t, extent.magnitude());
    rounding_is_monotone(n, t, t * extent.abs_steps(), t);
}

/// A box has its first edge first: whatever the center, an extent that is not negative gives
/// ordered edges.
pub proof fn edges_are_ordered(center: Float32, extent: Float32)
    requires
        center.is_finite(),
        extent.is_finite(),
        !extent.is_negative(),
    ensures
        edges(center, extent).0.spec_le(edges(center, extent).1),
{
    lemma_half(extent);
    let half = extent.spec_div(two());
    lemma_sum_rank(center, half.spec_neg());
    lemma_sum_rank(center, half);
    lemma_nearest_rank_grows(
        center.signed_steps() + half.spec_neg().signed_steps(),
        center.signed_steps() + half.signed_steps(),
    );
}

/// Decoding gives well-ordered boxes wherever the moved center and the grown sides are finite
/// and the sides are not negative.
pub proof fn decoded_boxes_are_ordered(prior: Prior, delta: BoxDelta, growth: (Float32, Float32))
    requires
        moved_center(prior.cx, prior.w, delta.dx).is_finite(),
        moved_center(prior.cy, prior.h, delta.dy).is_finite(),
        growth.0.spec_mul(prior.w).is_finite(),
        growth.1.spec_mul(prior.h).is_finite(),
        !growth.0.spec_mul(prior.w).is_negative(),
        !growth.1.spec_mul(prior.h).is_negative(),
    ensures
        decoded(prior, delta, growth).x1.spec_le(decoded(prior, delta, growth).x2),
        decoded(prior, delta, growth).y1.spec_le(decoded(prior, delta, growth).y2),
{
    edges_are_ordered(
        moved_center(prior.cx, prior.w, delta.dx),
        growth.0.spec_mul(prior.w),
    );
    edges_are_ordered(
        moved_center(prior.cy, prior.h, delta.dy),
        growth.1.spec_mul(prior.h),
    );
}

spec fn plain(x: Float32) -> bool {
    x.is_finite() && !x.is_negative()
}

proof fn lemma_no_move(center: Float32, extent: Float32)
    requires
        plain(center),
        plain(extent),
    ensures
        moved_center(center, extent, Float32 { bits: 0 }) == center,
{
    let z = Float32 { bits: 0 };
    let v = Float32 { bits: crate::detector::CENTER_VARIANCE_BITS };
    lemma_pow2_pos(149);
    assert(z.spec_mul(v) == z) by {
        reveal(Float32::spec_mul);
        lemma_mul_basics(v.abs_steps() as int);
        lemma_mul_basics(one() as int);
        rounding_keeps_values(one(), 0);
    }
    assert(z.spec_mul(extent) == z) by {
        reveal(Float32::spec_mul);
        lemma_mul_basics(extent.abs_steps() as int);
        lemma_mul_basics(one() as int);
        rounding_keeps_values(one(), 0);
    }
    assert(z.spec_add(center) == center) by {
        reveal(Float32::spec_add);
        lemma_mul_basics(center.abs_steps() as int);
        rounding_keeps_values(1, center.magnitude());
        if center.magnitude() > 0 {
            lemma_steps_increase(0, center.magnitude());
        }
    }
}

proof fn lemma_no_growth(extent: Float32)
    requires
        plain(extent),
    ensures
        unity().spec_mul(extent) == extent,
{
    reveal(Float32::spec_mul);
    lemma_unity();
    lemma_pow2_pos(149);
    rounding_keeps_values(one(), extent.magnitude());
}

/// A delta of zero, whose growth is `exp(0) = 1`, gives the anchor itself.
pub proof fn zero_delta_gives_the_anchor(prior: Prior)
    requires
        prior.cx.is_finite(),
        prior.cy.is_finite(),
        prior.w.is_finite(),
        prior.h.is_finite(),
        !prior.cx.is_negative(),
        !prior.cy.is_negative(),
        !prior.w.is_negative(),
        !prior.h.is_negative(),
    ensures
        ({
            let z = Float32 { bits: 0 };
            let still = BoxDelta { dx: z, dy: z, dw: z, dh: z };
            let x = edges(prior.cx, prior.w);
            let y = edges(prior.cy, prior.h);
            decoded(prior, still, (unity(), unity())) == (FaceBox {
                x1: x.0,
                y1: y.0,
                x2: x.1,
                y2: y.1,
            })
        }),
{
    lemma_no_move(prior.cx, prior.w);
    lemma_no_move(prior.cy, prior.h);
    lemma_no_growth(prior.w);
    lemma_no_growth(prior.h);
}

/// A side of an anchor: from a 32nd of the picture to twice the picture.
pub open spec fn modest(x: Float32) -> bool {
    &&& x.is_finite()
    &&& !x.is_negative()
    &&& one() <= 32 * x.abs_steps() <= 64 * one()
}

/// A quotient that is neither large nor small.
proof fn lemma_modest_quotient(a: Float32, b: Float32)
    requires
        plain(a),
        plain(b),
        !b.is_zero(),
        b.abs_steps() <= 32 * a.abs_steps(),
        a.abs_steps() <= 2 * b.abs_steps(),
    ensures
        modest(a.spec_div(b)),
{
    lemma_pow2_pos(149);
    lemma_steps_increase(0, b.magnitude());
    lemma_thirty_second();
    let o = one();
    let n = a.abs_steps() * o;
    let d = b.abs_steps();
    assert(a.spec_div(b) == Float32::pack(false, round_magnitude(n, d))) by {
        reveal(Float32::spec_div);
    }
    let u = pow2(144);
    assert((1 * u) * d <= n) by (nonlinear_arith)
        requires
            n == a.abs_steps() * o,
            o == 32 * u,
            d <= 32 * a.abs_steps(),
    ;
    assert(n <= (2 * o) * d) by (nonlinear_arith)
        requires
            n == a.abs_steps() * o,
            a.abs_steps() <= 2 * d,
    ;
    rounding_keeps_sides(n, d, 1, 144);
    rounding_keeps_sides(n, d, 2, 149);
}

proof fn lemma_thirty_second()
    ensures
        one() == 32 * pow2(144),
        one() == 64 * pow2(143),
        one() == 128 * pow2(142),
        pow2(142) > 0x1_0000_0000,
{
    lemma_pow2_adds(5, 144);
    lemma_pow2_adds(6, 143);
    lemma_pow2_adds(7, 142);
    lemma_pow2_adds(32, 110);
    lemma_pow2_strictly_increases(1, 110);
    lemma2_to64();
}

/// The steps of a whole number's pattern.
proof fn lemma_whole(x: u64)
    requires
        0 < x <= 0x1000,
    ensures
        plain(Float32::spec_from_u64(x)),
        !Float32::spec_from_u64(x).is_zero(),
        Float32::spec_from_u64(x).abs_steps() == x * one(),
        x * one() > 0,
{
    small_integers_are_exact(x);
    lemma_pow2_pos(149);
    assert(x * one() > 0) by (nonlinear_arith)
        requires
            x > 0,
            one() > 0,
    ;
}

/// The middle of a grid cell, as a fraction of the grid.
proof fn lemma_cell_center(i: u64, cells: u64)
    requires
        i < cells <= 0x1000,
    ensures
        ({
            let half = Float32 { bits: 0x3f00_0000 };
            within(
                Float32::spec_from_u64(i).spec_add(half).spec_div(Float32::spec_from_u64(cells)),
                one(),
            )
        }),
{
    let half = Float32 { bits: 0x3f00_0000 };
    let o = one() as int;
    lemma_whole(cells);
    small_integers_are_exact(i);
    small_integers_are_exact((i + 1) as u64);
    lemma_pow2_adds(23, 125);
    lemma_pow2_adds(1, 148);
    lemma_pow2_pos(149);
    lemma2_to64();
    assert(half.magnitude() == 0x3f00_0000);
    assert(steps(0x3f00_0000) == 0x80_0000 * pow2(125));
    assert(2 * half.abs_steps() == o);
    let x = Float32::spec_from_u64(i);
    let n = Float32::spec_from_u64((i + 1) as u64);
    let sum = x.spec_add(half);
    let exact = x.abs_steps() + half.abs_steps();
    assert((i + 1) * o == i * o + o) by (nonlinear_arith);
    assert(sum.magnitude() <= n.magnitude() && !sum.is_negative()) by {
        reveal(Float32::spec_add);
        rounding_keeps_values(1, n.magnitude());
        lemma_mul_basics(n.abs_steps() as int);
        rounding_is_monotone(exact, 1, 1 * n.abs_steps(), 1);
    }
    if sum.magnitude() < n.magnitude() {
        lemma_steps_increase(sum.magnitude(), n.magnitude());
    }
    assert((i + 1) * o <= cells * o) by (nonlinear_arith)
        requires
            i + 1 <= cells,
            o > 0,
    ;
    lemma_ratio(sum, Float32::spec_from_u64(cells));
}

proof fn lemma_anchor(level: int, i: int, j: int, size: u64)
    requires
        0 <= level < 4,
        0 <= i < grid_width(level),
        0 <= j < grid_height(level),
        10 <= size <= 256,
    ensures
        ({
            let p = anchor(level, i, j, size);
            &&& within(p.cx, one())
            &&& within(p.cy, one())
            &&& modest(p.w)
            &&& modest(p.h)
        }),
{
    lemma_cell_center(i as u64, grid_width(level) as u64);
    lemma_cell_center(j as u64, grid_height(level) as u64);
    let o = one() as int;
    lemma_whole(size);
    let w = Float32 { bits: 0x43a0_0000 };
    let h = Float32 { bits: 0x4370_0000 };
    lemma_pow2_pos(149);
    lemma_pow2_adds(15, 134);
    lemma_pow2_adds(16, 133);
    lemma2_to64();
    assert(w.magnitude() == 0x43a0_0000 && h.magnitude() == 0x4370_0000);
    assert(steps(0x43a0_0000) == 0xa0_0000 * pow2(134));
    assert(steps(0x4370_0000) == 0xf0_0000 * pow2(133));
    assert(w.abs_steps() == 320 * o);
    assert(h.abs_steps() == 240 * o);
    assert(10 * o <= size * o <= 256 * o) by (nonlinear_arith)
        requires
            10 <= size <= 256,
            o > 0,
    ;
    lemma_modest_quotient(Float32::spec_from_u64(size), w);
    lemma_modest_quotient(Float32::spec_from_u64(size), h);
}

proof fn lemma_level_anchor(level: int, k: int)
    requires
        0 <= level < 4,
        0 <= k < level_priors(level).len(),
    ensures
        ({
            let p = level_priors(level)[k];
            &&& within(p.cx, one())
            &&& within(p.cy, one())
            &&& modest(p.w)
            &&& modest(p.h)
        }),
{
    let n = anchor_sizes(level).len() as int;
    let w = grid_width(level);
    let h = grid_height(level);
    assert(0 <= k < h * w * n);
    assert(n == 2 || n == 3);
    lemma_grid_position(k, w, h, n);
    let size = anchor_sizes(level)[k % n];
    assert(10 <= size <= 256);
    lemma_anchor(level, (k / n) % w, k / (w * n), size);
}

proof fn lemma_grid_position(k: int, w: int, h: int, n: int)
    requires
        0 < w,
        0 < h,
        0 < n,
        0 <= k < h * w * n,
    ensures
        0 <= k % n < n,
        0 <= (k / n) % w < w,
        0 <= k / (w * n) < h,
{
    assert(w * n > 0) by (nonlinear_arith)
        requires
            w > 0,
            n > 0,
    ;
    assert(h * w * n == h * (w * n)) by (nonlinear_arith);
    lemma_mod_bound(k, n);
    lemma_mod_bound(k / n, w);
    lemma_div_pos_is_pos(k, w * n);
    lemma_mul_is_commutative(h, w * n);
    lemma_multiply_divide_lt(k, w * n, h);
}

/// Every anchor has its center in the picture and sides of a 32nd of the picture at least, and a
/// delta of zero reproduces it.
pub proof fn anchors_lie_in_the_picture(k: int)
    requires
        0 <= k < 4420,
    ensures
        ({
            let p = prior_grid()[k];
            let z = Float32 { bits: 0 };
            let still = BoxDelta { dx: z, dy: z, dw: z, dh: z };
            let x = edges(p.cx, p.w);
            let y = edges(p.cy, p.h);
            &&& within(p.cx, one())
            &&& within(p.cy, one())
            &&& modest(p.w)
            &&& modest(p.h)
            &&& decoded(p, still, (unity(), unity())) == (FaceBox {
                x1: x.0,
                y1: y.0,
                x2: x.1,
                y2: y.1,
            })
        }),
{
    there_are_4420_anchors();
    let a = level_priors(0).len() as int;
    let b = a + level_priors(1).len();
    let c = b + level_priors(2).len();
    if k < a {
        lemma_level_anchor(0, k);
    } else if k < b {
        lemma_level_anchor(1, k - a);
    } else if k < c {
        lemma_level_anchor(2, k - b);
    } else {
        lemma_level_anchor(3, k - c);
    }
    zero_delta_gives_the_anchor(prior_grid()[k]);
}

/// How much the sides of an anchor may grow or shrink for a strict order: by a factor of two.
pub open spec fn moderate(growth: Float32) -> bool {
    &&& growth.is_finite()
    &&& !growth.is_negative()
    &&& one() <= 2 * growth.abs_steps() <= 4 * one()
}

/// How far a center may move for a strict order.
pub open spec fn short_move(delta: Float32) -> bool {
    &&& delta.is_finite()
    &&& delta.abs_steps() <= 0x1000 * one()
}

/// The size of a product.
pub proof fn lemma_product_steps(a: Float32, b: Float32, k: nat)
    requires
        a.is_finite(),
        b.is_finite(),
        k <= 0x100_0000,
        a.abs_steps() * b.abs_steps() <= (k * one()) * one(),
    ensures
        a.spec_mul(b).is_finite(),
        a.spec_mul(b).abs_steps() <= k * one(),
        a.spec_mul(b).magnitude() == round_magnitude(a.abs_steps() * b.abs_steps(), one()),
        !a.is_negative() && !b.is_negative() ==> !a.spec_mul(b).is_negative(),
{
    lemma_pow2_pos(149);
    reveal(Float32::spec_mul);
    rounding_keeps_sides(a.abs_steps() * b.abs_steps(), one(), k, 149);
}

/// A center that moves a short way stays near the picture.
pub proof fn lemma_center_stays_near(center: Float32, extent: Float32, delta: Float32)
    requires
        within(center, one()),
        modest(extent),
        short_move(delta),
    ensures
        moved_center(center, extent, delta).is_finite(),
        -0x4000 * one() <= moved_center(center, extent, delta).signed_steps() <= 0x4000 * one(),
{
    let o = one();
    lemma_pow2_pos(149);
    lemma_thirty_second();
    lemma_unity();
    let v = Float32 { bits: crate::detector::CENTER_VARIANCE_BITS };
    assert(v.magnitude() == 0x3dcc_cccd && unity().magnitude() == 0x3f80_0000);
    lemma_steps_increase(v.magnitude(), unity().magnitude());
    assert(delta.abs_steps() * v.abs_steps() <= (0x1000 * o) * o) by (nonlinear_arith)
        requires
            delta.abs_steps() <= 0x1000 * o,
            v.abs_steps() <= o,
    ;
    lemma_product_steps(delta, v, 0x1000);
    let m = delta.spec_mul(v);
    assert(m.abs_steps() * extent.abs_steps() <= (0x2000 * o) * o) by (nonlinear_arith)
        requires
            m.abs_steps() <= 0x1000 * o,
            extent.abs_steps() <= 2 * o,
    ;
    lemma_product_steps(m, extent, 0x2000);
    sums_are_close(m.spec_mul(extent), center);
}

/// An extent that is not tiny, around a center near the picture, gives edges in strict order.
proof fn lemma_edges_differ(center: Float32, growth: Float32, extent: Float32)
    requires
        center.is_finite(),
        -0x4000 * one() <= center.signed_steps() <= 0x4000 * one(),
        moderate(growth),
        modest(extent),
    ensures
        ({
            let (a, b) = edges(center, growth.spec_mul(extent));
            a.is_finite() && b.is_finite() && a.spec_lt(b)
        }),
{
    let o = one();
    lemma_pow2_pos(149);
    lemma_thirty_second();
    lemma_two();
    let g = growth.abs_steps();
    let x = extent.abs_steps();
    assert((1 * pow2(143)) * o <= g * x <= (4 * o) * o) by (nonlinear_arith)
        requires
            o <= 2 * g <= 4 * o,
            o <= 32 * x <= 64 * o,
            o == 64 * pow2(143),
    ;
    lemma_product_steps(growth, extent, 4);
    rounding_keeps_sides(g * x, o, 1, 143);
    let y = growth.spec_mul(extent);
    let n = y.abs_steps() * o;
    let d = 2 * o;
    let half = y.spec_div(two());
    assert(half == Float32::pack(false, round_magnitude(n, d))) by {
        reveal(Float32::spec_div);
    }
    assert((1 * pow2(142)) * d <= n <= (2 * o) * d) by (nonlinear_arith)
        requires
            n == y.abs_steps() * o,
            d == 2 * o,
            2 * pow2(142) <= y.abs_steps() <= 4 * o,
    ;
    rounding_keeps_sides(n, d, 1, 142);
    rounding_keeps_sides(n, d, 2, 149);
    sums_are_close(center, half);
    differences_are_close(center, half);
    order_is_that_of_values(center.spec_sub(half), center.spec_add(half));
}

/// Decoding gives boxes whose edges are in strict order: for every anchor, if the center moves by
/// a delta of at most 4096 and the sides grow or shrink by a factor of two at most.
pub proof fn decoded_boxes_are_not_empty(k: int, delta: BoxDelta, growth: (Float32, Float32))
    requires
        0 <= k < 4420,
        short_move(delta.dx),
        short_move(delta.dy),
        moderate(growth.0),
        moderate(growth.1),
    ensures
        ({
            let b = decoded(prior_grid()[k], delta, growth);
            &&& b.x1.is_finite() && b.x2.is_finite() && b.x1.spec_lt(b.x2)
            &&& b.y1.is_finite() && b.y2.is_finite() && b.y1.spec_lt(b.y2)
        }),
{
    let p = prior_grid()[k];
    anchors_lie_in_the_picture(k);
    lemma_center_stays_near(p.cx, p.w, delta.dx);
    lemma_center_stays_near(p.cy, p.h, delta.dy);
    lemma_edges_differ(moved_center(p.cx, p.w, delta.dx), growth.0, p.w);
    lemma_edges_differ(moved_center(p.cy, p.h, delta.dy), growth.1, p.h);
}

/// The best anchor's score is not below any other, and comes from the first anchor that has
/// it; without a score above zero it is anchor 0 with zero.
pub proof fn best_anchor_is_best(scores: Seq<Float32>, n: int, i: int)
    requires
        0 <= i < n,
    ensures
        ({
            let (b, s) = best_anchor(scores, n);
            &&& !s.is_nan()
            &&& !s.spec_lt(face_score(scores, i))
            &&& 0 <= b < n
            &&& s == (Float32 { bits: 0 }) || s == face_score(scores, b)
            &&& s != (Float32 { bits: 0 }) && i < b ==> face_score(scores, i).is_nan()
                || face_score(scores, i).spec_lt(s)
        }),
    decreases n,
{
    let before = best_anchor(scores, n - 1);
    if n > 1 {
        if i < n - 1 {
            best_anchor_is_best(scores, n - 1, i);
        } else {
            best_anchor_is_best(scores, n - 1, 0);
        }
    }
}

/// A face is reported exactly where some score reaches the threshold, for a threshold above
/// zero.
pub proof fn faces_reach_the_threshold(scores: Seq<Float32>, threshold: Float32)
    requires
        (Float32 { bits: 0 }).spec_lt(threshold),
    ensures
        face_anchor(scores, threshold) is Some <==> exists|i: int|
            0 <= i < scores.len() as int / 2 && threshold.spec_le(
                #[trigger] face_score(scores, i),
            ),
        face_anchor(scores, threshold) matches Some(i) ==> 0 <= i < scores.len() as int / 2
            && threshold.spec_le(face_score(scores, i)),
{
    let n = scores.len() as int / 2;
    let (b, s) = best_anchor(scores, n);
    if n > 0 {
        best_anchor_is_best(scores, n, 0);
    }
    if s.spec_lt(threshold) {
        assert forall|i: int| 0 <= i < n implies !threshold.spec_le(
            #[trigger] face_score(scores, i),
        ) by {
            best_anchor_is_best(scores, n, i);
        }
    } else {
        assert(threshold.spec_le(face_score(scores, b)));
    }
}

} // verus!
