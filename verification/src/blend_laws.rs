//! How the tone curves of neighboring tiles are blended.
use crate::decode_laws::lemma_signed_product;
use crate::equalize::{
    curve_at, enclosing, equalization, equalized, lemma_equalized_level, mix, neighbors,
    tile_centers, tile_count, tile_range, CLAHE_TILES_X, CLAHE_TILES_Y,
};
use crate::float32::{one, round_magnitude, steps, Float32};
use crate::float_laws::{
    differences_are_close, distance, lemma_difference, lemma_mix, lemma_one_is_large, lemma_ratio,
    lemma_two, order_is_that_of_values, rounding_keeps_values, rounding_lower_bound,
    rounding_upper_bound, short_significands_are_exact, small_integers_are_exact, sums_are_close,
    two, unity, within,
};
use crate::level_laws::{
    blend, lemma_level_number, lemma_pair_order, lemma_pixel, lemma_rest, lemma_tiles_of_a_pixel,
    lemma_weighted_order,
};
use vstd::arithmetic::div_mod::*;
use vstd::arithmetic::mul::*;
use vstd::arithmetic::power2::*;
use vstd::prelude::*;

verus! {

/// How far a mixture is off `a (1 - w) + b w`.
proof fn lemma_mix_is_close(a: Float32, b: Float32, w: Float32)
    requires
        within(a, 0x180 * one()),
        within(b, 0x180 * one()),
        within(w, one()),
    ensures
        0x100_0000 * distance(
            one() * mix(a, b, w).signed_steps(),
            a.signed_steps() * (one() - w.signed_steps()) + b.signed_steps() * w.signed_steps(),
        ) <= 0x1000 * (one() * one()),
{
    let o = one() as int;
    lemma_one_is_large();
    lemma_rest(w);
    let r = unity().spec_sub(w);
    lemma_weighted_order(a, a, r);
    lemma_weighted_order(b, b, w);
    let p = a.spec_mul(r);
    let q = b.spec_mul(w);
    let x = r.signed_steps();
    let z = w.signed_steps();
    let (fa, fb) = (a.signed_steps(), b.signed_steps());
    let oo = o * o;
    assert(0 <= fa * x <= 0x180 * oo && 0 <= fb * z <= 0x180 * oo && fa * x <= o * (
    0x100_0000_0000 * o) && fb * z <= o * (0x100_0000_0000 * o)) by (nonlinear_arith)
        requires
            0 <= fa <= 0x180 * o,
            0 <= fb <= 0x180 * o,
            0 <= x <= o,
            0 <= z <= o,
            oo == o * o,
    ;
    lemma_signed_product(a, r);
    lemma_signed_product(b, w);
    sums_are_close(p, q);
    let s = mix(a, b, w).signed_steps();
    let (ps, qs) = (p.signed_steps(), q.signed_steps());
    assert(oo >= 0x1_0000_0000_0000 * o) by (nonlinear_arith)
        requires
            oo == o * o,
            o >= 0x1_0000_0000_0000,
    ;
    assert(0x100_0000 * distance(o * s, o * ps + o * qs) <= 0x801 * oo) by (nonlinear_arith)
        requires
            0x100_0000 * distance(s, ps + qs) <= ps + qs + 0x80_0000,
            0 <= ps <= 0x400 * o,
            0 <= qs <= 0x400 * o,
            o >= 0x1_0000_0000_0000,
            oo == o * o,
    ;
    assert(0x100_0000 * distance(fa * x, fa * (o - z)) <= 0x181 * oo) by (nonlinear_arith)
        requires
            0x100_0000 * distance(x, o - z) <= o + 0x80_0000,
            0 <= fa <= 0x180 * o,
            o >= 0x1_0000_0000_0000,
            oo == o * o,
    ;
}

/// How far a blend of four levels is off the exact one.
#[verifier::spinoff_prover]
#[verifier::rlimit(40)]
proof fn lemma_blend_is_close(
    v00: u8,
    v01: u8,
    v10: u8,
    v11: u8,
    wx: Float32,
    wy: Float32,
)
    requires
        within(wx, one()),
        within(wy, one()),
    ensures
        within(blend(v00, v01, v10, v11, wx, wy), 0x100 * one()),
        ({
            let x = wx.signed_steps();
            let y = wy.signed_steps();
            let top = v00 * (one() - x) + v01 * x;
            let bottom = v10 * (one() - x) + v11 * x;
            0x100_0000 * distance(
                one() * blend(v00, v01, v10, v11, wx, wy).signed_steps(),
                top * (one() - y) + bottom * y,
            ) <= 0x2000 * (one() * one())
        }),
{
    let o = one() as int;
    lemma_one_is_large();
    let (f00, f01) = (Float32::spec_from_u64(v00 as u64), Float32::spec_from_u64(v01 as u64));
    let (f10, f11) = (Float32::spec_from_u64(v10 as u64), Float32::spec_from_u64(v11 as u64));
    lemma_level_number(v00);
    lemma_level_number(v01);
    lemma_level_number(v10);
    lemma_level_number(v11);
    lemma_pair_order(v00, v01, v00, v01, wx);
    lemma_pair_order(v10, v11, v10, v11, wx);
    let ta = mix(f00, f01, wx);
    let ba = mix(f10, f11, wx);
    lemma_mix_is_close(f00, f01, wx);
    lemma_mix_is_close(f10, f11, wx);
    lemma_mix(ta, ba, wy, 32641);
    assert(128 * mix(ta, ba, wy).abs_steps() <= 32642 * one());
    lemma_mix_is_close(ta, ba, wy);
    let x = wx.signed_steps();
    let y = wy.signed_steps();
    let top = v00 * (o - x) + v01 * x;
    let bottom = v10 * (o - x) + v11 * x;
    let (ts, bs) = (ta.signed_steps(), ba.signed_steps());
    lemma_common_factor(v00 as int, v01 as int, x, ts, o);
    lemma_common_factor(v10 as int, v11 as int, x, bs, o);
    let oo = o * o;
    let r = blend(v00, v01, v10, v11, wx, wy).signed_steps();
    assert(0x100_0000 * distance(ts * (o - y) + bs * y, top * (o - y) + bottom * y) <= 0x1000 * oo)
        by (nonlinear_arith)
        requires
            0x100_0000 * distance(ts, top) <= 0x1000 * o,
            0x100_0000 * distance(bs, bottom) <= 0x1000 * o,
            0 <= y <= o,
            oo == o * o,
    ;
}

proof fn lemma_common_factor(u: int, v: int, x: int, s: int, o: int)
    requires
        o > 0,
        0x100_0000 * distance(o * s, (u * o) * (o - x) + (v * o) * x) <= 0x1000 * (o * o),
    ensures
        0x100_0000 * distance(s, u * (o - x) + v * x) <= 0x1000 * o,
{
    let e = u * (o - x) + v * x;
    assert((u * o) * (o - x) + (v * o) * x == o * e) by (nonlinear_arith)
        requires
            e == u * (o - x) + v * x,
    ;
    let d = distance(s, e);
    assert(distance(o * s, o * e) == o * d) by (nonlinear_arith)
        requires
            d == distance(s, e),
            o > 0,
    ;
    assert(0x100_0000 * d <= 0x1000 * o) by (nonlinear_arith)
        requires
            0x100_0000 * (o * d) <= 0x1000 * (o * o),
            o > 0,
    ;
}

/// A pixel's new level is the whole number nearest to what bilinear interpolation makes of the
/// levels that the four neighboring tiles give its sample. Rounding on the way costs less than a
/// two-thousandth of a level. In steps, the product of two weights has two factors of one.
#[verifier::spinoff_prover]
#[verifier::rlimit(40)]
pub proof fn equalized_samples_interpolate(data: Seq<u16>, width: u32, height: u32, i: int)
    requires
        0 < width,
        0 < height,
        width * tile_count(CLAHE_TILES_X, width) <= u32::MAX,
        height * tile_count(CLAHE_TILES_Y, height) <= u32::MAX,
        data.len() >= width * height,
        0 <= i < width * height,
    ensures
        ({
            let o = one() as int;
            let (s, t, wx) = neighbors(
                Float32::spec_from_u64((i % width as int) as u64),
                tile_centers(width, tile_count(CLAHE_TILES_X, width)),
            );
            let (u, v, wy) = neighbors(
                Float32::spec_from_u64((i / width as int) as u64),
                tile_centers(height, tile_count(CLAHE_TILES_Y, height)),
            );
            let x = wx.signed_steps();
            let y = wy.signed_steps();
            let l = data[i] as int / 257;
            let top = curve_at(data, width, height, s, u)[l] * (o - x) + curve_at(
                data,
                width,
                height,
                t,
                u,
            )[l] * x;
            let bottom = curve_at(data, width, height, s, v)[l] * (o - x) + curve_at(
                data,
                width,
                height,
                t,
                v,
            )[l] * x;
            let result = equalization(data, width, height)[i];
            &&& result % 257 == 0
            &&& 4096 * distance((result / 257) * (o * o), top * (o - y) + bottom * y) <= 2050 * (o
                * o)
        }),
{
    let x = i % width as int;
    let y = i / width as int;
    lemma_pixel(i, width as int, height as int);
    lemma_tiles_of_a_pixel(CLAHE_TILES_X, width, x);
    lemma_tiles_of_a_pixel(CLAHE_TILES_Y, height, y);
    let (s, t, wx) = neighbors(
        Float32::spec_from_u64(x as u64),
        tile_centers(width, tile_count(CLAHE_TILES_X, width)),
    );
    let (u, v, wy) = neighbors(
        Float32::spec_from_u64(y as u64),
        tile_centers(height, tile_count(CLAHE_TILES_Y, height)),
    );
    let l = data[i] as int / 257;
    let v00 = curve_at(data, width, height, s, u)[l];
    let v01 = curve_at(data, width, height, t, u)[l];
    let v10 = curve_at(data, width, height, s, v)[l];
    let v11 = curve_at(data, width, height, t, v)[l];
    lemma_rounded_blend(v00, v01, v10, v11, wx, wy);
    let level = equalized(data, width, height, x, y);
    assert(level == blend(v00, v01, v10, v11, wx, wy));
    lemma_equalized_level(data, width, height, x, y);
    assert(equalization(data, width, height)[i] == level.spec_round_to_u32() * 257);
    assert((level.spec_round_to_u32() * 257) / 257 == level.spec_round_to_u32());
}

/// A blend of four levels, rounded, is close to the exact blend.
proof fn lemma_rounded_blend(
    v00: u8,
    v01: u8,
    v10: u8,
    v11: u8,
    wx: Float32,
    wy: Float32,
)
    requires
        within(wx, one()),
        within(wy, one()),
    ensures
        ({
            let o = one() as int;
            let x = wx.signed_steps();
            let y = wy.signed_steps();
            let top = v00 * (o - x) + v01 * x;
            let bottom = v10 * (o - x) + v11 * x;
            let level = blend(v00, v01, v10, v11, wx, wy).spec_round_to_u32();
            4096 * distance(level * (o * o), top * (o - y) + bottom * y) <= 2050 * (o * o)
        }),
{
    lemma_blend_is_close(v00, v01, v10, v11, wx, wy);
    lemma_nearest(blend(v00, v01, v10, v11, wx, wy));
}

/// The nearest whole number is at most a half away.
proof fn lemma_nearest(a: Float32)
    requires
        within(a, 0x100 * one()),
    ensures
        2 * distance(one() * a.signed_steps(), a.spec_round_to_u32() * (one() * one())) <= one()
            * one(),
{
    reveal(Float32::spec_round_to_u32);
    lemma_pow2_pos(149);
    let o = one() as int;
    let s = a.signed_steps();
    let q = (2 * s + o) / (2 * o);
    lemma_fundamental_div_mod(2 * s + o, 2 * o);
    lemma_mod_bound(2 * s + o, 2 * o);
    lemma_div_pos_is_pos(2 * s + o, 2 * o);
    assert(q < 0x1000) by {
        lemma_multiply_divide_lt(2 * s + o, 2 * o, 0x1000);
    }
    let e = (2 * s + o) % (2 * o);
    let oo = o * o;
    assert((2 * o) * q == 2 * (o * q)) by (nonlinear_arith);
    let oq = o * q;
    assert(2 * distance(s, oq) <= o);
    assert(2 * distance(o * s, q * oo) <= oo) by (nonlinear_arith)
        requires
            2 * distance(s, oq) <= o,
            oq == o * q,
            oo == o * o,
            o > 0,
    ;
}

/// Twice the middle of a tile.
pub open spec fn middle(dim: u32, tiles: u32, i: int) -> int {
    tile_range(dim, tiles, i).0 + tile_range(dim, tiles, i).1
}

/// A tile's center is the middle between its first pixel and the one after its last.
proof fn lemma_center(dim: u32, tiles: u32, i: int)
    requires
        0 <= i < tiles,
        dim <= 0x80_0000,
        dim * tiles <= u32::MAX,
    ensures
        within(tile_centers(dim, tiles)[i], 0x100_0000 * one()),
        2 * tile_centers(dim, tiles)[i].signed_steps() == middle(dim, tiles, i) * one(),
{
    let o = one();
    crate::equalize_laws::tiles_partition_the_axis(dim, tiles, i, i);
    let m = middle(dim, tiles, i) as nat;
    small_integers_are_exact(m as u64);
    lemma_two();
    let f = Float32::spec_from_u64(m as u64);
    let c = f.spec_div(two());
    let mag = short_significands_are_exact(m, 148);
    lemma_pow2_unfold(149);
    lemma_pow2_pos(148);
    assert(f.abs_steps() * o == two().abs_steps() * steps(mag)) by (nonlinear_arith)
        requires
            f.abs_steps() == m * o,
            two().abs_steps() == 2 * o,
            steps(mag) == m * pow2(148),
            o == 2 * pow2(148),
    ;
    rounding_keeps_values(two().abs_steps(), mag);
    assert(c == Float32::pack(false, mag)) by {
        reveal(Float32::spec_div);
    }
    assert(2 * (m * pow2(148)) == m * o) by (nonlinear_arith)
        requires
            o == 2 * pow2(148),
    ;
    assert(m * o <= 0x100_0000 * o) by (nonlinear_arith)
        requires
            m <= 0x100_0000,
    ;
    assert(c == tile_centers(dim, tiles)[i]);
}

/// The tiles that a pixel is blended from are those whose middles lie on both sides of it, and
/// the second one's weight is how far the pixel is on the way to it. Before the first middle and
/// after the last one there is one tile only. All is stated on twice the pixel and twice the
/// middles, which are whole numbers.
#[verifier::spinoff_prover]
#[verifier::rlimit(40)]
pub proof fn tiles_are_weighed_by_distance(dim: u32, tiles: u32, pos: u32)
    requires
        tiles > 0,
        dim <= 0x80_0000,
        dim * tiles <= u32::MAX,
        pos < dim,
    ensures
        ({
            let (a, b, w) = neighbors(
                Float32::spec_from_u64(pos as u64),
                tile_centers(dim, tiles),
            );
            let near = middle(dim, tiles, a);
            let far = middle(dim, tiles, b);
            &&& 0 <= a <= b < tiles
            &&& a == b ==> {
                &&& w.signed_steps() == 0
                &&& (a == 0 && 2 * pos <= near) || (a == tiles - 1 && near <= 2 * pos)
            }
            &&& a != b ==> {
                &&& b == a + 1
                &&& near <= 2 * pos <= far
                &&& 0x40_0000 * distance(
                    (far - near) * w.signed_steps(),
                    (2 * pos - near) * one(),
                ) <= (far - near) * one()
            }
        }),
{
    let centers = tile_centers(dim, tiles);
    let p = Float32::spec_from_u64(pos as u64);
    let o = one() as int;
    lemma_one_is_large();
    small_integers_are_exact(pos as u64);
    lemma_center(dim, tiles, 0);
    lemma_center(dim, tiles, tiles - 1);
    order_is_that_of_values(p, centers[0]);
    order_is_that_of_values(centers[tiles - 1], p);
    assert((Float32 { bits: 0 }).signed_steps() == 0);
    let first = middle(dim, tiles, 0);
    let last = middle(dim, tiles, tiles - 1);
    lemma_same_order(2 * pos as int, first, o);
    lemma_same_order(last, 2 * pos as int, o);
    assert((2 * pos) * o == 2 * (pos * o)) by (nonlinear_arith);
    if tiles <= 1 || p.spec_le(centers[0]) {
    } else if centers[tiles - 1].spec_le(p) {
    } else {
        lemma_enclosing_weight(dim, tiles, pos, 0);
    }
}

proof fn lemma_same_order(a: int, b: int, o: int)
    requires
        o > 0,
    ensures
        a * o <= b * o <==> a <= b,
{
    assert(a * o <= b * o <==> a <= b) by (nonlinear_arith)
        requires
            o > 0,
    ;
}

proof fn lemma_enclosing_weight(dim: u32, tiles: u32, pos: u32, i: int)
    requires
        tiles > 1,
        dim <= 0x80_0000,
        dim * tiles <= u32::MAX,
        pos < dim,
        0 <= i < tiles - 1,
        middle(dim, tiles, i) <= 2 * pos < middle(dim, tiles, tiles - 1),
    ensures
        ({
            let (a, b, w) = enclosing(
                Float32::spec_from_u64(pos as u64),
                tile_centers(dim, tiles),
                i,
            );
            let near = middle(dim, tiles, a);
            let far = middle(dim, tiles, b);
            &&& 0 <= a < tiles - 1
            &&& b == a + 1
            &&& near <= 2 * pos <= far
            &&& 0x40_0000 * distance((far - near) * w.signed_steps(), (2 * pos - near) * one()) <= (
            far - near) * one()
        }),
    decreases tiles - i,
{
    let centers = tile_centers(dim, tiles);
    let p = Float32::spec_from_u64(pos as u64);
    let o = one() as int;
    lemma_one_is_large();
    small_integers_are_exact(pos as u64);
    lemma_center(dim, tiles, i);
    lemma_center(dim, tiles, i + 1);
    order_is_that_of_values(centers[i], p);
    order_is_that_of_values(p, centers[i + 1]);
    let near = middle(dim, tiles, i);
    let far = middle(dim, tiles, i + 1);
    lemma_same_order(near, 2 * pos as int, o);
    lemma_same_order(2 * pos as int, far, o);
    assert((2 * pos) * o == 2 * (pos * o)) by (nonlinear_arith);
    if p.spec_le(centers[i + 1]) {
        lemma_weight(p, centers[i], centers[i + 1], 2 * pos as int, near, far);
    } else {
        lemma_enclosing_weight(dim, tiles, pos, i + 1);
    }
}

/// The weight of the second of two centers.
#[verifier::spinoff_prover]
#[verifier::rlimit(40)]
proof fn lemma_weight(p: Float32, c: Float32, d: Float32, pos: int, near: int, far: int)
    requires
        within(p, 0x100_0000 * one()),
        within(c, 0x100_0000 * one()),
        within(d, 0x100_0000 * one()),
        2 * p.signed_steps() == pos * one(),
        2 * c.signed_steps() == near * one(),
        2 * d.signed_steps() == far * one(),
        near <= pos <= far,
    ensures
        ({
            let span = d.spec_sub(c);
            let w = if (Float32 { bits: 0 }).spec_lt(span) {
                p.spec_sub(c).spec_div(span)
            } else {
                Float32 { bits: 0 }
            };
            0x40_0000 * distance((far - near) * w.signed_steps(), (pos - near) * one()) <= (far
                - near) * one()
        }),
{
    let o = one() as int;
    lemma_one_is_large();
    let zero = Float32 { bits: 0 };
    assert(zero.signed_steps() == 0);
    let span = d.spec_sub(c);
    let part = p.spec_sub(c);
    let big = far - near;
    let small = pos - near;
    lemma_same_order(near, pos, o);
    lemma_same_order(pos, far, o);
    assert(big * o == far * o - near * o && small * o == pos * o - near * o) by (nonlinear_arith)
        requires
            big == far - near,
            small == pos - near,
    ;
    order_is_that_of_values(c, p);
    order_is_that_of_values(p, d);
    lemma_difference(c, p, d);
    differences_are_close(d, c);
    differences_are_close(p, c);
    order_is_that_of_values(zero, span);
    let s = span.signed_steps();
    let q = part.signed_steps();
    let ex = d.signed_steps() - c.signed_steps();
    let ey = p.signed_steps() - c.signed_steps();
    assert(2 * ex == big * o && 2 * ey == small * o);
    if big == 0 {
        assert(ex == 0 && ey == 0) by {
            lemma_mul_basics(o);
        }
        assert(s <= 0 || 0x100_0000 * s <= 0x80_0000);
        assert(s == 0);
        lemma_mul_basics(o);
        assert((far - near) * zero.signed_steps() == 0);
    } else {
        assert(big * o >= o && 0 <= small * o <= big * o) by (nonlinear_arith)
            requires
                big >= 1,
                0 <= small <= big,
                o > 0,
        ;
        assert(s > 0);
        if span.is_zero() {
            assert(span.abs_steps() == 0);
        }
        lemma_ratio(part, span);
        let w = part.spec_div(span);
        let n = (part.abs_steps() * one()) as nat;
        assert(w.magnitude() == round_magnitude(n, span.abs_steps())) by {
            reveal(Float32::spec_div);
        }
        rounding_upper_bound(n, span.abs_steps());
        rounding_lower_bound(n, span.abs_steps());
        let v = w.signed_steps();
        lemma_weight_error(big, small, ex, ey, s, q, v, o);
    }
}

proof fn lemma_weight_error(big: int, small: int, ex: int, ey: int, s: int, q: int, v: int, o: int)
    requires
        o >= 0x1_0000_0000_0000,
        big >= 1,
        0 <= small <= big,
        2 * ex == big * o,
        2 * ey == small * o,
        0 <= q <= s,
        0 <= v <= o,
        0x100_0000 * distance(s, ex) <= ex + 0x80_0000,
        0x100_0000 * distance(q, ey) <= ey + 0x80_0000,
        0x100_0000 * (s * v) <= 0x100_0001 * (q * o) + 0x80_0000 * s,
        0x100_0000 * (q * o) <= 0x100_0000 * (s * v) + q * o + 0x80_0000 * s,
    ensures
        0x40_0000 * distance(big * v, small * o) <= big * o,
{
    assert(0 <= small * o <= big * o && big * o >= o) by (nonlinear_arith)
        requires
            o > 0,
            big >= 1,
            0 <= small <= big,
    ;
    let eo = ex * o;
    assert(0x1000_0000 * ex <= eo && 0x1000_0000 * o <= eo) by (nonlinear_arith)
        requires
            eo == ex * o,
            o >= 0x1_0000_0000_0000,
            2 * ex >= o,
    ;
    assert(0x100_0000 * distance(s * v, ex * v) <= eo + 0x80_0000 * o) by (nonlinear_arith)
        requires
            0x100_0000 * distance(s, ex) <= ex + 0x80_0000,
            0 <= v <= o,
            eo == ex * o,
    ;
    assert(0x100_0000 * distance(q * o, ey * o) <= eo + 0x80_0000 * o) by (nonlinear_arith)
        requires
            0x100_0000 * distance(q, ey) <= ey + 0x80_0000,
            ey <= ex,
            eo == ex * o,
            o > 0,
    ;
    assert(ey * o <= eo) by (nonlinear_arith)
        requires
            ey <= ex,
            eo == ex * o,
            o > 0,
    ;
    let so = q * o;
    assert(0x100_0000 * so <= 0x100_0000 * eo + eo + 0x80_0000 * o);
    assert(s <= 2 * ex);
    assert(0x40_0000 * distance(ex * v, ey * o) <= eo);
    let d = distance(big * v, small * o);
    assert(2 * (ex * v) == o * (big * v) && 2 * (ey * o) == o * (small * o) && 2 * eo == o * (big
        * o)) by (nonlinear_arith)
        requires
            2 * ex == big * o,
            2 * ey == small * o,
            eo == ex * o,
    ;
    let (bv, sm, bo) = (big * v, small * o, big * o);
    assert(0x40_0000 * distance(o * bv, o * sm) <= o * bo);
    assert(0x40_0000 * distance(bv, sm) <= bo) by (nonlinear_arith)
        requires
            0x40_0000 * distance(o * bv, o * sm) <= o * bo,
            o > 0,
    ;
}

} // verus!
