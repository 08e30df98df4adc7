//! What the contrast equalization makes of the samples of a frame, on the whole 16-bit range.
use crate::equalize::{
    curve_at, equalization, equalized, lemma_equalized_level, level, mix, neighbors, row_hits,
    tile_centers, tile_count, tile_histogram, tile_hits, tile_range, total, weights_are_fractions,
    CLAHE_TILES_X, CLAHE_TILES_Y,
};
use crate::equalize_laws::{tiles_partition_the_axis, tone_curves_rise};
use crate::float32::{one, Float32};
use crate::float_laws::{
    differences_are_close, distance, lemma_difference, lemma_mix, lemma_unity,
    order_is_that_of_values, rounding_is_monotone, small_integers_are_exact, unity, within,
};
use vstd::arithmetic::div_mod::*;
use vstd::arithmetic::mul::*;
use vstd::arithmetic::power2::*;
use vstd::prelude::*;

verus! {

/// The 65536 samples fall into 256 levels of 257 samples each, in order: level `k` holds the
/// samples from `257 k` to `257 k + 256`.
pub proof fn levels_share_the_range_evenly(sample: u16, k: int)
    ensures
        0 <= level(sample) <= 255,
        level(sample) == k <==> 257 * k <= sample <= 257 * k + 256,
        257 * k == sample ==> level(sample) == k,
{
}

/// The pixels of row `y` in columns `x0` to `x1` whose samples lie in the `l`-th run of 257.
pub open spec fn row_pixels(data: Seq<u16>, width: int, x0: int, x1: int, y: int, l: int) -> Set<
    (int, int),
> {
    Set::new(|p: (int, int)| p.1 == y && x0 <= p.0 < x1 && data[y * width + p.0] as int / 257 == l)
}

/// The pixels of a tile whose samples lie in the `l`-th run of 257.
pub open spec fn tile_pixels(
    data: Seq<u16>,
    width: int,
    x0: int,
    x1: int,
    y0: int,
    y1: int,
    l: int,
) -> Set<(int, int)> {
    Set::new(
        |p: (int, int)|
            x0 <= p.0 < x1 && y0 <= p.1 < y1 && data[p.1 * width + p.0] as int / 257 == l,
    )
}

proof fn lemma_row_pixels(data: Seq<u16>, width: int, x0: int, x1: int, y: int, l: int)
    ensures
        row_pixels(data, width, x0, x1, y, l).finite(),
        row_pixels(data, width, x0, x1, y, l).len() == row_hits(data, y * width, x0, x1, l),
    decreases x1 - x0,
{
    let here = row_pixels(data, width, x0, x1, y, l);
    if x1 <= x0 {
        assert(here =~= Set::empty());
    } else {
        lemma_row_pixels(data, width, x0, x1 - 1, y, l);
        let before = row_pixels(data, width, x0, x1 - 1, y, l);
        if data[y * width + x1 - 1] as int / 257 == l {
            assert(here =~= before.insert((x1 - 1, y)));
        } else {
            assert(here =~= before);
        }
    }
}

/// A tile's histogram counts its pixels: entry `l` is the number of pixels of the tile whose
/// sample, divided by 257, is `l`.
pub proof fn histograms_count_pixels(
    data: Seq<u16>,
    width: int,
    x0: int,
    x1: int,
    y0: int,
    y1: int,
    l: int,
)
    requires
        0 <= l < 256,
    ensures
        tile_pixels(data, width, x0, x1, y0, y1, l).finite(),
        tile_histogram(data, width, x0, x1, y0, y1).len() == 256,
        tile_histogram(data, width, x0, x1, y0, y1)[l] == tile_pixels(
            data,
            width,
            x0,
            x1,
            y0,
            y1,
            l,
        ).len(),
{
    lemma_tile_pixels(data, width, x0, x1, y0, y1, l);
}

proof fn lemma_tile_pixels(
    data: Seq<u16>,
    width: int,
    x0: int,
    x1: int,
    y0: int,
    y1: int,
    l: int,
)
    ensures
        tile_pixels(data, width, x0, x1, y0, y1, l).finite(),
        tile_hits(data, width, x0, x1, y0, y1, l) == tile_pixels(
            data,
            width,
            x0,
            x1,
            y0,
            y1,
            l,
        ).len(),
    decreases y1 - y0,
{
    let here = tile_pixels(data, width, x0, x1, y0, y1, l);
    if y1 <= y0 {
        assert(here =~= Set::empty());
    } else {
        lemma_tile_pixels(data, width, x0, x1, y0, y1 - 1, l);
        lemma_row_pixels(data, width, x0, x1, y1 - 1, l);
        let above = tile_pixels(data, width, x0, x1, y0, y1 - 1, l);
        let last = row_pixels(data, width, x0, x1, y1 - 1, l);
        assert(here =~= above.union(last));
        assert(above.disjoint(last));
        vstd::set_lib::lemma_set_disjoint_lens(above, last);
    }
}

proof fn lemma_total_of_sum(a: Seq<nat>, b: Seq<nat>, c: Seq<nat>, n: int)
    requires
        0 <= n,
        forall|l: int| 0 <= l < n ==> c[l] == a[l] + #[trigger] b[l],
    ensures
        total(c, n) == total(a, n) + total(b, n),
    decreases n,
{
    if n > 0 {
        assert(c[n - 1] == a[n - 1] + b[n - 1]);
        lemma_total_of_sum(a, b, c, n - 1);
    }
}

/// How many pixels the first `n` levels have if only level `k` has one.
proof fn lemma_total_single(bins: Seq<nat>, k: int, n: int)
    requires
        0 <= n,
        forall|l: int| 0 <= l < n ==> #[trigger] bins[l] == if l == k {
            1nat
        } else {
            0
        },
    ensures
        total(bins, n) == if 0 <= k < n {
            1nat
        } else {
            0
        },
    decreases n,
{
    if n > 0 {
        lemma_total_single(bins, k, n - 1);
    }
}

spec fn row_histogram(data: Seq<u16>, start: int, x0: int, x1: int) -> Seq<nat> {
    Seq::new(256, |l: int| row_hits(data, start, x0, x1, l))
}

proof fn lemma_row_total(data: Seq<u16>, start: int, x0: int, x1: int)
    ensures
        total(row_histogram(data, start, x0, x1), 256) == if x0 < x1 {
            x1 - x0
        } else {
            0
        },
    decreases x1 - x0,
{
    let c = row_histogram(data, start, x0, x1);
    if x1 <= x0 {
        lemma_total_single(c, -1, 256);
    } else {
        lemma_row_total(data, start, x0, x1 - 1);
        let a = row_histogram(data, start, x0, x1 - 1);
        let k = level(data[start + x1 - 1]);
        let b = Seq::new(
            256,
            |l: int|
                if l == k {
                    1nat
                } else {
                    0
                },
        );
        lemma_total_single(b, k, 256);
        lemma_total_of_sum(a, b, c, 256);
    }
}

/// Every pixel of a tile is counted once: its histogram adds up to its area.
pub proof fn histograms_add_up_to_the_area(
    data: Seq<u16>,
    width: int,
    x0: int,
    x1: int,
    y0: int,
    y1: int,
)
    requires
        x0 <= x1,
        y0 <= y1,
    ensures
        total(tile_histogram(data, width, x0, x1, y0, y1), 256) == (x1 - x0) * (y1 - y0),
    decreases y1 - y0,
{
    let c = tile_histogram(data, width, x0, x1, y0, y1);
    if y1 <= y0 {
        lemma_total_single(c, -1, 256);
        assert((x1 - x0) * (y1 - y0) == 0) by (nonlinear_arith)
            requires
                y1 == y0,
        ;
    } else {
        histograms_add_up_to_the_area(data, width, x0, x1, y0, y1 - 1);
        let a = tile_histogram(data, width, x0, x1, y0, y1 - 1);
        let b = row_histogram(data, (y1 - 1) * width, x0, x1);
        lemma_row_total(data, (y1 - 1) * width, x0, x1);
        lemma_total_of_sum(a, b, c, 256);
        assert((x1 - x0) * (y1 - y0) == (x1 - x0) * (y1 - 1 - y0) + (x1 - x0))
            by (nonlinear_arith);
    }
}

/// A larger number has no smaller weighted share.
pub proof fn lemma_weighted_order(a: Float32, b: Float32, w: Float32)
    requires
        within(a, 0x400 * one()),
        within(b, 0x400 * one()),
        within(w, one()),
        a.abs_steps() <= b.abs_steps(),
    ensures
        within(a.spec_mul(w), 0x400 * one()),
        within(b.spec_mul(w), 0x400 * one()),
        a.spec_mul(w).abs_steps() <= b.spec_mul(w).abs_steps(),
{
    let o = one();
    lemma_pow2_pos(149);
    let x = a.abs_steps();
    let y = b.abs_steps();
    let z = w.abs_steps();
    assert(x * z <= y * z && y * z <= (0x400 * o) * o) by (nonlinear_arith)
        requires
            x <= y <= 0x400 * o,
            z <= o,
    ;
    crate::detector_laws::lemma_product_steps(a, w, 0x400);
    crate::detector_laws::lemma_product_steps(b, w, 0x400);
    assert((x * z) * o <= (y * z) * o) by (nonlinear_arith)
        requires
            x * z <= y * z,
    ;
    rounding_is_monotone(x * z, o, y * z, o);
    order_is_that_of_values(a.spec_mul(w), b.spec_mul(w));
}

/// What is left of one besides a weight.
pub proof fn lemma_rest(w: Float32)
    requires
        within(w, one()),
    ensures
        within(unity().spec_sub(w), one()),
        0x100_0000 * distance(
            unity().spec_sub(w).signed_steps(),
            one() - w.signed_steps(),
        ) <= one() + 0x80_0000,
{
    lemma_unity();
    lemma_pow2_pos(149);
    let zero = Float32 { bits: 0 };
    assert(zero.abs_steps() == 0 && zero.magnitude() == 0);
    order_is_that_of_values(w, unity());
    differences_are_close(unity(), w);
    lemma_difference(w, unity(), unity());
    let r = unity().spec_sub(w);
    // the difference of one and nothing is one, and a larger weight leaves no more
    crate::float_laws::lemma_negation(w);
    crate::float_laws::lemma_negation(zero);
    crate::detector_laws::lemma_sums_keep_order(unity(), w.spec_neg(), unity(), zero);
    assert(unity().spec_add(zero) == unity()) by {
        assert(unity().is_finite() && !unity().is_zero());
        reveal(Float32::spec_add);
        crate::float_laws::rounding_keeps_values(1, unity().magnitude());
        lemma_mul_basics(one() as int);
    }
    order_is_that_of_values(r, unity());
}

/// A mixture does not fall when what is mixed rises.
proof fn lemma_mix_order(a: Float32, b: Float32, c: Float32, d: Float32, w: Float32)
    requires
        within(a, 0x400 * one()),
        within(b, 0x400 * one()),
        within(c, 0x400 * one()),
        within(d, 0x400 * one()),
        within(w, one()),
        a.abs_steps() <= c.abs_steps(),
        b.abs_steps() <= d.abs_steps(),
        mix(a, b, w).is_finite(),
        mix(c, d, w).is_finite(),
    ensures
        mix(a, b, w).signed_steps() <= mix(c, d, w).signed_steps(),
{
    lemma_rest(w);
    let r = unity().spec_sub(w);
    lemma_weighted_order(a, c, r);
    lemma_weighted_order(b, d, w);
    crate::detector_laws::lemma_sums_keep_order(
        a.spec_mul(r),
        b.spec_mul(w),
        c.spec_mul(r),
        d.spec_mul(w),
    );
    order_is_that_of_values(mix(a, b, w), mix(c, d, w));
}

/// The tone curve of a tile rises, whatever the frame.
proof fn lemma_curve_rises(
    data: Seq<u16>,
    width: u32,
    height: u32,
    i: int,
    j: int,
    low: int,
    high: int,
)
    requires
        width > 0,
        height > 0,
        width * height <= u32::MAX,
        0 <= i < tile_count(CLAHE_TILES_X, width),
        0 <= j < tile_count(CLAHE_TILES_Y, height),
        0 <= low <= high < 256,
    ensures
        curve_at(data, width, height, i, j).len() == 256,
        curve_at(data, width, height, i, j)[low] <= curve_at(data, width, height, i, j)[high],
{
    tiles_partition_the_axis(width, tile_count(CLAHE_TILES_X, width), i, i);
    tiles_partition_the_axis(height, tile_count(CLAHE_TILES_Y, height), j, j);
    let (x0, x1) = tile_range(width, tile_count(CLAHE_TILES_X, width), i);
    let (y0, y1) = tile_range(height, tile_count(CLAHE_TILES_Y, height), j);
    let (xa, xb) = (x0 as int, x1 as int);
    let (ya, yb) = (y0 as int, y1 as int);
    histograms_add_up_to_the_area(data, width as int, xa, xb, ya, yb);
    assert((xb - xa) * (yb - ya) <= width * height) by (nonlinear_arith)
        requires
            0 <= xb - xa <= width,
            0 <= yb - ya <= height,
    ;
    tone_curves_rise(tile_histogram(data, width as int, xa, xb, ya, yb), low, high);
}

/// The tiles next to a pixel and their weights.
pub proof fn lemma_tiles_of_a_pixel(limit: u32, dim: u32, pos: int)
    requires
        dim > 0,
        limit > 0,
        0 <= pos < dim,
        dim * tile_count(limit, dim) <= u32::MAX,
    ensures
        ({
            let (a, b, w) = neighbors(
                Float32::spec_from_u64(pos as u64),
                tile_centers(dim, tile_count(limit, dim)),
            );
            &&& 0 <= a < tile_count(limit, dim)
            &&& 0 <= b < tile_count(limit, dim)
            &&& within(w, one())
        }),
{
    let tiles = tile_count(limit, dim);
    crate::equalize::lemma_centers_within(dim, tiles);
    crate::float_laws::lemma_from_u64_within(pos as u64);
    weights_are_fractions(Float32::spec_from_u64(pos as u64), tile_centers(dim, tiles));
}

/// A level as a number.
pub proof fn lemma_level_number(v: u8)
    ensures
        ({
            let f = Float32::spec_from_u64(v as u64);
            &&& within(f, 255 * one())
            &&& f.abs_steps() == v * one()
        }),
{
    small_integers_are_exact(v as u64);
    let o = one();
    assert(v * o <= 255 * o) by (nonlinear_arith)
        requires
            v <= 255,
    ;
}

/// Brighter stays brighter: of two frames whose tiles have the same tone curves, the one with
/// the larger sample at a pixel has no smaller equalized sample there.
#[verifier::spinoff_prover]
#[verifier::rlimit(40)]
pub proof fn equalization_keeps_the_order(
    a: Seq<u16>,
    b: Seq<u16>,
    width: u32,
    height: u32,
    i: int,
)
    requires
        0 < width,
        0 < height,
        width * height <= u32::MAX,
        width * tile_count(CLAHE_TILES_X, width) <= u32::MAX,
        height * tile_count(CLAHE_TILES_Y, height) <= u32::MAX,
        a.len() >= width * height,
        b.len() >= width * height,
        forall|s: int, t: int|
            0 <= s < tile_count(CLAHE_TILES_X, width) && 0 <= t < tile_count(CLAHE_TILES_Y, height)
                ==> #[trigger] curve_at(a, width, height, s, t) == curve_at(
                b,
                width,
                height,
                s,
                t,
            ),
        0 <= i < width * height,
        a[i] <= b[i],
    ensures
        equalization(a, width, height)[i] <= equalization(b, width, height)[i],
{
    let x = i % width as int;
    let y = i / width as int;
    lemma_pixel(i, width as int, height as int);
    lemma_tiles_of_a_pixel(CLAHE_TILES_X, width, x);
    lemma_tiles_of_a_pixel(CLAHE_TILES_Y, height, y);
    let (s0, s1, wx) = neighbors(
        Float32::spec_from_u64(x as u64),
        tile_centers(width, tile_count(CLAHE_TILES_X, width)),
    );
    let (t0, t1, wy) = neighbors(
        Float32::spec_from_u64(y as u64),
        tile_centers(height, tile_count(CLAHE_TILES_Y, height)),
    );
    let l = level(a[i]);
    let m = level(b[i]);
    lemma_curve_rises(a, width, height, s0, t0, l, m);
    lemma_curve_rises(a, width, height, s1, t0, l, m);
    lemma_curve_rises(a, width, height, s0, t1, l, m);
    lemma_curve_rises(a, width, height, s1, t1, l, m);
    let (v00, u00) = (
        curve_at(a, width, height, s0, t0)[l],
        curve_at(b, width, height, s0, t0)[m],
    );
    let (v01, u01) = (
        curve_at(a, width, height, s1, t0)[l],
        curve_at(b, width, height, s1, t0)[m],
    );
    let (v10, u10) = (
        curve_at(a, width, height, s0, t1)[l],
        curve_at(b, width, height, s0, t1)[m],
    );
    let (v11, u11) = (
        curve_at(a, width, height, s1, t1)[l],
        curve_at(b, width, height, s1, t1)[m],
    );
    lemma_blend_order(v00, v01, v10, v11, u00, u01, u10, u11, wx, wy);
    assert(equalized(a, width, height, x, y) == blend(v00, v01, v10, v11, wx, wy));
    assert(equalized(b, width, height, x, y) == blend(u00, u01, u10, u11, wx, wy));
    lemma_equalized_level(a, width, height, x, y);
    lemma_equalized_level(b, width, height, x, y);
}

/// The column and the row of a pixel.
pub proof fn lemma_pixel(i: int, width: int, height: int)
    requires
        0 < width,
        0 <= i < width * height,
    ensures
        0 <= i % width < width,
        0 <= i / width < height,
        (i / width) * width + i % width == i,
{
    lemma_fundamental_div_mod(i, width);
    lemma_mod_bound(i, width);
    lemma_div_pos_is_pos(i, width);
    lemma_mul_is_commutative(i / width, width);
    lemma_mul_is_commutative(height, width);
    lemma_multiply_divide_lt(i, width, height);
}

/// Mixtures of levels, side by side.
pub proof fn lemma_pair_order(a: u8, b: u8, c: u8, d: u8, w: Float32)
    requires
        within(w, one()),
        a <= c,
        b <= d,
    ensures
        ({
            let low = mix(Float32::spec_from_u64(a as u64), Float32::spec_from_u64(b as u64), w);
            let high = mix(Float32::spec_from_u64(c as u64), Float32::spec_from_u64(d as u64), w);
            &&& within(low, 0x100 * one())
            &&& within(high, 0x100 * one())
            &&& 128 * low.abs_steps() <= 32641 * one()
            &&& 128 * high.abs_steps() <= 32641 * one()
            &&& low.abs_steps() <= high.abs_steps()
        }),
{
    let o = one();
    lemma_level_number(a);
    lemma_level_number(b);
    lemma_level_number(c);
    lemma_level_number(d);
    assert(a * o <= c * o && b * o <= d * o) by (nonlinear_arith)
        requires
            a <= c,
            b <= d,
    ;
    let (fa, fb) = (Float32::spec_from_u64(a as u64), Float32::spec_from_u64(b as u64));
    let (fc, fd) = (Float32::spec_from_u64(c as u64), Float32::spec_from_u64(d as u64));
    lemma_mix(fa, fb, w, 32640);
    lemma_mix(fc, fd, w, 32640);
    lemma_mix_order(fa, fb, fc, fd, w);
}

/// Four levels, mixed along the rows and then along the column.
pub open spec fn blend(v00: u8, v01: u8, v10: u8, v11: u8, wx: Float32, wy: Float32) -> Float32 {
    mix(
        mix(Float32::spec_from_u64(v00 as u64), Float32::spec_from_u64(v01 as u64), wx),
        mix(Float32::spec_from_u64(v10 as u64), Float32::spec_from_u64(v11 as u64), wx),
        wy,
    )
}

#[verifier::spinoff_prover]
#[verifier::rlimit(40)]
proof fn lemma_blend_order(
    v00: u8,
    v01: u8,
    v10: u8,
    v11: u8,
    u00: u8,
    u01: u8,
    u10: u8,
    u11: u8,
    wx: Float32,
    wy: Float32,
)
    requires
        within(wx, one()),
        within(wy, one()),
        v00 <= u00,
        v01 <= u01,
        v10 <= u10,
        v11 <= u11,
    ensures
        blend(v00, v01, v10, v11, wx, wy).spec_round_to_u32() <= blend(
            u00,
            u01,
            u10,
            u11,
            wx,
            wy,
        ).spec_round_to_u32(),
{
    lemma_pair_order(v00, v01, u00, u01, wx);
    lemma_pair_order(v10, v11, u10, u11, wx);
    let top = mix(Float32::spec_from_u64(v00 as u64), Float32::spec_from_u64(v01 as u64), wx);
    let bottom = mix(Float32::spec_from_u64(v10 as u64), Float32::spec_from_u64(v11 as u64), wx);
    let top_b = mix(Float32::spec_from_u64(u00 as u64), Float32::spec_from_u64(u01 as u64), wx);
    let bottom_b = mix(Float32::spec_from_u64(u10 as u64), Float32::spec_from_u64(u11 as u64), wx);
    lemma_mix(top, bottom, wy, 32641);
    lemma_mix(top_b, bottom_b, wy, 32641);
    lemma_mix_order(top, bottom, top_b, bottom_b, wy);
    lemma_pow2_pos(149);
    assert(128 * mix(top, bottom, wy).abs_steps() <= 32642 * one());
    assert(128 * mix(top_b, bottom_b, wy).abs_steps() <= 32642 * one());
    lemma_rounding_order(mix(top, bottom, wy), mix(top_b, bottom_b, wy));
}

/// The nearest whole number does not fall when the number rises.
proof fn lemma_rounding_order(a: Float32, b: Float32)
    requires
        within(a, 0x400 * one()),
        within(b, 0x400 * one()),
        a.abs_steps() <= b.abs_steps(),
    ensures
        a.spec_round_to_u32() <= b.spec_round_to_u32(),
{
    reveal(Float32::spec_round_to_u32);
    lemma_pow2_pos(149);
    let o = one() as int;
    lemma_div_is_ordered(2 * a.abs_steps() + o, 2 * b.abs_steps() + o, 2 * o);
    lemma_div_pos_is_pos(2 * a.abs_steps() + o, 2 * o);
}

} // verus!
