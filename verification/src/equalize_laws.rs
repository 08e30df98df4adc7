//! What the contrast equalization keeps.
use crate::equalize::{
    curve_at, enclosing, equalization, equalized, equalized_sample, lemma_equalized_level, level,
    neighbors, row_hits, spread_keeps_the_pixel_count, tile_centers, tile_count, tile_histogram,
    tile_hits, tile_range, tile_start, tone, tone_curve, total, CLAHE_TILES_X, CLAHE_TILES_Y,
};
use crate::float32::{one, round_magnitude, steps, Float32, INFINITE};
use crate::float_laws::{
    lemma_not_infinite, lemma_ratio, rounding_is_monotone, rounding_keeps_values,
};
use vstd::arithmetic::div_mod::*;
use vstd::arithmetic::mul::*;
use vstd::arithmetic::power2::*;
use vstd::prelude::*;

verus! {

/// The tiles of an axis follow one another without gap or overlap, from its first pixel to
/// its last, and their sizes differ by at most one pixel.
pub proof fn tiles_partition_the_axis(dim: u32, tiles: u32, i: int, j: int)
    requires
        tiles > 0,
        0 <= i < tiles,
        0 <= j < tiles,
    ensures
        tile_range(dim, tiles, 0).0 == 0,
        tile_range(dim, tiles, tiles - 1).1 == dim,
        i + 1 < tiles ==> tile_range(dim, tiles, i).1 == tile_range(dim, tiles, i + 1).0,
        tile_range(dim, tiles, i).0 <= tile_range(dim, tiles, i).1 <= dim,
        ({
            let (s, e) = tile_range(dim, tiles, i);
            let (t, f) = tile_range(dim, tiles, j);
            (e - s) - (f - t) <= 1
        }),
{
    let d = dim as int;
    let t = tiles as int;
    lemma_start_in_axis(d, t, i);
    lemma_start_in_axis(d, t, i + 1);
    lemma_start_in_axis(d, t, j);
    lemma_start_in_axis(d, t, j + 1);
    lemma_start_in_axis(d, t, 0);
    lemma_start_in_axis(d, t, t);
    lemma_div_by_multiple(d, t);
    lemma_mul_is_commutative(d, t);
    lemma_mul_basics(d);
    lemma_div_basics(t);
    lemma_tile_size(d, t, i);
    lemma_tile_size(d, t, j);
}

proof fn lemma_start_in_axis(dim: int, tiles: int, i: int)
    requires
        0 <= dim,
        0 <= i <= tiles,
        0 < tiles,
    ensures
        0 <= tile_start(dim, tiles, i) <= dim,
{
    assert(0 <= i * dim <= dim * tiles) by (nonlinear_arith)
        requires
            0 <= dim,
            0 <= i <= tiles,
    ;
    lemma_div_pos_is_pos(i * dim, tiles);
    lemma_div_is_ordered(i * dim, dim * tiles, tiles);
    lemma_div_by_multiple(dim, tiles);
}

proof fn lemma_tile_size(dim: int, tiles: int, i: int)
    requires
        0 <= dim,
        0 <= i < tiles,
    ensures
        dim / tiles <= tile_start(dim, tiles, i + 1) - tile_start(dim, tiles, i) <= dim / tiles
            + 1,
{
    let a = tile_start(dim, tiles, i);
    let b = tile_start(dim, tiles, i + 1);
    let q = dim / tiles;
    lemma_fundamental_div_mod(i * dim, tiles);
    lemma_fundamental_div_mod((i + 1) * dim, tiles);
    lemma_fundamental_div_mod(dim, tiles);
    lemma_mod_bound(i * dim, tiles);
    lemma_mod_bound((i + 1) * dim, tiles);
    lemma_mod_bound(dim, tiles);
    let ra = (i * dim) % tiles;
    let rb = ((i + 1) * dim) % tiles;
    let r = dim % tiles;
    assert((i + 1) * dim == i * dim + dim) by (nonlinear_arith);
    // tiles * (b - a - q) == ra + r - rb
    assert(tiles * (b - a - q) == tiles * b - tiles * a - tiles * q) by (nonlinear_arith);
    assert(-1 < b - a - q < 2) by (nonlinear_arith)
        requires
            tiles > 0,
            -tiles < tiles * (b - a - q) < 2 * tiles,
    ;
}

proof fn lemma_count_value(x: nat)
    requires
        x <= u32::MAX,
    ensures
        !Float32::spec_from_u64(x as u64).is_negative(),
        Float32::spec_from_u64(x as u64).is_finite(),
        x > 0 ==> !Float32::spec_from_u64(x as u64).is_zero(),
        Float32::spec_from_u64(x as u64).magnitude() == round_magnitude(x * one(), 1),
{
    reveal(Float32::spec_from_u64);
    lemma_pow2_pos(149);
    assert(x * one() <= 1 * (0x100_0000_0000 * one())) by (nonlinear_arith)
        requires
            x <= u32::MAX,
            one() > 0,
    ;
    lemma_not_infinite(x * one(), 1);
    if x > 0 {
        assert(1 * steps(1) == 1);
        rounding_keeps_values(1, 1);
        assert(1nat * 1 <= (x * one()) * 1) by (nonlinear_arith)
            requires
                x > 0,
                one() > 0,
        ;
        rounding_is_monotone(1, 1, x * one(), 1);
    }
}

proof fn lemma_rank_steps(a: nat, b: nat)
    requires
        a <= b,
    ensures
        steps(a) <= steps(b),
{
    if a < b {
        crate::float32::lemma_steps_increase(a, b);
    }
}

/// A pixel that more pixels do not exceed gets no darker level.
proof fn lemma_tone_grows(low: nat, high: nat, count: nat)
    requires
        low <= high <= count,
        0 < count <= u32::MAX,
    ensures
        tone(low, count) <= tone(high, count),
{
    let o = one();
    lemma_pow2_pos(149);
    lemma_count_value(low);
    lemma_count_value(high);
    lemma_count_value(count);
    let l = Float32::spec_from_u64(low as u64);
    let h = Float32::spec_from_u64(high as u64);
    let c = Float32::spec_from_u64(count as u64);
    assert((low * o) * 1 <= (high * o) * 1) by (nonlinear_arith)
        requires
            low <= high,
    ;
    assert((high * o) * 1 <= (count * o) * 1) by (nonlinear_arith)
        requires
            high <= count,
    ;
    rounding_is_monotone(low * o, 1, high * o, 1);
    rounding_is_monotone(high * o, 1, count * o, 1);
    lemma_rank_steps(l.magnitude(), h.magnitude());
    lemma_rank_steps(h.magnitude(), c.magnitude());
    lemma_ratio(l, c);
    lemma_ratio(h, c);
    lemma_steps_positive(c);
    let ql = l.spec_div(c);
    let qh = h.spec_div(c);
    assert(ql.magnitude() <= qh.magnitude()) by {
        reveal(Float32::spec_div);
        assert((l.abs_steps() * o) * c.abs_steps() <= (h.abs_steps() * o) * c.abs_steps())
            by (nonlinear_arith)
            requires
                l.abs_steps() <= h.abs_steps(),
        ;
        rounding_is_monotone(l.abs_steps() * o, c.abs_steps(), h.abs_steps() * o, c.abs_steps());
        lemma_magnitude_bound(l.abs_steps() * o, c.abs_steps());
        lemma_magnitude_bound(h.abs_steps() * o, c.abs_steps());
    }
    lemma_rank_steps(ql.magnitude(), qh.magnitude());
    let k = Float32 { bits: 0x437f_0000 };
    let pl = ql.spec_mul(k);
    let ph = qh.spec_mul(k);
    assert(pl.magnitude() <= ph.magnitude() <= INFINITE && !pl.is_negative()
        && !ph.is_negative()) by {
        reveal(Float32::spec_mul);
        assert((ql.abs_steps() * k.abs_steps()) * o <= (qh.abs_steps() * k.abs_steps()) * o)
            by (nonlinear_arith)
            requires
                ql.abs_steps() <= qh.abs_steps(),
        ;
        rounding_is_monotone(
            ql.abs_steps() * k.abs_steps(),
            o,
            qh.abs_steps() * k.abs_steps(),
            o,
        );
        lemma_magnitude_bound(ql.abs_steps() * k.abs_steps(), o);
        lemma_magnitude_bound(qh.abs_steps() * k.abs_steps(), o);
    }
    lemma_rank_steps(pl.magnitude(), ph.magnitude());
    assert(pl.spec_round_to_u32() <= ph.spec_round_to_u32()) by {
        reveal(Float32::spec_round_to_u32);
        lemma_div_is_ordered(
            (2 * pl.abs_steps() + o) as int,
            (2 * ph.abs_steps() + o) as int,
            2 * o as int,
        );
    }
}

proof fn lemma_magnitude_bound(n: nat, d: nat)
    ensures
        round_magnitude(n, d) <= INFINITE,
        !Float32::pack(false, round_magnitude(n, d)).is_negative(),
        Float32::pack(false, round_magnitude(n, d)).magnitude() == round_magnitude(n, d),
{
}

proof fn lemma_steps_positive(x: Float32)
    requires
        !x.is_zero(),
    ensures
        x.abs_steps() > 0,
{
    crate::float32::lemma_steps_increase(0, x.magnitude());
}

/// All pixels of a tile together reach the brightest level.
proof fn lemma_tone_top(count: nat)
    requires
        0 < count <= u32::MAX,
    ensures
        tone(count, count) == 255,
{
    let o = one();
    lemma_pow2_pos(149);
    lemma_count_value(count);
    let c = Float32::spec_from_u64(count as u64);
    lemma_steps_positive(c);
    crate::float_laws::lemma_unity();
    let u = crate::float_laws::unity();
    assert(c.spec_div(c) == u) by {
        reveal(Float32::spec_div);
        lemma_mul_is_commutative(c.abs_steps() as int, o as int);
        lemma_mul_is_commutative(o as int, c.abs_steps() as int);
        rounding_keeps_values(c.abs_steps(), u.magnitude());
    }
    let k = Float32 { bits: 0x437f_0000 };
    assert(u.spec_mul(k) == k) by {
        reveal(Float32::spec_mul);
        rounding_keeps_values(o, k.magnitude());
    }
    assert(k.abs_steps() == 255 * o) by {
        // 0x437f_0000 is 255 * 2^16 in the significand and 126 + 8 in the exponent
        assert(k.magnitude() == 0x437f_0000);
        lemma_pow2_adds(16, 133);
        lemma2_to64();
        assert(steps(0x437f_0000) == 0xff_0000 * pow2(133));
        assert(0xff_0000 * pow2(133) == 255 * (0x1_0000 * pow2(133))) by (nonlinear_arith);
    }
    assert(k.spec_round_to_u32() == 255) by {
        reveal(Float32::spec_round_to_u32);
        assert((2 * (255 * o) + o) / (2 * o) == 255) by {
            lemma_fundamental_div_mod_converse(
                (2 * (255 * o) + o) as int,
                2 * o as int,
                255,
                o as int,
            );
        }
    }
}

/// A tone curve never turns a brighter level darker, and a tile with pixels has its brightest
/// level at the top of the range.
pub proof fn tone_curves_rise(bins: Seq<nat>, low: int, high: int)
    requires
        bins.len() == 256,
        total(bins, 256) <= u32::MAX,
        0 <= low <= high < 256,
    ensures
        tone_curve(bins).len() == 256,
        tone_curve(bins)[low] <= tone_curve(bins)[high],
        total(bins, 256) > 0 ==> tone_curve(bins)[255] == 255,
{
    let count = total(bins, 256);
    if count > 0 {
        let limit = crate::equalize::clip_limit(count);
        let spread = crate::equalize::redistributed(bins, limit);
        spread_keeps_the_pixel_count(bins, limit);
        crate::equalize::lemma_total_order(spread, low + 1, high + 1);
        crate::equalize::lemma_total_order(spread, high + 1, 256);
        lemma_tone_grows(total(spread, low + 1), total(spread, high + 1), count);
        lemma_tone_top(count);
    }
}

/// Equalization keeps to the 256 levels that a sample can hold.
pub proof fn equalized_samples_are_levels(
    data: Seq<u16>,
    width: u32,
    height: u32,
    x: int,
    y: int,
)
    requires
        0 <= x < width,
        0 <= y < height,
        width * tile_count(CLAHE_TILES_X, width) <= u32::MAX,
        height * tile_count(CLAHE_TILES_Y, height) <= u32::MAX,
    ensures
        0 <= equalized_sample(data, width, height, x, y) <= 65535,
        equalized_sample(data, width, height, x, y) % 257 == 0,
{
    lemma_equalized_level(data, width, height, x, y);
    lemma_mod_multiples_basic(
        equalized(data, width, height, x, y).spec_round_to_u32() as int,
        257,
    );
}

/// Neighboring tiles are tiles.
proof fn lemma_enclosing_tiles(pos: Float32, centers: Seq<Float32>, i: int)
    requires
        0 <= i,
        centers.len() > 0,
    ensures
        ({
            let (a, b, _) = enclosing(pos, centers, i);
            0 <= a < centers.len() && 0 <= b < centers.len()
        }),
    decreases centers.len() - i,
{
    if i < centers.len() - 1 {
        lemma_enclosing_tiles(pos, centers, i + 1);
    }
}

/// Samples of equal levels are counted alike in a row.
proof fn lemma_same_row(a: Seq<u16>, b: Seq<u16>, start: int, x0: int, x1: int, l: int)
    requires
        forall|i: int| start + x0 <= i < start + x1 ==> level(#[trigger] a[i]) == level(b[i]),
    ensures
        row_hits(a, start, x0, x1, l) == row_hits(b, start, x0, x1, l),
    decreases x1 - x0,
{
    if x0 < x1 {
        lemma_same_row(a, b, start, x0, x1 - 1, l);
        assert(level(a[start + x1 - 1]) == level(b[start + x1 - 1]));
    }
}

/// Frames of equal levels have the same number of pixels of a level in a tile.
proof fn lemma_same_hits(
    a: Seq<u16>,
    b: Seq<u16>,
    width: int,
    x0: int,
    x1: int,
    y0: int,
    y1: int,
    height: int,
    l: int,
)
    requires
        0 <= x0,
        x1 <= width,
        0 <= y0,
        y1 <= height,
        forall|i: int| 0 <= i < width * height ==> level(#[trigger] a[i]) == level(b[i]),
    ensures
        tile_hits(a, width, x0, x1, y0, y1, l) == tile_hits(b, width, x0, x1, y0, y1, l),
    decreases y1 - y0,
{
    if y0 < y1 {
        lemma_same_hits(a, b, width, x0, x1, y0, y1 - 1, height, l);
        if x0 < x1 {
            let start = (y1 - 1) * width;
            assert(0 <= start && start + width <= width * height) by (nonlinear_arith)
                requires
                    start == (y1 - 1) * width,
                    0 <= y1 - 1 < height,
                    0 <= width,
            ;
            lemma_same_row(a, b, start, x0, x1, l);
        }
    }
}

/// Frames of equal levels have the same tone curves.
proof fn lemma_same_curve(a: Seq<u16>, b: Seq<u16>, width: u32, height: u32, i: int, j: int)
    requires
        0 < width,
        0 < height,
        0 <= i < tile_count(CLAHE_TILES_X, width),
        0 <= j < tile_count(CLAHE_TILES_Y, height),
        forall|k: int| 0 <= k < width * height ==> level(#[trigger] a[k]) == level(b[k]),
    ensures
        curve_at(a, width, height, i, j) == curve_at(b, width, height, i, j),
{
    let tiles_x = tile_count(CLAHE_TILES_X, width);
    let tiles_y = tile_count(CLAHE_TILES_Y, height);
    tiles_partition_the_axis(width, tiles_x, i, i);
    tiles_partition_the_axis(height, tiles_y, j, j);
    let (x0, x1) = tile_range(width, tiles_x, i);
    let (y0, y1) = tile_range(height, tiles_y, j);
    let w = width as int;
    let ha = tile_histogram(a, w, x0 as int, x1 as int, y0 as int, y1 as int);
    let hb = tile_histogram(b, w, x0 as int, x1 as int, y0 as int, y1 as int);
    assert forall|l: int| 0 <= l < 256 implies ha[l] == hb[l] by {
        lemma_same_hits(
            a,
            b,
            w,
            x0 as int,
            x1 as int,
            y0 as int,
            y1 as int,
            height as int,
            l,
        );
    }
    assert(ha =~= hb);
}

/// Only the 8-bit level of a sample counts: frames whose samples have the same levels are
/// equalized to the same frame.
pub proof fn equalization_sees_only_levels(a: Seq<u16>, b: Seq<u16>, width: u32, height: u32)
    requires
        0 < width,
        0 < height,
        a.len() == b.len(),
        width * height <= a.len(),
        forall|i: int| 0 <= i < width * height ==> level(#[trigger] a[i]) == level(b[i]),
    ensures
        equalization(a, width, height) == equalization(b, width, height),
{
    let tiles_x = tile_count(CLAHE_TILES_X, width);
    let tiles_y = tile_count(CLAHE_TILES_Y, height);
    let ea = equalization(a, width, height);
    let eb = equalization(b, width, height);
    assert forall|i: int| 0 <= i < a.len() implies ea[i] == eb[i] by {
        if i < width * height {
            let x = i % width as int;
            let y = i / width as int;
            lemma_fundamental_div_mod(i, width as int);
            lemma_mod_bound(i, width as int);
            lemma_mul_is_commutative(y, width as int);
            assert(y * width + x == i);
            let px = Float32::spec_from_u64(x as u64);
            let py = Float32::spec_from_u64(y as u64);
            lemma_enclosing_tiles(px, tile_centers(width, tiles_x), 0);
            lemma_enclosing_tiles(py, tile_centers(height, tiles_y), 0);
            let (tx0, tx1, _) = neighbors(px, tile_centers(width, tiles_x));
            let (ty0, ty1, _) = neighbors(py, tile_centers(height, tiles_y));
            lemma_same_curve(a, b, width, height, tx0, ty0);
            lemma_same_curve(a, b, width, height, tx1, ty0);
            lemma_same_curve(a, b, width, height, tx0, ty1);
            lemma_same_curve(a, b, width, height, tx1, ty1);
            assert(level(a[i]) == level(b[i]));
            assert(equalized(a, width, height, x, y) == equalized(b, width, height, x, y));
        }
    }
    assert(ea =~= eb);
}

} // verus!
