//! Contrast-limited adaptive histogram equalization of infrared frames.
use crate::capture::IrFrame;
use crate::float32::{one, Float32};
use crate::float_laws::{
    lemma_difference, lemma_from_u64_within, lemma_half_within, lemma_mix, lemma_ratio,
    small_integers_are_exact, within,
};
use vstd::prelude::*;

verus! {

/// Tiles per row and per column of the contrast equalization.
pub const CLAHE_TILES_X: u32 = 8;

pub const CLAHE_TILES_Y: u32 = 8;

/// 4.0: bins are clipped at this multiple of a tile's average bin height before the clipped
/// excess is spread evenly over the tile's histogram.
pub const CLAHE_CLIP_FACTOR_BITS: u32 = 0x4080_0000;

/// Where tile `i` of `tiles` begins along an axis of `dim` pixels.
pub open spec fn tile_start(dim: int, tiles: int, i: int) -> int {
    (i * dim) / tiles
}

/// The pixels `[start, end)` of tile `i` of `tiles`.
pub open spec fn tile_range(dim: u32, tiles: u32, i: int) -> (u32, u32) {
    (
        tile_start(dim as int, tiles as int, i) as u32,
        tile_start(dim as int, tiles as int, i + 1) as u32,
    )
}

/// Partitions `dim` into `tiles` contiguous, roughly equal ranges `[start, end)`, with any
/// remainder spread over the tiles it lands on.
pub fn tile_bounds(dim: u32, tiles: u32) -> (r: Vec<(u32, u32)>)
    requires
        dim * tiles <= u32::MAX,
    ensures
        r@ == Seq::new(tiles as nat, |i: int| tile_range(dim, tiles, i)),
{
    let mut bounds: Vec<(u32, u32)> = Vec::new();
    let mut i: u32 = 0;
    while i < tiles
        invariant
            i <= tiles,
            dim * tiles <= u32::MAX,
            bounds@ == Seq::new(i as nat, |j: int| tile_range(dim, tiles, j)),
        decreases tiles - i,
    {
        proof {
            lemma_tile_start(dim as int, tiles as int, i as int);
            lemma_tile_start(dim as int, tiles as int, i + 1);
        }
        let start: u32 = i * dim / tiles;
        let end: u32 = (i + 1) * dim / tiles;
        assert((start, end) == tile_range(dim, tiles, i as int));
        bounds.push((start, end));
        i = i + 1;
    }
    bounds
}

/// Tile starts lie within the axis.
proof fn lemma_tile_start(dim: int, tiles: int, i: int)
    requires
        0 <= dim,
        0 <= i <= tiles,
        0 < tiles,
    ensures
        0 <= i * dim <= dim * tiles,
        0 <= tile_start(dim, tiles, i) <= dim,
{
    assert(0 <= i * dim <= dim * tiles) by (nonlinear_arith)
        requires
            0 <= dim,
            0 <= i <= tiles,
    ;
    vstd::arithmetic::div_mod::lemma_div_pos_is_pos(i * dim, tiles);
    vstd::arithmetic::div_mod::lemma_div_is_ordered(i * dim, dim * tiles, tiles);
    vstd::arithmetic::div_mod::lemma_div_by_multiple(dim, tiles);
}

/// The true 8-bit level of a sample.
pub open spec fn level(sample: u16) -> int {
    sample as int / 257
}

/// How many of the samples `start + x0 .. start + x1` have level `l`.
pub open spec fn row_hits(data: Seq<u16>, start: int, x0: int, x1: int, l: int) -> nat
    decreases x1 - x0,
{
    if x1 <= x0 {
        0
    } else {
        row_hits(data, start, x0, x1 - 1, l) + (if level(data[start + x1 - 1]) == l {
            1nat
        } else {
            0
        })
    }
}

/// How many pixels of a tile have level `l`.
pub open spec fn tile_hits(
    data: Seq<u16>,
    width: int,
    x0: int,
    x1: int,
    y0: int,
    y1: int,
    l: int,
) -> nat
    decreases y1 - y0,
{
    if y1 <= y0 {
        0
    } else {
        tile_hits(data, width, x0, x1, y0, y1 - 1, l) + row_hits(
            data,
            (y1 - 1) * width,
            x0,
            x1,
            l,
        )
    }
}

/// The level histogram of a tile.
pub open spec fn tile_histogram(
    data: Seq<u16>,
    width: int,
    x0: int,
    x1: int,
    y0: int,
    y1: int,
) -> Seq<nat> {
    Seq::new(256, |l: int| tile_hits(data, width, x0, x1, y0, y1, l))
}

/// The sum of the first `n` bins.
pub open spec fn total(bins: Seq<nat>, n: int) -> nat
    decreases n,
{
    if n <= 0 {
        0
    } else {
        total(bins, n - 1) + bins[n - 1]
    }
}

/// The largest count a bin may keep in a tile of `count` pixels.
pub open spec fn clip_limit(count: nat) -> nat {
    let average = Float32::spec_from_u64(count as u64).spec_div(Float32 { bits: 0x4380_0000 });
    (Float32 { bits: CLAHE_CLIP_FACTOR_BITS }).spec_mul(average).spec_max(
        Float32 { bits: 0x3f80_0000 },
    ).spec_trunc_to_u32() as nat
}

/// The histogram with every bin cut at `limit`.
pub open spec fn clipped(bins: Seq<nat>, limit: nat) -> Seq<nat> {
    Seq::new(
        256,
        |i: int|
            if bins[i] > limit {
                limit
            } else {
                bins[i]
            },
    )
}

/// What the cut removes.
pub open spec fn excess(bins: Seq<nat>, limit: nat) -> int {
    total(bins, 256) - total(clipped(bins, limit), 256)
}

/// The cut histogram with the excess spread evenly, what is left over going to the lowest
/// levels.
pub open spec fn redistributed(bins: Seq<nat>, limit: nat) -> Seq<nat> {
    let extra = excess(bins, limit);
    Seq::new(
        256,
        |i: int|
            (clipped(bins, limit)[i] + extra / 256 + (if i < extra % 256 {
                1int
            } else {
                0
            })) as nat,
    )
}

/// The level for a pixel that `cumulative` of `count` pixels do not exceed.
pub open spec fn tone(cumulative: nat, count: nat) -> u8 {
    let scaled = Float32::spec_from_u64(cumulative as u64).spec_div(
        Float32::spec_from_u64(count as u64),
    ).spec_mul(Float32 { bits: 0x437f_0000 }).spec_round_to_u32();
    if scaled < 255 {
        scaled as u8
    } else {
        255
    }
}

/// The tone curve of a tile with the given histogram: clip-limited equalization, or no change
/// for a tile without pixels.
pub open spec fn tone_curve(bins: Seq<nat>) -> Seq<u8> {
    let count = total(bins, 256);
    if count == 0 {
        Seq::new(256, |i: int| i as u8)
    } else {
        let spread = redistributed(bins, clip_limit(count));
        Seq::new(256, |i: int| tone(total(spread, i + 1), count))
    }
}

/// The bins of an executable histogram.
pub open spec fn bins_of(hist: Seq<u32>) -> Seq<nat> {
    Seq::new(hist.len(), |i: int| hist[i] as nat)
}

proof fn lemma_total_increment(bins: Seq<nat>, l: int, n: int)
    requires
        0 <= l < bins.len(),
        n <= bins.len(),
    ensures
        total(bins.update(l, bins[l] + 1), n) == total(bins, n) + (if 0 <= l < n {
            1nat
        } else {
            0
        }),
    decreases n,
{
    if n > 0 {
        lemma_total_increment(bins, l, n - 1);
    }
}

pub proof fn lemma_total_order(bins: Seq<nat>, m: int, n: int)
    requires
        0 <= m <= n,
    ensures
        total(bins, m) <= total(bins, n),
    decreases n - m,
{
    if m < n {
        lemma_total_order(bins, m, n - 1);
    }
}

proof fn lemma_bin_at_most_total(bins: Seq<nat>, i: int, n: int)
    requires
        0 <= i < n,
    ensures
        bins[i] <= total(bins, n),
{
    lemma_total_order(bins, i + 1, n);
}

/// Clipping only takes pixels away.
pub proof fn lemma_total_clipped(bins: Seq<nat>, limit: nat, n: int)
    requires
        0 <= n <= 256,
    ensures
        total(clipped(bins, limit), n) <= total(bins, n),
    decreases n,
{
    if n > 0 {
        lemma_total_clipped(bins, limit, n - 1);
    }
}

proof fn lemma_total_zero(bins: Seq<nat>, n: int)
    requires
        forall|i: int| 0 <= i < n ==> bins[i] == 0,
    ensures
        total(bins, n) == 0,
    decreases n,
{
    if n > 0 {
        lemma_total_zero(bins, n - 1);
    }
}

/// Spreading the excess gives every pixel back: the first `n` bins of the spread histogram.
proof fn lemma_total_spread(bins: Seq<nat>, limit: nat, n: int)
    requires
        0 <= n <= 256,
    ensures
        total(redistributed(bins, limit), n) == total(clipped(bins, limit), n) + n * (excess(
            bins,
            limit,
        ) / 256) + (if n < excess(bins, limit) % 256 {
            n
        } else {
            excess(bins, limit) % 256
        }),
    decreases n,
{
    lemma_total_clipped(bins, limit, 256);
    let q = excess(bins, limit) / 256;
    if n > 0 {
        lemma_total_spread(bins, limit, n - 1);
        assert(n * q == (n - 1) * q + q) by (nonlinear_arith);
    } else {
        assert(n * q == 0) by (nonlinear_arith)
            requires
                n == 0,
        ;
    }
}

/// Equalization loses no pixel: the spread histogram has as many as the tile.
pub proof fn spread_keeps_the_pixel_count(bins: Seq<nat>, limit: nat)
    ensures
        total(redistributed(bins, limit), 256) == total(bins, 256),
{
    lemma_total_spread(bins, limit, 256);
    lemma_total_clipped(bins, limit, 256);
}

/// Counts the levels of one tile.
fn count_levels(frame: &IrFrame, x0: u32, x1: u32, y0: u32, y1: u32) -> (r: (Vec<u32>, u32))
    requires
        frame.complete(),
        x1 <= frame.width,
        y1 <= frame.height,
    ensures
        r.0@.len() == 256,
        bins_of(r.0@) == tile_histogram(
            frame.data@,
            frame.width as int,
            x0 as int,
            x1 as int,
            y0 as int,
            y1 as int,
        ),
        r.1 == total(bins_of(r.0@), 256),
{
    let ghost data = frame.data@;
    let ghost w = frame.width as int;
    let mut hist: Vec<u32> = vec![0u32; 256];
    let mut count: u32 = 0;
    let mut y: u32 = y0;
    proof {
        lemma_total_zero(bins_of(hist@), 256);
        assert(bins_of(hist@) =~= tile_histogram(data, w, x0 as int, x1 as int, y0 as int, y0 as int));
        if y1 <= y0 {
            assert(tile_histogram(data, w, x0 as int, x1 as int, y0 as int, y0 as int)
                =~= tile_histogram(data, w, x0 as int, x1 as int, y0 as int, y1 as int));
        }
    }
    while y < y1
        invariant
            frame.complete(),
            data == frame.data@,
            w == frame.width,
            x1 <= frame.width,
            y1 <= frame.height,
            y0 <= y,
            y <= y1 || y == y0,
            hist@.len() == 256,
            bins_of(hist@) == tile_histogram(data, w, x0 as int, x1 as int, y0 as int, y as int),
            count == total(bins_of(hist@), 256),
            count <= (y - y0) * w,
        decreases y1 - y,
    {
        proof {
            lemma_row_fits(y as int, w, frame.height as int);
            assert((y - y0) * w + w == (y + 1 - y0) * w) by (nonlinear_arith);
            assert((y + 1 - y0) * w <= w * frame.height) by (nonlinear_arith)
                requires
                    y + 1 - y0 <= frame.height,
                    w >= 0,
            ;
        }
        let row_start: usize = (y * frame.width) as usize;
        let ghost before = count;
        let ghost rows = bins_of(hist@);
        let mut x: u32 = x0;
        assert forall|l: int| 0 <= l < 256 implies bins_of(hist@)[l] == tile_hits(
            data,
            w,
            x0 as int,
            x1 as int,
            y0 as int,
            y as int,
            l,
        ) + row_hits(data, y * w, x0 as int, x as int, l) by {
            assert(rows[l] == tile_hits(data, w, x0 as int, x1 as int, y0 as int, y as int, l));
        }
        while x < x1
            invariant
                frame.complete(),
                data == frame.data@,
                w == frame.width,
                x1 <= frame.width,
                y < y1 <= frame.height,
                y0 <= y,
                row_start == y * w,
                y * w + w <= w * frame.height,
                x0 <= x,
                x <= x1 || x == x0,
                hist@.len() == 256,
                forall|l: int|
                    0 <= l < 256 ==> #[trigger] bins_of(hist@)[l] == tile_hits(
                        data,
                        w,
                        x0 as int,
                        x1 as int,
                        y0 as int,
                        y as int,
                        l,
                    ) + row_hits(data, y * w, x0 as int, x as int, l),
                count == total(bins_of(hist@), 256),
                before <= count,
                count <= before + (x - x0),
                before + w <= u32::MAX,
            decreases x1 - x,
        {
            let val: usize = (frame.data[row_start + x as usize] / 257) as usize;
            let ghost old_hist = hist@;
            proof {
                lemma_bin_at_most_total(bins_of(hist@), val as int, 256);
                lemma_total_increment(bins_of(hist@), val as int, 256);
            }
            let seen: u32 = hist[val];
            hist.set(val, seen + 1);
            count = count + 1;
            proof {
                assert(bins_of(hist@) =~= bins_of(old_hist).update(
                    val as int,
                    bins_of(old_hist)[val as int] + 1,
                ));
                assert forall|l: int| 0 <= l < 256 implies #[trigger] bins_of(hist@)[l]
                    == tile_hits(data, w, x0 as int, x1 as int, y0 as int, y as int, l) + row_hits(
                    data,
                    y * w,
                    x0 as int,
                    x + 1,
                    l,
                ) by {
                    assert(bins_of(old_hist)[l] == tile_hits(
                        data,
                        w,
                        x0 as int,
                        x1 as int,
                        y0 as int,
                        y as int,
                        l,
                    ) + row_hits(data, y * w, x0 as int, x as int, l));
                }
            }
            x = x + 1;
        }
        proof {
            let next = tile_histogram(data, w, x0 as int, x1 as int, y0 as int, y + 1);
            assert forall|l: int| 0 <= l < 256 implies bins_of(hist@)[l] == next[l] by {
                if x1 <= x0 {
                    assert(row_hits(data, y * w, x0 as int, x as int, l) == 0);
                    assert(row_hits(data, y * w, x0 as int, x1 as int, l) == 0);
                }
                assert(y + 1 - 1 == y);
                assert(next[l] == tile_hits(data, w, x0 as int, x1 as int, y0 as int, y + 1, l));
            }
            assert(bins_of(hist@) =~= next);
        }
        y = y + 1;
    }
    proof {
        if y1 < y0 {
            assert(tile_histogram(data, w, x0 as int, x1 as int, y0 as int, y0 as int)
                =~= tile_histogram(data, w, x0 as int, x1 as int, y0 as int, y1 as int));
        }
    }
    (hist, count)
}

proof fn lemma_row_fits(y: int, w: int, h: int)
    requires
        0 <= y < h,
        0 <= w,
    ensures
        0 <= y * w,
        y * w + w <= w * h,
{
    assert(0 <= y * w && y * w + w <= w * h) by (nonlinear_arith)
        requires
            0 <= y < h,
            0 <= w,
    ;
}

/// Cuts the bins at the limit and spreads the excess.
fn limit_contrast(hist: &mut Vec<u32>, limit: u32)
    requires
        old(hist)@.len() == 256,
        total(bins_of(old(hist)@), 256) <= u32::MAX,
    ensures
        final(hist)@.len() == 256,
        bins_of(final(hist)@) == redistributed(bins_of(old(hist)@), limit as nat),
{
    let ghost bins = bins_of(hist@);
    let ghost cut = clipped(bins, limit as nat);
    let mut spare: u32 = 0;
    let mut i: usize = 0;
    while i < 256
        invariant
            i <= 256,
            hist@.len() == 256,
            bins.len() == 256,
            cut == clipped(bins, limit as nat),
            total(bins, 256) <= u32::MAX,
            forall|j: int| 0 <= j < i ==> #[trigger] hist@[j] as nat == cut[j],
            forall|j: int| i <= j < 256 ==> #[trigger] hist@[j] as nat == bins[j],
            spare == total(bins, i as int) - total(cut, i as int),
        decreases 256 - i,
    {
        let bin: u32 = hist[i];
        proof {
            lemma_total_order(bins, i + 1, 256);
            lemma_total_clipped(bins, limit as nat, i as int);
        }
        if bin > limit {
            spare = spare + (bin - limit);
            hist.set(i, limit);
        }
        i = i + 1;
    }
    let share: u32 = spare / 256;
    let rest: u32 = spare % 256;
    let ghost spread = redistributed(bins, limit as nat);
    proof {
        spread_keeps_the_pixel_count(bins, limit as nat);
    }
    i = 0;
    while i < 256
        invariant
            i <= 256,
            hist@.len() == 256,
            bins.len() == 256,
            cut == clipped(bins, limit as nat),
            spread == redistributed(bins, limit as nat),
            spare == excess(bins, limit as nat),
            share == spare / 256,
            rest == spare % 256,
            total(spread, 256) <= u32::MAX,
            forall|j: int| 0 <= j < i ==> #[trigger] hist@[j] as nat == spread[j],
            forall|j: int| i <= j < 256 ==> #[trigger] hist@[j] as nat == cut[j],
        decreases 256 - i,
    {
        let bin: u32 = hist[i];
        let extra: u32 = if (i as u32) < rest {
            1
        } else {
            0
        };
        proof {
            lemma_bin_at_most_total(spread, i as int, 256);
            assert(spread[i as int] == bin + share + extra);
        }
        hist.set(i, bin + (share + extra));
        i = i + 1;
    }
    assert(bins_of(hist@) =~= spread);
}

/// Clip-limited equalization curve (level to level) of one tile.
pub fn tile_mapping(frame: &IrFrame, x0: u32, x1: u32, y0: u32, y1: u32) -> (r: Vec<u8>)
    requires
        frame.complete(),
        x1 <= frame.width,
        y1 <= frame.height,
    ensures
        r@ == tone_curve(
            tile_histogram(
                frame.data@,
                frame.width as int,
                x0 as int,
                x1 as int,
                y0 as int,
                y1 as int,
            ),
        ),
{
    let (mut hist, count) = count_levels(frame, x0, x1, y0, y1);
    let ghost bins = bins_of(hist@);
    let mut mapping: Vec<u8> = Vec::new();
    let mut i: usize = 0;
    if count == 0 {
        while i < 256
            invariant
                i <= 256,
                mapping@ == Seq::new(i as nat, |j: int| j as u8),
            decreases 256 - i,
        {
            mapping.push(i as u8);
            i = i + 1;
        }
        assert(mapping@ =~= tone_curve(bins));
        return mapping;
    }
    let average = Float32::from_u64(count as u64).div(Float32::from_bits(0x4380_0000));
    let clip = Float32::from_bits(CLAHE_CLIP_FACTOR_BITS).mul(average).max(
        Float32::from_bits(0x3f80_0000),
    ).trunc_to_u32();
    limit_contrast(&mut hist, clip);
    let ghost spread = redistributed(bins, clip_limit(count as nat));
    assert(bins_of(hist@) == spread);
    proof {
        spread_keeps_the_pixel_count(bins, clip_limit(count as nat));
    }
    let whole = Float32::from_u64(count as u64);
    let mut cumulative: u32 = 0;
    while i < 256
        invariant
            i <= 256,
            hist@.len() == 256,
            bins_of(hist@) == spread,
            total(spread, 256) == count,
            cumulative == total(spread, i as int),
            whole == Float32::spec_from_u64(count as u64),
            mapping@ == Seq::new(i as nat, |j: int| tone(total(spread, j + 1), count as nat)),
        decreases 256 - i,
    {
        proof {
            lemma_total_order(spread, i + 1, 256);
            assert(spread[i as int] == hist@[i as int]);
        }
        cumulative = cumulative + hist[i];
        let scaled = Float32::from_u64(cumulative as u64).div(whole).mul(
            Float32::from_bits(0x437f_0000),
        ).round_to_u32();
        let toned: u8 = if scaled < 255 {
            scaled as u8
        } else {
            255
        };
        assert(toned == tone(total(spread, i + 1), count as nat));
        mapping.push(toned);
        i = i + 1;
    }
    assert(mapping@ =~= tone_curve(bins));
    mapping
}

/// The centers of the tiles along an axis.
pub open spec fn tile_centers(dim: u32, tiles: u32) -> Seq<Float32> {
    Seq::new(
        tiles as nat,
        |i: int|
            {
                let (s, e) = tile_range(dim, tiles, i);
                Float32::spec_from_u64((s + e) as u64).spec_div(Float32 { bits: 0x4000_0000 })
            },
    )
}

/// The first pair of neighboring centers, from `i` on, that encloses `pos`, and how far `pos`
/// is on the way to the second one. The last center, with no weight, if there is none.
pub open spec fn enclosing(pos: Float32, centers: Seq<Float32>, i: int) -> (int, int, Float32)
    decreases centers.len() - i,
{
    if i >= centers.len() - 1 {
        (centers.len() - 1, centers.len() - 1, Float32 { bits: 0 })
    } else if centers[i].spec_le(pos) && pos.spec_le(centers[i + 1]) {
        let span = centers[i + 1].spec_sub(centers[i]);
        let weight = if (Float32 { bits: 0 }).spec_lt(span) {
            pos.spec_sub(centers[i]).spec_div(span)
        } else {
            Float32 { bits: 0 }
        };
        (i, i + 1, weight)
    } else {
        enclosing(pos, centers, i + 1)
    }
}

/// The two tile centers next to `pos` and the weight of the second. At or beyond the outermost
/// centers there is no extrapolation.
pub open spec fn neighbors(pos: Float32, centers: Seq<Float32>) -> (int, int, Float32) {
    let n = centers.len();
    if n <= 1 || pos.spec_le(centers[0]) {
        (0, 0, Float32 { bits: 0 })
    } else if centers[n - 1].spec_le(pos) {
        (n - 1, n - 1, Float32 { bits: 0 })
    } else {
        enclosing(pos, centers, 0)
    }
}

/// For a pixel coordinate along one axis, the two neighboring tile centers to interpolate
/// between and the weight of the second one.
pub fn neighbor_weights(pos: Float32, centers: &Vec<Float32>) -> (r: (usize, usize, Float32))
    ensures
        (r.0 as int, r.1 as int, r.2) == neighbors(pos, centers@),
{
    let n = centers.len();
    if n <= 1 || pos.le(centers[0]) {
        return (0, 0, Float32::from_bits(0));
    }
    if centers[n - 1].le(pos) {
        return (n - 1, n - 1, Float32::from_bits(0));
    }
    let mut i: usize = 0;
    while i < n - 1
        invariant
            n == centers@.len(),
            n > 1,
            i <= n - 1,
            !pos.spec_le(centers@[0]),
            !centers@[n - 1].spec_le(pos),
            enclosing(pos, centers@, 0) == enclosing(pos, centers@, i as int),
        decreases n - i,
    {
        if centers[i].le(pos) && pos.le(centers[i + 1]) {
            let span = centers[i + 1].sub(centers[i]);
            if Float32::from_bits(0).lt(span) {
                let weight = pos.sub(centers[i]).div(span);
                return (i, i + 1, weight);
            }
            return (i, i + 1, Float32::from_bits(0));
        }
        i = i + 1;
    }
    (n - 1, n - 1, Float32::from_bits(0))
}

/// Interpolation weights lie between zero and one, and name tiles that exist.
proof fn lemma_enclosing(pos: Float32, centers: Seq<Float32>, i: int)
    requires
        0 <= i,
        centers.len() > 0,
        within(pos, 0x100_0000_0000 * one()),
        forall|j: int|
            0 <= j < centers.len() ==> within(#[trigger] centers[j], 0x100_0000_0000 * one()),
    ensures
        ({
            let (a, b, w) = enclosing(pos, centers, i);
            &&& 0 <= a < centers.len()
            &&& 0 <= b < centers.len()
            &&& within(w, one())
        }),
    decreases centers.len() - i,
{
    lemma_zero_within();
    if i < centers.len() - 1 {
        if centers[i].spec_le(pos) && pos.spec_le(centers[i + 1]) {
            assert(within(centers[i], 0x100_0000_0000 * one()));
            assert(within(centers[i + 1], 0x100_0000_0000 * one()));
            lemma_difference(centers[i], pos, centers[i + 1]);
            let span = centers[i + 1].spec_sub(centers[i]);
            if (Float32 { bits: 0 }).spec_lt(span) {
                assert(!span.is_zero());
                lemma_ratio(pos.spec_sub(centers[i]), span);
            }
        } else {
            lemma_enclosing(pos, centers, i + 1);
        }
    }
}

proof fn lemma_zero_within()
    ensures
        within(Float32 { bits: 0 }, one()),
{
    vstd::arithmetic::power2::lemma_pow2_pos(149);
}

/// Interpolation never extrapolates: the neighbors of a position exist, and the weight of the
/// second lies between zero and one.
pub proof fn weights_are_fractions(pos: Float32, centers: Seq<Float32>)
    requires
        centers.len() > 0,
        within(pos, 0x100_0000_0000 * one()),
        forall|j: int|
            0 <= j < centers.len() ==> within(#[trigger] centers[j], 0x100_0000_0000 * one()),
    ensures
        ({
            let (a, b, w) = neighbors(pos, centers);
            &&& 0 <= a < centers.len()
            &&& 0 <= b < centers.len()
            &&& within(w, one())
        }),
{
    lemma_zero_within();
    lemma_enclosing(pos, centers, 0);
}

pub proof fn lemma_centers_within(dim: u32, tiles: u32)
    requires
        tiles > 0,
        dim * tiles <= u32::MAX,
    ensures
        forall|j: int|
            0 <= j < tiles ==> within(
                #[trigger] tile_centers(dim, tiles)[j],
                0x100_0000_0000 * one(),
            ),
{
    assert forall|j: int| 0 <= j < tiles implies within(
        #[trigger] tile_centers(dim, tiles)[j],
        0x100_0000_0000 * one(),
    ) by {
        lemma_tile_start(dim as int, tiles as int, j);
        lemma_tile_start(dim as int, tiles as int, j + 1);
        let (s, e) = tile_range(dim, tiles, j);
        lemma_from_u64_within((s + e) as u64);
        lemma_half_within(Float32::spec_from_u64((s + e) as u64));
    }
}

/// How many tiles an axis of `dim` pixels is cut into.
pub open spec fn tile_count(limit: u32, dim: u32) -> u32 {
    if dim < limit {
        dim
    } else {
        limit
    }
}

/// The tone curve of the tile in column `i` and row `j`.
pub open spec fn curve_at(data: Seq<u16>, width: u32, height: u32, i: int, j: int) -> Seq<u8> {
    let (x0, x1) = tile_range(width, tile_count(CLAHE_TILES_X, width), i);
    let (y0, y1) = tile_range(height, tile_count(CLAHE_TILES_Y, height), j);
    tone_curve(
        tile_histogram(data, width as int, x0 as int, x1 as int, y0 as int, y1 as int),
    )
}

/// `a * (1 - w) + b * w`.
pub open spec fn mix(a: Float32, b: Float32, w: Float32) -> Float32 {
    a.spec_mul((Float32 { bits: 0x3f80_0000 }).spec_sub(w)).spec_add(b.spec_mul(w))
}

/// The equalized level of pixel `(x, y)`: the levels that the four neighboring tiles' curves
/// give, interpolated.
pub open spec fn equalized(data: Seq<u16>, width: u32, height: u32, x: int, y: int) -> Float32 {
    let (tx0, tx1, wx) = neighbors(
        Float32::spec_from_u64(x as u64),
        tile_centers(width, tile_count(CLAHE_TILES_X, width)),
    );
    let (ty0, ty1, wy) = neighbors(
        Float32::spec_from_u64(y as u64),
        tile_centers(height, tile_count(CLAHE_TILES_Y, height)),
    );
    let l = level(data[y * width + x]);
    let v00 = Float32::spec_from_u64(curve_at(data, width, height, tx0, ty0)[l] as u64);
    let v01 = Float32::spec_from_u64(curve_at(data, width, height, tx1, ty0)[l] as u64);
    let v10 = Float32::spec_from_u64(curve_at(data, width, height, tx0, ty1)[l] as u64);
    let v11 = Float32::spec_from_u64(curve_at(data, width, height, tx1, ty1)[l] as u64);
    mix(mix(v00, v01, wx), mix(v10, v11, wx), wy)
}

/// The equalized sample of pixel `(x, y)`, back over the full 16-bit range.
pub open spec fn equalized_sample(
    data: Seq<u16>,
    width: u32,
    height: u32,
    x: int,
    y: int,
) -> int {
    equalized(data, width, height, x, y).spec_round_to_u32() * 257
}

/// The samples of a frame after equalization: unchanged for a frame without pixels, else one
/// equalized sample per pixel, and 0 past the last pixel.
pub open spec fn equalization(data: Seq<u16>, width: u32, height: u32) -> Seq<u16> {
    if width == 0 || height == 0 {
        data
    } else {
        Seq::new(
            data.len(),
            |i: int|
                if i < width * height {
                    equalized_sample(data, width, height, i % width as int, i / width as int) as u16
                } else {
                    0
                },
        )
    }
}

/// A level, mixed twice, rounds to a level.
proof fn lemma_mixed_level(
    v00: u8,
    v01: u8,
    v10: u8,
    v11: u8,
    wx: Float32,
    wy: Float32,
)
    requires
        within(wx, one()),
        within(wy, one()),
    ensures
        mix(
            mix(Float32::spec_from_u64(v00 as u64), Float32::spec_from_u64(v01 as u64), wx),
            mix(Float32::spec_from_u64(v10 as u64), Float32::spec_from_u64(v11 as u64), wx),
            wy,
        ).spec_round_to_u32() <= 255,
{
    let o = one() as int;
    vstd::arithmetic::power2::lemma_pow2_pos(149);
    small_integers_are_exact(v00 as u64);
    small_integers_are_exact(v01 as u64);
    small_integers_are_exact(v10 as u64);
    small_integers_are_exact(v11 as u64);
    assert(v00 * o <= 255 * o && v01 * o <= 255 * o && v10 * o <= 255 * o && v11 * o <= 255 * o)
        by (nonlinear_arith)
        requires
            o > 0,
            v00 <= 255,
            v01 <= 255,
            v10 <= 255,
            v11 <= 255,
    ;
    let f00 = Float32::spec_from_u64(v00 as u64);
    let f01 = Float32::spec_from_u64(v01 as u64);
    let f10 = Float32::spec_from_u64(v10 as u64);
    let f11 = Float32::spec_from_u64(v11 as u64);
    lemma_mix(f00, f01, wx, 32640);
    lemma_mix(f10, f11, wx, 32640);
    lemma_mix(mix(f00, f01, wx), mix(f10, f11, wx), wy, 32641);
    let m = mix(mix(f00, f01, wx), mix(f10, f11, wx), wy).abs_steps() as int;
    // 128 m <= 32642 one, so 2 m + one < 512 one
    assert(128 * m <= 32642 * o);
    assert(2 * m + o < 256 * (2 * o));
    reveal(Float32::spec_round_to_u32);
    assert((2 * m + o) / (2 * o) < 256) by {
        vstd::arithmetic::div_mod::lemma_multiply_divide_lt(2 * m + o, 2 * o, 256);
    }
}

/// An equalized pixel has one of the 256 levels.
pub proof fn lemma_equalized_level(data: Seq<u16>, width: u32, height: u32, x: int, y: int)
    requires
        0 <= x < width,
        0 <= y < height,
        width * tile_count(CLAHE_TILES_X, width) <= u32::MAX,
        height * tile_count(CLAHE_TILES_Y, height) <= u32::MAX,
    ensures
        equalized(data, width, height, x, y).spec_round_to_u32() <= 255,
{
    let tiles_x = tile_count(CLAHE_TILES_X, width);
    let tiles_y = tile_count(CLAHE_TILES_Y, height);
    lemma_centers_within(width, tiles_x);
    lemma_centers_within(height, tiles_y);
    lemma_from_u64_within(x as u64);
    lemma_from_u64_within(y as u64);
    let (tx0, tx1, wx) = neighbors(
        Float32::spec_from_u64(x as u64),
        tile_centers(width, tiles_x),
    );
    let (ty0, ty1, wy) = neighbors(
        Float32::spec_from_u64(y as u64),
        tile_centers(height, tiles_y),
    );
    weights_are_fractions(Float32::spec_from_u64(x as u64), tile_centers(width, tiles_x));
    weights_are_fractions(Float32::spec_from_u64(y as u64), tile_centers(height, tiles_y));
    let l = level(data[y * width + x]);
    lemma_mixed_level(
        curve_at(data, width, height, tx0, ty0)[l],
        curve_at(data, width, height, tx1, ty0)[l],
        curve_at(data, width, height, tx0, ty1)[l],
        curve_at(data, width, height, tx1, ty1)[l],
        wx,
        wy,
    );
}

/// Contrast-limited adaptive histogram equalization: a tone curve per tile, interpolated
/// between neighboring tiles so that tile borders do not show. Works on the 256 true levels of
/// a frame. A frame without pixels or without samples is left as it is; samples past the last
/// pixel become 0.
pub fn clahe(frame: &mut IrFrame)
    requires
        old(frame).width > 0 && old(frame).height > 0 && old(frame).data@.len() > 0 ==> {
            &&& old(frame).complete()
            &&& old(frame).width * tile_count(CLAHE_TILES_X, old(frame).width) <= u32::MAX
            &&& old(frame).height * tile_count(CLAHE_TILES_Y, old(frame).height) <= u32::MAX
        },
    ensures
        final(frame).width == old(frame).width,
        final(frame).height == old(frame).height,
        final(frame).data@ == equalization(
            old(frame).data@,
            old(frame).width,
            old(frame).height,
        ),
{
    let width = frame.width;
    let height = frame.height;
    if width == 0 || height == 0 || frame.data.len() == 0 {
        return;
    }
    let ghost data = frame.data@;
    let tiles_x: u32 = if width < CLAHE_TILES_X {
        width
    } else {
        CLAHE_TILES_X
    };
    let tiles_y: u32 = if height < CLAHE_TILES_Y {
        height
    } else {
        CLAHE_TILES_Y
    };
    let col_bounds = tile_bounds(width, tiles_x);
    let row_bounds = tile_bounds(height, tiles_y);
    let mappings = tile_mappings(frame, &col_bounds, &row_bounds);
    let col_centers = centers_of(&col_bounds, width, tiles_x);
    let row_centers = centers_of(&row_bounds, height, tiles_y);
    proof {
        lemma_centers_within(width, tiles_x);
        lemma_centers_within(height, tiles_y);
    }
    let mut out: Vec<u16> = vec![0u16; frame.data.len()];
    let mut y: u32 = 0;
    while y < height
        invariant
            y <= height,
            width == frame.width,
            height == frame.height,
            width > 0,
            frame.data@ == data,
            frame.complete(),
            tiles_x == tile_count(CLAHE_TILES_X, width),
            tiles_y == tile_count(CLAHE_TILES_Y, height),
            tiles_x > 0,
            tiles_y > 0,
            col_centers@ == tile_centers(width, tiles_x),
            row_centers@ == tile_centers(height, tiles_y),
            forall|j: int|
                0 <= j < tiles_x ==> within(#[trigger] col_centers@[j], 0x100_0000_0000 * one()),
            forall|j: int|
                0 <= j < tiles_y ==> within(#[trigger] row_centers@[j], 0x100_0000_0000 * one()),
            mappings@.len() == tiles_y,
            forall|j: int| 0 <= j < tiles_y ==> #[trigger] mappings@[j]@.len() == tiles_x,
            forall|i: int, j: int|
                0 <= i < tiles_x && 0 <= j < tiles_y ==> #[trigger] mappings@[j]@[i]@ == curve_at(
                    data,
                    width,
                    height,
                    i,
                    j,
                ),
            out@.len() == data.len(),
            forall|px: int, py: int|
                0 <= px < width && 0 <= py < y ==> #[trigger] out@[py * width + px]
                    == equalized_sample(data, width, height, px, py),
            forall|i: int| y * width <= i < data.len() ==> #[trigger] out@[i] == 0,
        decreases height - y,
    {
        let pos_y = Float32::from_u64(y as u64);
        proof {
            lemma_from_u64_within(y as u64);
            weights_are_fractions(pos_y, row_centers@);
            lemma_row_fits(y as int, width as int, height as int);
        }
        let (ty0, ty1, wy) = neighbor_weights(pos_y, &row_centers);
        let mut x: u32 = 0;
        while x < width
            invariant
                x <= width,
                y < height,
                width == frame.width,
                height == frame.height,
                width > 0,
                frame.data@ == data,
                frame.complete(),
                y * width + width <= width * height,
                tiles_x == tile_count(CLAHE_TILES_X, width),
                tiles_y == tile_count(CLAHE_TILES_Y, height),
                tiles_x > 0,
                tiles_y > 0,
                pos_y == Float32::spec_from_u64(y as u64),
                (ty0 as int, ty1 as int, wy) == neighbors(pos_y, row_centers@),
                ty0 < tiles_y,
                ty1 < tiles_y,
                within(wy, one()),
                col_centers@ == tile_centers(width, tiles_x),
                row_centers@ == tile_centers(height, tiles_y),
                forall|j: int|
                    0 <= j < tiles_x ==> within(
                        #[trigger] col_centers@[j],
                        0x100_0000_0000 * one(),
                    ),
                mappings@.len() == tiles_y,
                forall|j: int| 0 <= j < tiles_y ==> #[trigger] mappings@[j]@.len() == tiles_x,
                forall|i: int, j: int|
                    0 <= i < tiles_x && 0 <= j < tiles_y ==> #[trigger] mappings@[j]@[i]@
                        == curve_at(data, width, height, i, j),
                out@.len() == data.len(),
                forall|px: int, py: int|
                    0 <= px < width && 0 <= py < y ==> #[trigger] out@[py * width + px]
                        == equalized_sample(data, width, height, px, py),
                forall|px: int|
                    0 <= px < x ==> #[trigger] out@[y * width + px] == equalized_sample(
                        data,
                        width,
                        height,
                        px,
                        y as int,
                    ),
                forall|i: int| y * width + x <= i < data.len() ==> #[trigger] out@[i] == 0,
            decreases width - x,
        {
            let pos_x = Float32::from_u64(x as u64);
            proof {
                lemma_from_u64_within(x as u64);
                weights_are_fractions(pos_x, col_centers@);
            }
            let (tx0, tx1, wx) = neighbor_weights(pos_x, &col_centers);
            let idx: usize = (y * width + x) as usize;
            let val: usize = (frame.data[idx] / 257) as usize;
            assert(mappings@[ty0 as int]@.len() == tiles_x);
            assert(mappings@[ty1 as int]@.len() == tiles_x);
            assert(mappings@[ty0 as int]@[tx0 as int]@ == curve_at(
                data,
                width,
                height,
                tx0 as int,
                ty0 as int,
            ));
            assert(mappings@[ty0 as int]@[tx1 as int]@ == curve_at(
                data,
                width,
                height,
                tx1 as int,
                ty0 as int,
            ));
            assert(mappings@[ty1 as int]@[tx0 as int]@ == curve_at(
                data,
                width,
                height,
                tx0 as int,
                ty1 as int,
            ));
            assert(mappings@[ty1 as int]@[tx1 as int]@ == curve_at(
                data,
                width,
                height,
                tx1 as int,
                ty1 as int,
            ));
            let v00: u8 = mappings[ty0][tx0][val];
            let v01: u8 = mappings[ty0][tx1][val];
            let v10: u8 = mappings[ty1][tx0][val];
            let v11: u8 = mappings[ty1][tx1][val];
            let top = mixed(
                Float32::from_u64(v00 as u64),
                Float32::from_u64(v01 as u64),
                wx,
            );
            let bottom = mixed(
                Float32::from_u64(v10 as u64),
                Float32::from_u64(v11 as u64),
                wx,
            );
            let mapped = mixed(top, bottom, wy);
            proof {
                lemma_mixed_level(v00, v01, v10, v11, wx, wy);
                assert(mapped == equalized(data, width, height, x as int, y as int));
            }
            let rounded: u32 = mapped.round_to_u32();
            let ghost before = out@;
            out.set(idx, (rounded as u16) * 257);
            proof {
                assert forall|px: int, py: int| 0 <= px < width && 0 <= py < y implies
                    #[trigger] out@[py * width + px] == equalized_sample(
                    data,
                    width,
                    height,
                    px,
                    py,
                ) by {
                    lemma_row_fits(py, width as int, y as int);
                    vstd::arithmetic::mul::lemma_mul_is_commutative(width as int, y as int);
                    assert(before[py * width + px] == equalized_sample(data, width, height, px, py));
                }
            }
            x = x + 1;
        }
        proof {
            assert((y + 1) * width == y * width + width) by (nonlinear_arith);
            assert forall|px: int, py: int| 0 <= px < width && 0 <= py < y + 1 implies
                #[trigger] out@[py * width + px] == equalized_sample(
                data,
                width,
                height,
                px,
                py,
            ) by {
                if py == y {
                    assert(out@[y * width + px] == equalized_sample(
                        data,
                        width,
                        height,
                        px,
                        y as int,
                    ));
                }
            }
        }
        y = y + 1;
    }
    proof {
        vstd::arithmetic::mul::lemma_mul_is_commutative(width as int, height as int);
        assert forall|i: int| 0 <= i < data.len() implies out@[i] == #[trigger] equalization(
            data,
            width,
            height,
        )[i] by {
            if i < width * height {
                lemma_pixel_position(i, width as int, height as int);
                let x = i % width as int;
                let y = i / width as int;
                assert(out@[y * width + x] == equalized_sample(data, width, height, x, y));
            }
        }
        assert(out@ =~= equalization(data, width, height));
    }
    frame.data = out;
}

/// The pixel that a position in the frame belongs to.
proof fn lemma_pixel_position(i: int, width: int, height: int)
    requires
        0 <= i < width * height,
        0 < width,
    ensures
        0 <= i % width < width,
        0 <= i / width < height,
        (i / width) * width + i % width == i,
{
    vstd::arithmetic::div_mod::lemma_fundamental_div_mod(i, width);
    vstd::arithmetic::mul::lemma_mul_is_commutative(width, i / width);
    vstd::arithmetic::mul::lemma_mul_is_commutative(width, height);
    vstd::arithmetic::div_mod::lemma_mod_bound(i, width);
    vstd::arithmetic::div_mod::lemma_div_pos_is_pos(i, width);
    vstd::arithmetic::div_mod::lemma_multiply_divide_lt(i, width, height);
}

/// `a * (1 - w) + b * w`.
fn mixed(a: Float32, b: Float32, w: Float32) -> (r: Float32)
    ensures
        r == mix(a, b, w),
{
    a.mul(Float32::from_bits(0x3f80_0000).sub(w)).add(b.mul(w))
}

/// The centers of tiles with the given bounds.
fn centers_of(bounds: &Vec<(u32, u32)>, dim: u32, tiles: u32) -> (r: Vec<Float32>)
    requires
        tiles > 0,
        dim * tiles <= u32::MAX,
        bounds@ == Seq::new(tiles as nat, |i: int| tile_range(dim, tiles, i)),
    ensures
        r@ == tile_centers(dim, tiles),
{
    let mut centers: Vec<Float32> = Vec::new();
    let mut i: usize = 0;
    while i < bounds.len()
        invariant
            i <= bounds@.len(),
            tiles > 0,
            dim * tiles <= u32::MAX,
            bounds@ == Seq::new(tiles as nat, |i: int| tile_range(dim, tiles, i)),
            centers@ == tile_centers(dim, tiles).take(i as int),
        decreases bounds@.len() - i,
    {
        let (s, e) = bounds[i];
        let center = Float32::from_u64(s as u64 + e as u64).div(Float32::from_bits(0x4000_0000));
        centers.push(center);
        i = i + 1;
        assert(centers@ =~= tile_centers(dim, tiles).take(i as int));
    }
    assert(centers@ =~= tile_centers(dim, tiles));
    centers
}

/// The tone curves of all tiles, row by row.
fn tile_mappings(
    frame: &IrFrame,
    col_bounds: &Vec<(u32, u32)>,
    row_bounds: &Vec<(u32, u32)>,
) -> (r: Vec<Vec<Vec<u8>>>)
    requires
        frame.complete(),
        frame.width > 0,
        frame.height > 0,
        col_bounds@ == Seq::new(
            tile_count(CLAHE_TILES_X, frame.width) as nat,
            |i: int| tile_range(frame.width, tile_count(CLAHE_TILES_X, frame.width), i),
        ),
        row_bounds@ == Seq::new(
            tile_count(CLAHE_TILES_Y, frame.height) as nat,
            |i: int| tile_range(frame.height, tile_count(CLAHE_TILES_Y, frame.height), i),
        ),
    ensures
        r@.len() == row_bounds@.len(),
        forall|j: int| 0 <= j < r@.len() ==> #[trigger] r@[j]@.len() == col_bounds@.len(),
        forall|i: int, j: int|
            0 <= i < col_bounds@.len() && 0 <= j < row_bounds@.len() ==> #[trigger] r@[j]@[i]@
                == curve_at(frame.data@, frame.width, frame.height, i, j),
{
    let mut rows: Vec<Vec<Vec<u8>>> = Vec::new();
    let mut j: usize = 0;
    while j < row_bounds.len()
        invariant
            j <= row_bounds@.len(),
            frame.complete(),
            frame.width > 0,
            frame.height > 0,
            col_bounds@ == Seq::new(
                tile_count(CLAHE_TILES_X, frame.width) as nat,
                |i: int| tile_range(frame.width, tile_count(CLAHE_TILES_X, frame.width), i),
            ),
            row_bounds@ == Seq::new(
                tile_count(CLAHE_TILES_Y, frame.height) as nat,
                |i: int| tile_range(frame.height, tile_count(CLAHE_TILES_Y, frame.height), i),
            ),
            rows@.len() == j,
            forall|b: int| 0 <= b < j ==> #[trigger] rows@[b]@.len() == col_bounds@.len(),
            forall|a: int, b: int|
                0 <= a < col_bounds@.len() && 0 <= b < j ==> #[trigger] rows@[b]@[a]@ == curve_at(
                    frame.data@,
                    frame.width,
                    frame.height,
                    a,
                    b,
                ),
        decreases row_bounds@.len() - j,
    {
        let (y0, y1) = row_bounds[j];
        proof {
            lemma_tile_start(
                frame.height as int,
                tile_count(CLAHE_TILES_Y, frame.height) as int,
                j + 1,
            );
        }
        let mut row: Vec<Vec<u8>> = Vec::new();
        let mut i: usize = 0;
        while i < col_bounds.len()
            invariant
                i <= col_bounds@.len(),
                j < row_bounds@.len(),
                frame.complete(),
                frame.width > 0,
                col_bounds@ == Seq::new(
                    tile_count(CLAHE_TILES_X, frame.width) as nat,
                    |i: int| tile_range(frame.width, tile_count(CLAHE_TILES_X, frame.width), i),
                ),
                y1 <= frame.height,
                (y0, y1) == tile_range(
                    frame.height,
                    tile_count(CLAHE_TILES_Y, frame.height),
                    j as int,
                ),
                row@.len() == i,
                forall|a: int|
                    0 <= a < i ==> #[trigger] row@[a]@ == curve_at(
                        frame.data@,
                        frame.width,
                        frame.height,
                        a,
                        j as int,
                    ),
            decreases col_bounds@.len() - i,
        {
            let (x0, x1) = col_bounds[i];
            proof {
                lemma_tile_start(
                    frame.width as int,
                    tile_count(CLAHE_TILES_X, frame.width) as int,
                    i + 1,
                );
            }
            let curve = tile_mapping(frame, x0, x1, y0, y1);
            row.push(curve);
            i = i + 1;
        }
        rows.push(row);
        j = j + 1;
    }
    rows
}

} // verus!
