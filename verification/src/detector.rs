//! Face detection around the network: its input, its anchor grid, and which box its output
//! names.
pub use crate::statistics::{
    frame_mean, frame_variance, raw_frame_has_content, CONTENT_VARIANCE_THRESHOLD_BITS,
};
use crate::capture::IrFrame;
use crate::error::FaceAuthError;
use crate::float32::Float32;
use crate::inference::{choose_backend, chosen_backend, Backend};
use crate::resample::{eight_bit, resize_frame, resized_pixels, to_rgb8};
use vstd::prelude::*;

verus! {

/// A face, as fractions of the frame's width and height.
#[derive(Clone, Copy, Debug, PartialEq, Eq, Structural)]
pub struct FaceBox {
    pub x1: Float32,
    pub y1: Float32,
    pub x2: Float32,
    pub y2: Float32,
}

/// An anchor box, as fractions of the network's 320 by 240 input.
#[derive(Clone, Copy, Debug, PartialEq, Eq, Structural)]
pub struct Prior {
    pub cx: Float32,
    pub cy: Float32,
    pub w: Float32,
    pub h: Float32,
}

/// What the network says of one anchor: where its center moves and how its size changes.
#[derive(Clone, Copy, Debug, PartialEq, Eq, Structural)]
pub struct BoxDelta {
    pub dx: Float32,
    pub dy: Float32,
    pub dw: Float32,
    pub dh: Float32,
}

/// 0.1
pub const CENTER_VARIANCE_BITS: u32 = 0x3dcc_cccd;

/// 0.2
pub const SIZE_VARIANCE_BITS: u32 = 0x3e4c_cccd;

/// Columns of the anchor grid at each of the four levels.
pub open spec fn grid_width(level: int) -> int {
    if level == 0 {
        40
    } else if level == 1 {
        20
    } else if level == 2 {
        10
    } else {
        5
    }
}

/// Rows of the anchor grid at each of the four levels.
pub open spec fn grid_height(level: int) -> int {
    if level == 0 {
        30
    } else if level == 1 {
        15
    } else if level == 2 {
        8
    } else {
        4
    }
}

/// The anchor sizes at each level, in pixels of the network's input.
pub open spec fn anchor_sizes(level: int) -> Seq<u64> {
    if level == 0 {
        seq![10u64, 16, 24]
    } else if level == 1 {
        seq![32u64, 48]
    } else if level == 2 {
        seq![64u64, 96]
    } else {
        seq![128u64, 192, 256]
    }
}

/// The anchor of the given size in the middle of column `i` and row `j`.
pub open spec fn anchor(level: int, i: int, j: int, size: u64) -> Prior {
    let half = Float32 { bits: 0x3f00_0000 };
    let s = Float32::spec_from_u64(size);
    Prior {
        cx: Float32::spec_from_u64(i as u64).spec_add(half).spec_div(
            Float32::spec_from_u64(grid_width(level) as u64),
        ),
        cy: Float32::spec_from_u64(j as u64).spec_add(half).spec_div(
            Float32::spec_from_u64(grid_height(level) as u64),
        ),
        w: s.spec_div(Float32 { bits: 0x43a0_0000 }),
        h: s.spec_div(Float32 { bits: 0x4370_0000 }),
    }
}

/// The anchors of one level: row by row, column by column, size by size.
pub open spec fn level_priors(level: int) -> Seq<Prior> {
    let n = anchor_sizes(level).len() as int;
    let w = grid_width(level);
    Seq::new(
        (grid_height(level) * w * n) as nat,
        |k: int| anchor(level, (k / n) % w, k / (w * n), anchor_sizes(level)[k % n]),
    )
}

/// All anchors, level by level.
pub open spec fn prior_grid() -> Seq<Prior> {
    level_priors(0) + level_priors(1) + level_priors(2) + level_priors(3)
}

/// There is one anchor for each of the network's 4420 answers.
pub proof fn there_are_4420_anchors()
    ensures
        prior_grid().len() == 4420,
{
    lemma_level_size(0);
    lemma_level_size(1);
    lemma_level_size(2);
    lemma_level_size(3);
}

proof fn lemma_level_size(level: int)
    requires
        0 <= level < 4,
    ensures
        grid_height(level) * grid_width(level) * anchor_sizes(level).len() as int == (
        if level == 0 {
            3600int
        } else if level == 1 {
            600
        } else if level == 2 {
            160
        } else {
            60
        }),
        grid_height(level) * grid_width(level) <= 1200,
        level_priors(level).len() == grid_height(level) * grid_width(level) * anchor_sizes(
            level,
        ).len() as int,
{
    let h = grid_height(level);
    let w = grid_width(level);
    let n = anchor_sizes(level).len() as int;
    if level == 0 {
        assert(h * w == 1200 && h * w * n == 3600) by (nonlinear_arith)
            requires
                h == 30,
                w == 40,
                n == 3,
        ;
    } else if level == 1 {
        assert(h * w == 300 && h * w * n == 600) by (nonlinear_arith)
            requires
                h == 15,
                w == 20,
                n == 2,
        ;
    } else if level == 2 {
        assert(h * w == 80 && h * w * n == 160) by (nonlinear_arith)
            requires
                h == 8,
                w == 10,
                n == 2,
        ;
    } else {
        assert(h * w == 20 && h * w * n == 60) by (nonlinear_arith)
            requires
                h == 4,
                w == 5,
                n == 3,
        ;
    }
}

/// Appends the anchors of one level.
fn push_level(priors: &mut Vec<Prior>, width: u64, height: u64, sizes: &Vec<u64>, Ghost(level): Ghost<
    int,
>)
    requires
        0 <= level < 4,
        width == grid_width(level),
        height == grid_height(level),
        sizes@ == anchor_sizes(level),
    ensures
        final(priors)@ == old(priors)@ + level_priors(level),
{
    let ghost before = priors@;
    let half = Float32::from_bits(0x3f00_0000);
    let n: u64 = sizes.len() as u64;
    assert(2 <= n <= 3);
    proof {
        lemma_level_size(level);
    }
    let total: u64 = height * width * n;
    let mut k: u64 = 0;
    while k < total
        invariant
            k <= total,
            0 <= level < 4,
            width == grid_width(level),
            height == grid_height(level),
            sizes@ == anchor_sizes(level),
            n == sizes@.len(),
            2 <= n <= 3,
            total == height * width * n,
            total <= 3600,
            half == (Float32 { bits: 0x3f00_0000 }),
            priors@ == before + level_priors(level).take(k as int),
        decreases total - k,
    {
        let size = Float32::from_u64(sizes[(k % n) as usize]);
        let prior = Prior {
            cx: Float32::from_u64((k / n) % width).add(half).div(Float32::from_u64(width)),
            cy: Float32::from_u64(k / (width * n)).add(half).div(Float32::from_u64(height)),
            w: size.div(Float32::from_bits(0x43a0_0000)),
            h: size.div(Float32::from_bits(0x4370_0000)),
        };
        assert(prior == level_priors(level)[k as int]);
        priors.push(prior);
        k = k + 1;
        assert(priors@ =~= before + level_priors(level).take(k as int));
    }
    assert(level_priors(level).take(total as int) =~= level_priors(level));
}

/// The anchor grid: four levels over a 320 by 240 input. The network's box output is relative
/// to it.
pub fn priors() -> (r: Vec<Prior>)
    ensures
        r@ == prior_grid(),
        r@.len() == 4420,
{
    let mut all: Vec<Prior> = Vec::new();
    let fine: Vec<u64> = vec![10, 16, 24];
    let medium: Vec<u64> = vec![32, 48];
    let coarse: Vec<u64> = vec![64, 96];
    let largest: Vec<u64> = vec![128, 192, 256];
    assert(fine@ =~= anchor_sizes(0));
    assert(medium@ =~= anchor_sizes(1));
    assert(coarse@ =~= anchor_sizes(2));
    assert(largest@ =~= anchor_sizes(3));
    push_level(&mut all, 40, 30, &fine, Ghost(0));
    push_level(&mut all, 20, 15, &medium, Ghost(1));
    push_level(&mut all, 10, 8, &coarse, Ghost(2));
    push_level(&mut all, 5, 4, &largest, Ghost(3));
    proof {
        there_are_4420_anchors();
        assert(all@ =~= prior_grid());
    }
    all
}

/// The exponents whose exponentials scale the anchor's width and height.
pub open spec fn exponents(delta: BoxDelta) -> (Float32, Float32) {
    let v = Float32 { bits: SIZE_VARIANCE_BITS };
    (delta.dw.spec_mul(v), delta.dh.spec_mul(v))
}

/// The exponents whose exponentials scale the anchor's width and height.
pub fn size_exponents(delta: &BoxDelta) -> (r: (Float32, Float32))
    ensures
        r == exponents(*delta),
{
    let v = Float32::from_bits(SIZE_VARIANCE_BITS);
    (delta.dw.mul(v), delta.dh.mul(v))
}

/// The edges of an axis with the given center and extent.
pub open spec fn edges(center: Float32, extent: Float32) -> (Float32, Float32) {
    let half = extent.spec_div(Float32 { bits: 0x4000_0000 });
    (center.spec_sub(half), center.spec_add(half))
}

/// Where an anchor's center moves along an axis.
pub open spec fn moved_center(center: Float32, extent: Float32, delta: Float32) -> Float32 {
    delta.spec_mul(Float32 { bits: CENTER_VARIANCE_BITS }).spec_mul(extent).spec_add(center)
}

/// The box that `delta` makes of an anchor whose sides grow by `growth`.
pub open spec fn decoded(prior: Prior, delta: BoxDelta, growth: (Float32, Float32)) -> FaceBox {
    let x = edges(moved_center(prior.cx, prior.w, delta.dx), growth.0.spec_mul(prior.w));
    let y = edges(moved_center(prior.cy, prior.h, delta.dy), growth.1.spec_mul(prior.h));
    FaceBox { x1: x.0, y1: y.0, x2: x.1, y2: y.1 }
}

/// Turns what the network says of one anchor into a box. `growth` holds the exponentials of
/// the two `size_exponents`.
pub fn decode_box(prior: &Prior, delta: &BoxDelta, growth: (Float32, Float32)) -> (r: FaceBox)
    ensures
        r == decoded(*prior, *delta, growth),
{
    let v = Float32::from_bits(CENTER_VARIANCE_BITS);
    let two = Float32::from_bits(0x4000_0000);
    let cx = delta.dx.mul(v).mul(prior.w).add(prior.cx);
    let cy = delta.dy.mul(v).mul(prior.h).add(prior.cy);
    let half_w = growth.0.mul(prior.w).div(two);
    let half_h = growth.1.mul(prior.h).div(two);
    FaceBox { x1: cx.sub(half_w), y1: cy.sub(half_h), x2: cx.add(half_w), y2: cy.add(half_h) }
}

/// The network's face score for anchor `i`: the second of each pair of scores.
pub open spec fn face_score(scores: Seq<Float32>, i: int) -> Float32 {
    scores[2 * i + 1]
}

/// The first of the `n` first anchors with the highest score above zero, and that score;
/// anchor 0 with zero if there is none.
pub open spec fn best_anchor(scores: Seq<Float32>, n: int) -> (int, Float32)
    decreases n,
{
    if n <= 0 {
        (0, Float32 { bits: 0 })
    } else {
        let best = best_anchor(scores, n - 1);
        if best.1.spec_lt(face_score(scores, n - 1)) {
            (n - 1, face_score(scores, n - 1))
        } else {
            best
        }
    }
}

/// The anchor that shows a face: the best one, unless its score is below the threshold.
pub open spec fn face_anchor(scores: Seq<Float32>, threshold: Float32) -> Option<int> {
    let best = best_anchor(scores, scores.len() as int / 2);
    if best.1.spec_lt(threshold) {
        None
    } else {
        Some(best.0)
    }
}

/// The four numbers of the network's box output for anchor `i`.
pub open spec fn delta_at(boxes: Seq<Float32>, i: int) -> BoxDelta {
    BoxDelta { dx: boxes[4 * i], dy: boxes[4 * i + 1], dw: boxes[4 * i + 2], dh: boxes[4 * i + 3] }
}

/// What is decided about detections: which network runs, and which scores count.
#[derive(Clone, Copy, Debug, PartialEq, Eq, Structural)]
pub struct FaceDetector {
    pub backend: Backend,
    pub threshold: Float32,
}

/// A detected face, still relative to its anchor.
#[derive(Clone, Copy, Debug, PartialEq, Eq, Structural)]
pub struct Candidate {
    pub prior: Prior,
    pub delta: BoxDelta,
}

impl FaceDetector {
    /// A detector with the given score threshold. Fails for a backend that this build does
    /// not have.
    pub fn new(threshold: Float32, backend: &str) -> (r: Result<FaceDetector, FaceAuthError>)
        ensures
            match chosen_backend(backend@) {
                Some(b) => r matches Ok(d) && d.backend == b && d.threshold == threshold,
                None => r matches Err(e) && e is BackendUnavailable,
            },
    {
        match choose_backend(backend) {
            Ok(backend) => Ok(FaceDetector { backend, threshold }),
            Err(e) => Err(e),
        }
    }

    /// Finds the best face in the network's output: `scores` holds a pair per anchor, `boxes`
    /// four numbers per anchor.
    pub fn detect(&self, scores: &Vec<Float32>, boxes: &Vec<Float32>) -> (r: Option<Candidate>)
        requires
            face_anchor(scores@, self.threshold) matches Some(i) ==> i < 4420 && 4 * i + 4
                <= boxes@.len(),
        ensures
            match face_anchor(scores@, self.threshold) {
                None => r is None,
                Some(i) => r == Some(
                    Candidate { prior: prior_grid()[i], delta: delta_at(boxes@, i) },
                ),
            },
    {
        let n = scores.len() / 2;
        let mut best: usize = 0;
        let mut highest = Float32::from_bits(0);
        let mut i: usize = 0;
        while i < n
            invariant
                i <= n,
                n == scores@.len() / 2,
                n <= usize::MAX / 2,
                best <= i,
                (best as int, highest) == best_anchor(scores@, i as int),
            decreases n - i,
        {
            let score = scores[2 * i + 1];
            if highest.lt(score) {
                best = i;
                highest = score;
            }
            i = i + 1;
        }
        if highest.lt(self.threshold) {
            return None;
        }
        let all = priors();
        let delta = BoxDelta {
            dx: boxes[4 * best],
            dy: boxes[4 * best + 1],
            dw: boxes[4 * best + 2],
            dh: boxes[4 * best + 3],
        };
        Some(Candidate { prior: all[best], delta })
    }

    /// The network's input for a frame: resized to 320 by 240 and normalized.
    pub fn input(&self, frame: &IrFrame) -> (r: Vec<Float32>)
        requires
            frame.width * frame.height <= u32::MAX,
            frame.width * 240 * 16 <= isize::MAX,
        ensures
            exists|pixels: Seq<u16>|
                #[trigger] resized_pixels(*frame, 320, 240, pixels) && r@ == detector_input(
                    Seq::new(3 * pixels.len(), |i: int| eight_bit(pixels[i / 3]) as u8),
                ),
    {
        preprocess_for_detector(frame)
    }
}

/// The network's number for a channel: `(level - 127) / 128`.
pub open spec fn detector_value(level: u8) -> Float32 {
    Float32::spec_from_u64(level as u64).spec_sub(Float32 { bits: 0x42fe_0000 }).spec_div(
        Float32 { bits: 0x4300_0000 },
    )
}

/// The network's input for 320 by 240 pixels of three channels each: one plane per channel.
pub open spec fn detector_input(rgb: Seq<u8>) -> Seq<Float32> {
    Seq::new(3 * 76800, |i: int| detector_value(rgb[3 * (i % 76800) + i / 76800]))
}

/// Normalizes 320 by 240 color pixels for the network, one plane per channel.
pub fn normalize_for_detector(rgb: &Vec<u8>) -> (r: Vec<Float32>)
    requires
        rgb@.len() == 230400,
    ensures
        r@ == detector_input(rgb@),
{
    let middle = Float32::from_bits(0x42fe_0000);
    let range = Float32::from_bits(0x4300_0000);
    let mut planes: Vec<Float32> = Vec::new();
    let mut i: usize = 0;
    while i < 230400
        invariant
            i <= 230400,
            rgb@.len() == 230400,
            middle == (Float32 { bits: 0x42fe_0000 }),
            range == (Float32 { bits: 0x4300_0000 }),
            planes@ == detector_input(rgb@).take(i as int),
        decreases 230400 - i,
    {
        let level: u8 = rgb[3 * (i % 76800) + i / 76800];
        planes.push(Float32::from_u64(level as u64).sub(middle).div(range));
        i = i + 1;
        assert(planes@ =~= detector_input(rgb@).take(i as int));
    }
    assert(planes@ =~= detector_input(rgb@));
    planes
}

/// The network's input for a frame: resized to 320 by 240 and normalized. Pixels without a
/// sample count as black.
pub fn preprocess_for_detector(frame: &IrFrame) -> (r: Vec<Float32>)
    requires
        frame.width * frame.height <= u32::MAX,
        frame.width * 240 * 16 <= isize::MAX,
    ensures
        exists|pixels: Seq<u16>|
            #[trigger] resized_pixels(*frame, 320, 240, pixels) && r@ == detector_input(
                Seq::new(3 * pixels.len(), |i: int| eight_bit(pixels[i / 3]) as u8),
            ),
{
    let pixels = resize_frame(frame, 320, 240);
    let rgb = to_rgb8(&pixels, 320, 240);
    assert(rgb@ =~= Seq::new(3 * pixels@.len(), |i: int| eight_bit(pixels@[i / 3]) as u8));
    normalize_for_detector(&rgb)
}

} // verus!
