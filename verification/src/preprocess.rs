//! Image preparation: cropping to the face, the encoder's input and motion between frames.
pub use crate::equalize::clahe;
use crate::capture::IrFrame;
use crate::detector::FaceBox;
use crate::float32::Float32;
use crate::resample::{resize_frame, resized_pixels};
use vstd::prelude::*;

verus! {

/// How far apart two samples of one pixel must lie to count as motion: about 2.3% of the range.
pub const PER_PIXEL_NOISE_FLOOR: i32 = 1500;

pub open spec fn zero() -> Float32 {
    Float32 { bits: 0 }
}

pub open spec fn unit() -> Float32 {
    Float32 { bits: 0x3f80_0000 }
}

pub open spec fn half_of(x: Float32) -> Float32 {
    x.spec_div(Float32 { bits: 0x4000_0000 })
}

/// One side of a face along an axis of `size` pixels: its edges in pixels, and the edges
/// pushed out by the margin.
pub open spec fn expanded(first: Float32, second: Float32, size: Float32, margin: Float32) -> (
    Float32,
    Float32,
) {
    let a = first.spec_mul(size).spec_clamp(zero(), size);
    let b = second.spec_mul(size).spec_clamp(zero(), size);
    let m = b.spec_sub(a).spec_max(unit()).spec_mul(margin);
    (a.spec_sub(m), b.spec_add(m))
}

/// The side of the square that covers the expanded face, no larger than the frame.
pub open spec fn square_side(
    x: (Float32, Float32),
    y: (Float32, Float32),
    width: Float32,
    height: Float32,
) -> Float32 {
    x.1.spec_sub(x.0).spec_max(y.1.spec_sub(y.0)).spec_min(width.spec_min(height))
}

/// A window of `side` around the middle of `edges`, shifted into an axis of `size` pixels
/// rather than cut off.
pub open spec fn shifted(edges: (Float32, Float32), side: Float32, size: Float32) -> (
    Float32,
    Float32,
) {
    let center = half_of(edges.0.spec_add(edges.1));
    let a = center.spec_sub(half_of(side));
    let b = center.spec_add(half_of(side));
    let (a, b) = if a.spec_lt(zero()) {
        (zero(), b.spec_sub(a))
    } else {
        (a, b)
    };
    let (a, b) = if size.spec_lt(b) {
        (a.spec_sub(b.spec_sub(size)), size)
    } else {
        (a, b)
    };
    (a.spec_clamp(zero(), size), b.spec_clamp(zero(), size))
}

/// The whole pixels `[start, end)` of a window: at least one where the axis has room for it.
pub open spec fn whole_pixels(edges: (Float32, Float32), size: u32) -> (int, int) {
    let start = edges.0.spec_round_to_u32() as int;
    let end = edges.1.spec_round_to_u32() as int;
    let end = if end < start + 1 {
        start + 1
    } else {
        end
    };
    (
        start,
        if end < size {
            end
        } else {
            size as int
        },
    )
}

/// The crop of a face in a frame of the given size: columns `[x1, x2)` and rows `[y1, y2)`.
pub open spec fn crop_window(width: u32, height: u32, face_box: FaceBox, margin: Float32) -> (
    (int, int),
    (int, int),
) {
    let w = Float32::spec_from_u64(width as u64);
    let h = Float32::spec_from_u64(height as u64);
    let x = expanded(face_box.x1, face_box.x2, w, margin);
    let y = expanded(face_box.y1, face_box.y2, h, margin);
    let side = square_side(x, y, w, h);
    (whole_pixels(shifted(x, side, w), width), whole_pixels(shifted(y, side, h), height))
}

/// Rounding the length of an axis to single precision does not make it longer, so that a
/// position clamped to it is no further than its end. So it is for every axis of up to 2^24
/// pixels.
pub open spec fn holds_its_positions(size: u32) -> bool {
    Float32::spec_from_u64(size as u64).spec_round_to_u32() <= size
}

/// The window lies in the frame and its rows are there.
pub open spec fn crop_fits(frame: IrFrame, window: ((int, int), (int, int))) -> bool {
    let ((x1, x2), (y1, y2)) = window;
    &&& x1 < u32::MAX
    &&& y1 < u32::MAX
    &&& x1 <= x2
    &&& y1 <= y2
    &&& (x2 - x1) * (y2 - y1) <= u32::MAX
    &&& y1 < y2 ==> {
        &&& (y2 - 1) * frame.width + x1 <= u32::MAX
        &&& (y2 - 1) * frame.width + x2 <= frame.data@.len()
    }
}

/// The sample of `frame` at column `x` and row `y`.
pub open spec fn sample_at(data: Seq<u16>, width: u32, x: int, y: int) -> u16 {
    data[y * width + x]
}

/// One axis of the crop: the face's edges pushed out by the margin.
fn expand(first: Float32, second: Float32, size: Float32, margin: Float32) -> (r: (
    Float32,
    Float32,
))
    ensures
        r == expanded(first, second, size, margin),
{
    let zero = Float32::from_bits(0);
    let a = first.mul(size).clamp(zero, size);
    let b = second.mul(size).clamp(zero, size);
    let extent = b.sub(a).max(Float32::from_bits(0x3f80_0000));
    let m = extent.mul(margin);
    (a.sub(m), b.add(m))
}

/// One axis of the crop: a window of `side`, shifted into the frame.
fn shift(edges: (Float32, Float32), side: Float32, size: Float32) -> (r: (Float32, Float32))
    ensures
        r == shifted(edges, side, size),
{
    let zero = Float32::from_bits(0);
    let two = Float32::from_bits(0x4000_0000);
    let center = edges.0.add(edges.1).div(two);
    let mut a = center.sub(side.div(two));
    let mut b = center.add(side.div(two));
    if a.lt(zero) {
        b = b.sub(a);
        a = zero;
    }
    if size.lt(b) {
        a = a.sub(b.sub(size));
        b = size;
    }
    (a.clamp(zero, size), b.clamp(zero, size))
}

/// Crops a frame to a face, expanded by `margin` (a fraction of the box's own size on each
/// side) and widened to a square. The window is shifted into the frame rather than cut off, so
/// that a face near an edge still gets a full-size crop.
pub fn crop_to_face(frame: &IrFrame, face_box: &FaceBox, margin: Float32) -> (r: IrFrame)
    requires
        crop_fits(*frame, crop_window(frame.width, frame.height, *face_box, margin)),
    ensures
        ({
            let ((x1, x2), (y1, y2)) = crop_window(
                frame.width,
                frame.height,
                *face_box,
                margin,
            );
            &&& r.width == x2 - x1
            &&& r.height == y2 - y1
            &&& r.data@.len() == r.width * r.height
            &&& forall|x: int, y: int|
                0 <= x < r.width && 0 <= y < r.height ==> #[trigger] sample_at(
                    r.data@,
                    r.width,
                    x,
                    y,
                ) == sample_at(frame.data@, frame.width, x1 + x, y1 + y)
        }),
{
    let width = Float32::from_u64(frame.width as u64);
    let height = Float32::from_u64(frame.height as u64);
    let ex = expand(face_box.x1, face_box.x2, width, margin);
    let ey = expand(face_box.y1, face_box.y2, height, margin);
    let side = ex.1.sub(ex.0).max(ey.1.sub(ey.0)).min(width.min(height));
    let sx = shift(ex, side, width);
    let sy = shift(ey, side, height);
    let ghost window = crop_window(frame.width, frame.height, *face_box, margin);
    let x1: u32 = sx.0.round_to_u32();
    let y1: u32 = sy.0.round_to_u32();
    assert(x1 == window.0.0 && y1 == window.1.0);
    let x2: u32 = at_least(sx.1.round_to_u32(), x1 + 1, frame.width);
    let y2: u32 = at_least(sy.1.round_to_u32(), y1 + 1, frame.height);
    assert(window == ((x1 as int, x2 as int), (y1 as int, y2 as int)));
    let crop_width: u32 = x2 - x1;
    let crop_height: u32 = y2 - y1;
    let mut data: Vec<u16> = Vec::new();
    let mut y: u32 = y1;
    while y < y2
        invariant
            y1 <= y <= y2,
            x1 <= x2,
            crop_width == x2 - x1,
            y1 < y2 ==> (y2 - 1) * frame.width + x1 <= u32::MAX,
            y1 < y2 ==> (y2 - 1) * frame.width + x2 <= frame.data@.len(),
            data@.len() == (y - y1) * crop_width,
            forall|i: int, j: int|
                0 <= i < crop_width && 0 <= j < y - y1 ==> #[trigger] sample_at(
                    data@,
                    crop_width,
                    i,
                    j,
                ) == sample_at(frame.data@, frame.width, x1 + i, y1 + j),
        decreases y2 - y,
    {
        proof {
            assert(y * frame.width <= (y2 - 1) * frame.width) by (nonlinear_arith)
                requires
                    y <= y2 - 1,
            ;
        }
        let row_start: usize = (y * frame.width + x1) as usize;
        let ghost before = data@;
        append_row(&mut data, &frame.data, row_start, crop_width as usize);
        proof {
            assert((y + 1 - y1) * crop_width == (y - y1) * crop_width + crop_width)
                by (nonlinear_arith);
            assert forall|i: int, j: int|
                0 <= i < crop_width && 0 <= j < y + 1 - y1 implies #[trigger] sample_at(
                data@,
                crop_width,
                i,
                j,
            ) == sample_at(frame.data@, frame.width, x1 + i, y1 + j) by {
                if j < y - y1 {
                    lemma_in_rows(i, j, crop_width as int, y - y1);
                    assert(sample_at(before, crop_width, i, j) == sample_at(
                        frame.data@,
                        frame.width,
                        x1 + i,
                        y1 + j,
                    ));
                }
            }
        }
        y = y + 1;
    }
    proof {
        vstd::arithmetic::mul::lemma_mul_is_commutative(crop_width as int, crop_height as int);
    }
    IrFrame { data, width: crop_width, height: crop_height }
}

/// `x`, but at least `low`, and then at most `high`.
fn at_least(x: u32, low: u32, high: u32) -> (r: u32)
    ensures
        r == {
            let raised = if x < low {
                low
            } else {
                x
            };
            if raised < high {
                raised
            } else {
                high
            }
        },
{
    let raised: u32 = if x < low {
        low
    } else {
        x
    };
    if raised < high {
        raised
    } else {
        high
    }
}

proof fn lemma_in_rows(i: int, j: int, width: int, rows: int)
    requires
        0 <= i < width,
        0 <= j < rows,
    ensures
        0 <= j * width + i < rows * width,
{
    assert(0 <= j * width && j * width + width <= rows * width) by (nonlinear_arith)
        requires
            0 <= j < rows,
            0 < width,
    ;
}

/// Appends `count` samples of `source`, from `start` on.
fn append_row(data: &mut Vec<u16>, source: &Vec<u16>, start: usize, count: usize)
    requires
        start + count <= source@.len(),
    ensures
        final(data)@ == old(data)@ + source@.subrange(start as int, start + count),
{
    let ghost before = data@;
    let mut i: usize = 0;
    while i < count
        invariant
            i <= count,
            start + count <= source.len(),
            data@ == before + source@.subrange(start as int, start + i),
        decreases count - i,
    {
        data.push(source[start + i]);
        i = i + 1;
        assert(data@ =~= before + source@.subrange(start as int, start + i));
    }
}

/// The encoder's number for a pixel: `(pixel / 65535 - 0.5) / 0.5`.
pub open spec fn encoder_value(pixel: u16) -> Float32 {
    let half = Float32 { bits: 0x3f00_0000 };
    Float32::spec_from_u64(pixel as u64).spec_div(Float32 { bits: 0x477f_ff00 }).spec_sub(
        half,
    ).spec_div(half)
}

/// The encoder's input for 112 by 112 pixels: three equal planes, row by row.
pub open spec fn encoder_input(pixels: Seq<u16>) -> Seq<Float32> {
    Seq::new(3 * 12544, |i: int| encoder_value(pixels[i % 12544]))
}

/// Normalizes 112 by 112 pixels for the encoder: three equal planes with values from -1 to 1.
pub fn normalize_for_encoder(pixels: &Vec<u16>) -> (r: Vec<Float32>)
    requires
        pixels@.len() == 12544,
    ensures
        r@ == encoder_input(pixels@),
{
    let half = Float32::from_bits(0x3f00_0000);
    let full = Float32::from_bits(0x477f_ff00);
    let mut planes: Vec<Float32> = Vec::new();
    let mut i: usize = 0;
    while i < 3 * 12544
        invariant
            i <= 3 * 12544,
            pixels@.len() == 12544,
            half == (Float32 { bits: 0x3f00_0000 }),
            full == (Float32 { bits: 0x477f_ff00 }),
            planes@ == encoder_input(pixels@).take(i as int),
        decreases 3 * 12544 - i,
    {
        let pixel = Float32::from_u64(pixels[i % 12544] as u64).div(full);
        planes.push(pixel.sub(half).div(half));
        i = i + 1;
        assert(planes@ =~= encoder_input(pixels@).take(i as int));
    }
    assert(planes@ =~= encoder_input(pixels@));
    planes
}

/// Turns a cropped frame into the encoder's input: resized to 112 by 112 pixels and
/// normalized. Pixels without a sample count as black.
pub fn preprocess_ir_frame(frame: &IrFrame) -> (r: Vec<Float32>)
    requires
        frame.width * frame.height <= u32::MAX,
        frame.width * 112 * 16 <= isize::MAX,
    ensures
        exists|pixels: Seq<u16>|
            #[trigger] resized_pixels(*frame, 112, 112, pixels) && r@ == encoder_input(pixels),
{
    let pixels = resize_frame(frame, 112, 112);
    normalize_for_encoder(&pixels)
}

/// Fraction of pixels that changed by more than the noise floor between two frames of one
/// size: the liveness signal. Frames of different sizes show no motion.
pub open spec fn motion_fraction(a: IrFrame, b: IrFrame) -> Float32 {
    if a.width != b.width || a.height != b.height || a.data@.len() != b.data@.len()
        || a.data@.len() == 0 {
        zero()
    } else {
        Float32::spec_from_u64(changed_pixels(a.data@, b.data@, a.data@.len() as int) as u64).spec_div(
            Float32::spec_from_u64(a.data@.len() as u64),
        )
    }
}

/// Whether a pixel changed by more than the noise floor.
pub open spec fn moved(x: u16, y: u16) -> bool {
    x - y > PER_PIXEL_NOISE_FLOOR || y - x > PER_PIXEL_NOISE_FLOOR
}

/// How many of the first `n` pixels changed.
pub open spec fn changed_pixels(a: Seq<u16>, b: Seq<u16>, n: int) -> nat
    decreases n,
{
    if n <= 0 {
        0
    } else {
        changed_pixels(a, b, n - 1) + (if moved(a[n - 1], b[n - 1]) {
            1nat
        } else {
            0
        })
    }
}

/// Fraction of pixels that changed by more than a noise floor between two equalized frames. A
/// rigidly held photo produces almost no motion, while a real face has natural micro-motion.
/// Counting changed pixels keeps small, local motion from drowning in a static background.
pub fn frame_motion_fraction(a: &IrFrame, b: &IrFrame) -> (r: Float32)
    ensures
        r == motion_fraction(*a, *b),
{
    if a.width != b.width || a.height != b.height || a.data.len() != b.data.len()
        || a.data.len() == 0 {
        return Float32::from_bits(0);
    }
    let mut changed: u64 = 0;
    let mut i: usize = 0;
    while i < a.data.len()
        invariant
            i <= a.data@.len(),
            a.data@.len() == b.data@.len(),
            changed == changed_pixels(a.data@, b.data@, i as int),
            changed <= i,
        decreases a.data@.len() - i,
    {
        let difference: i32 = a.data[i] as i32 - b.data[i] as i32;
        if difference > PER_PIXEL_NOISE_FLOOR || -difference > PER_PIXEL_NOISE_FLOOR {
            changed = changed + 1;
        }
        i = i + 1;
    }
    Float32::from_u64(changed).div(Float32::from_u64(a.data.len() as u64))
}

} // verus!
