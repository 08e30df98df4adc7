//! Resizing frames and turning them into the pixels that the networks take.
use crate::capture::IrFrame;
use crate::float32::Float32;
use vstd::prelude::*;

verus! {

/// Whether resizing a gray image of `width` by `height` pixels with the Lanczos filter to
/// `to_width` by `to_height` may give the pixels `out`. The filter weights come from a sine
/// whose last bit differs between machines, so there can be more than one such outcome.
pub uninterp spec fn lanczos_outcome(
    data: Seq<u16>,
    width: u32,
    height: u32,
    to_width: u32,
    to_height: u32,
    out: Seq<u16>,
) -> bool;

/// `image::DynamicImage::resize_exact` with `FilterType::Lanczos3` on a 16-bit gray image. The
/// result has the requested size and is an outcome of that resize for exactly these pixels
/// and sizes. An image that already has that size is copied, and one without pixels gives
/// black. Nothing is claimed of the interpolated values themselves. The intermediate image
/// holds four 32-bit channels per pixel and must be allocatable.
#[verifier::external_body]
fn resize_exact(data: &Vec<u16>, width: u32, height: u32, to_width: u32, to_height: u32) -> (r: Vec<
    u16,
>)
    requires
        data@.len() == width * height,
        0 < to_width,
        0 < to_height,
        to_width * to_height <= 0x2_0000,
        width * to_height * 16 <= isize::MAX,
    ensures
        r@.len() == to_width * to_height,
        lanczos_outcome(data@, width, height, to_width, to_height, r@),
        width == to_width && height == to_height ==> r@ == data@,
        data@.len() == 0 ==> forall|i: int| 0 <= i < r@.len() ==> #[trigger] r@[i] == 0,
{
    let pixels: image::ImageBuffer<image::Luma<u16>, Vec<u16>> = image::ImageBuffer::from_raw(
        width,
        height,
        data.clone(),
    ).unwrap();
    let filter = image::imageops::FilterType::Lanczos3;
    image::DynamicImage::ImageLuma16(pixels).resize_exact(to_width, to_height, filter).to_luma16().into_raw()
}

/// The 8-bit level of a 16-bit sample: scaled to one by a multiplication with the rounded
/// reciprocal, then to 255, then rounded.
pub open spec fn eight_bit(sample: u16) -> int {
    let reciprocal = (Float32 { bits: 0x3f80_0000 }).spec_div(Float32 { bits: 0x477f_ff00 });
    Float32::spec_from_u64(sample as u64).spec_mul(reciprocal).spec_mul(
        Float32 { bits: 0x437f_0000 },
    ).spec_round_to_u32() as int
}

/// `image::DynamicImage::to_rgb8` on a 16-bit gray image: every pixel becomes three equal
/// channels, each the pixel's 8-bit level.
#[verifier::external_body]
pub(crate) fn to_rgb8(data: &Vec<u16>, width: u32, height: u32) -> (r: Vec<u8>)
    requires
        data@.len() == width * height,
        width * height <= 0x2_0000,
    ensures
        r@.len() == 3 * data@.len(),
        forall|i: int| 0 <= i < r@.len() ==> #[trigger] r@[i] == eight_bit(data@[i / 3]),
{
    let pixels: image::ImageBuffer<image::Luma<u16>, Vec<u16>> = image::ImageBuffer::from_raw(
        width,
        height,
        data.clone(),
    ).unwrap();
    image::DynamicImage::ImageLuma16(pixels).to_rgb8().into_raw()
}

/// The samples of all pixels, row by row, with 0 where the frame has none.
pub open spec fn pixel_grid(frame: IrFrame) -> Seq<u16> {
    Seq::new(
        (frame.width * frame.height) as nat,
        |i: int|
            if i < frame.data@.len() {
                frame.data@[i]
            } else {
                0
            },
    )
}

/// One sample per pixel: surplus samples are dropped, missing ones are 0.
fn fill_grid(frame: &IrFrame) -> (r: Vec<u16>)
    requires
        frame.width * frame.height <= u32::MAX,
    ensures
        r@ == pixel_grid(*frame),
{
    let size: usize = (frame.width * frame.height) as usize;
    let mut grid: Vec<u16> = Vec::new();
    let mut i: usize = 0;
    while i < size
        invariant
            i <= size,
            size == frame.width * frame.height,
            grid@ == pixel_grid(*frame).take(i as int),
        decreases size - i,
    {
        let sample: u16 = if i < frame.data.len() {
            frame.data[i]
        } else {
            0
        };
        grid.push(sample);
        i = i + 1;
        assert(grid@ =~= pixel_grid(*frame).take(i as int));
    }
    assert(grid@ =~= pixel_grid(*frame));
    grid
}

/// Whether `pixels` may be the frame's pixels after a resize: an outcome of the resize of the
/// frame's pixel grid, the grid itself where the size does not change, and black where the
/// frame has no pixels.
pub open spec fn resized_pixels(
    frame: IrFrame,
    to_width: u32,
    to_height: u32,
    pixels: Seq<u16>,
) -> bool {
    &&& pixels.len() == to_width * to_height
    &&& lanczos_outcome(
        pixel_grid(frame),
        frame.width,
        frame.height,
        to_width,
        to_height,
        pixels,
    )
    &&& frame.width == to_width && frame.height == to_height ==> pixels == pixel_grid(frame)
    &&& frame.width * frame.height == 0 ==> forall|i: int|
        0 <= i < pixels.len() ==> #[trigger] pixels[i] == 0
}

/// The frame's pixels, resized.
pub(crate) fn resize_frame(frame: &IrFrame, to_width: u32, to_height: u32) -> (r: Vec<u16>)
    requires
        frame.width * frame.height <= u32::MAX,
        0 < to_width,
        0 < to_height,
        to_width * to_height <= 0x2_0000,
        frame.width * to_height * 16 <= isize::MAX,
    ensures
        resized_pixels(*frame, to_width, to_height, r@),
{
    let grid = fill_grid(frame);
    resize_exact(&grid, frame.width, frame.height, to_width, to_height)
}

} // verus!
