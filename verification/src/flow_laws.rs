//! What single frames lead to in scans, enrollments and single attempts.
use crate::auth::{
    cropped_from, detection_input, once_step, recognition_input, FaceAuth, OnceEvent, OnceStep,
    FACE_CROP_MARGIN_BITS,
};
use crate::capture::IrFrame;
use crate::detector::{detector_input, FaceBox};
use crate::enroll::{enroll_step, time_allowed_ms, EnrollAction, EnrollEvent, Enrollment};
use crate::equalize::{tile_count, CLAHE_TILES_X, CLAHE_TILES_Y};
use crate::float32::{one, steps, Float32};
use crate::float_laws::distance;
use crate::inference::norm;
use crate::pixel_laws::{
    detector_planes_show_the_channels, eight_bit_levels_are_nearest,
    encoder_planes_show_the_picture, samples_stand_row_by_row,
};
use crate::preprocess::{crop_window, encoder_input, sample_at};
use crate::resample::{eight_bit, pixel_grid, resized_pixels};
use crate::scan::{scan_step, Scan, ScanAction, ScanEvent};
use crate::similarity_laws::embeddings_are_scaled_outputs;
use crate::storage::EmbeddingStore;
use crate::variance_laws::{
    bright_places, dark_places, even_frames_show_nothing, split_frames_show_content,
};
use vstd::arithmetic::power2::*;
use vstd::prelude::*;

verus! {

/// All samples of a frame lie within 600 of each other.
pub open spec fn even(frame: IrFrame) -> bool {
    &&& frame.data@.len() <= 0x18_0000
    &&& forall|i: int, j: int|
        0 <= i < frame.data@.len() && 0 <= j < frame.data@.len() ==> #[trigger] frame.data@[i]
            - #[trigger] frame.data@[j] <= 600
}

/// A quarter of the samples of a frame are dark, a quarter are bright, and at least 1800 lies
/// between them.
pub open spec fn contrasted(frame: IrFrame, low: int, high: int) -> bool {
    let n = frame.data@.len() as int;
    &&& 0 < n <= 0x80_0000
    &&& high - low >= 1800
    &&& 4 * dark_places(frame.data@, low, n).len() >= n
    &&& 4 * bright_places(frame.data@, high, n).len() >= n
}

/// A scan passes over even frames and looks for a face in contrasted ones.
pub proof fn scans_look_at_contrasted_frames(
    auth: FaceAuth,
    before: Scan,
    store: EmbeddingStore,
    raw: IrFrame,
    now_ns: u128,
    after: Scan,
    action: ScanAction,
    low: int,
    high: int,
)
    requires
        scan_step(auth, before, store, ScanEvent::Captured(raw), now_ns, after, action),
    ensures
        even(raw) ==> action is Sleep && after.pending is None,
        contrasted(raw, low, high) ==> action is Detect && (after.pending matches Some(frame)
            && frame.width == raw.width && frame.height == raw.height),
{
    if even(raw) {
        even_frames_show_nothing(raw.data@);
    }
    if contrasted(raw, low, high) {
        split_frames_show_content(raw.data@, low, high);
    }
}

/// An enrollment captures again after even frames, without counting them, and looks for a face
/// in contrasted ones.
pub proof fn enrollments_look_at_contrasted_frames(
    before: Enrollment,
    raw: IrFrame,
    now_ns: u128,
    after: Enrollment,
    action: EnrollAction,
    low: int,
    high: int,
)
    requires
        enroll_step(before, EnrollEvent::Captured(raw), now_ns, after, action),
    ensures
        even(raw) ==> action == EnrollAction::Sleep(before.retry_delay_ms),
        contrasted(raw, low, high) ==> action is Detect,
        after.captured == before.captured,
        after.store == before.store,
{
    if even(raw) {
        even_frames_show_nothing(raw.data@);
    }
    if contrasted(raw, low, high) {
        split_frames_show_content(raw.data@, low, high);
    }
}

/// A single attempt fails for want of a face on an even frame, and looks for one in a contrasted
/// one.
pub proof fn single_attempts_look_at_contrasted_frames(
    store: EmbeddingStore,
    threshold: Float32,
    raw: IrFrame,
    step: OnceStep,
    low: int,
    high: int,
)
    requires
        once_step(OnceEvent::Captured(raw), store, threshold, step),
    ensures
        even(raw) ==> (step matches OnceStep::Failed(e) && e is NoFaceDetected),
        contrasted(raw, low, high) ==> step is Detect,
{
    if even(raw) {
        even_frames_show_nothing(raw.data@);
    }
    if contrasted(raw, low, high) {
        split_frames_show_content(raw.data@, low, high);
    }
}

/// The third capture in a row that fails ends a scan, whatever pauses lie between them; the first
/// two do not.
pub proof fn the_third_failed_capture_ends_the_scan(
    auth: FaceAuth,
    store: EmbeddingStore,
    states: Seq<Scan>,
    times: Seq<u128>,
    actions: Seq<ScanAction>,
)
    requires
        states.len() == 6,
        times.len() == 5,
        actions.len() == 5,
        states[0].errors == 0,
        scan_step(
            auth,
            states[0],
            store,
            ScanEvent::CaptureFailed,
            times[0],
            states[1],
            actions[0],
        ),
        scan_step(auth, states[1], store, ScanEvent::Resumed, times[1], states[2], actions[1]),
        scan_step(
            auth,
            states[2],
            store,
            ScanEvent::CaptureFailed,
            times[2],
            states[3],
            actions[2],
        ),
        scan_step(auth, states[3], store, ScanEvent::Resumed, times[3], states[4], actions[3]),
        scan_step(
            auth,
            states[4],
            store,
            ScanEvent::CaptureFailed,
            times[4],
            states[5],
            actions[4],
        ),
    ensures
        actions[0] is Sleep,
        actions[2] is Sleep,
        actions[4] is GaveUp,
{
}

/// What an enrollment stores for a face is the network's output, scaled to unit length: each
/// number times the output's length is the output's number, up to rounding.
pub proof fn enrolled_embeddings_are_scaled_outputs(
    before: Enrollment,
    output: Vec<Float32>,
    now_ns: u128,
    after: Enrollment,
    action: EnrollAction,
    i: int,
)
    requires
        enroll_step(before, EnrollEvent::Encoded(output), now_ns, after, action),
        0 <= i < output@.len(),
        output@[i].is_finite(),
        norm(output@).is_finite(),
        !norm(output@).is_negative(),
        norm(output@).abs_steps() > 0,
        output@[i].abs_steps() * one() <= norm(output@).abs_steps() * (0x100_0000_0000 * one()),
    ensures
        ({
            let added = after.store@.1.last();
            &&& added.len() == output@.len()
            &&& 0x100_0000 * distance(
                norm(output@).signed_steps() * added[i].signed_steps(),
                output@[i].signed_steps() * one(),
            ) <= output@[i].abs_steps() * one() + 0x80_0000 * norm(output@).signed_steps()
        }),
{
    embeddings_are_scaled_outputs(output@, i);
}

/// The time for an enrollment grows with every frame by the interval and by fifty times the delay
/// between retries.
pub proof fn enrollment_time_grows_with_the_frames(
    frames: usize,
    interval_ms: u64,
    retry_delay_ms: u64,
)
    requires
        frames < usize::MAX,
    ensures
        time_allowed_ms(0, interval_ms, retry_delay_ms) == 0,
        time_allowed_ms((frames + 1) as usize, interval_ms, retry_delay_ms) == time_allowed_ms(
            frames,
            interval_ms,
            retry_delay_ms,
        ) + interval_ms + 50 * retry_delay_ms,
{
    let round = interval_ms + retry_delay_ms * 50;
    assert((frames + 1) * round == frames * round + round && 0 * round == 0) by (nonlinear_arith);
}

/// A side of a frame has eight tiles, or as many as pixels where these are fewer.
pub proof fn sides_have_eight_tiles(dim: u32)
    ensures
        tile_count(CLAHE_TILES_X, dim) <= 8,
        tile_count(CLAHE_TILES_X, dim) <= dim,
        tile_count(CLAHE_TILES_X, dim) == 8 || tile_count(CLAHE_TILES_X, dim) == dim,
        tile_count(CLAHE_TILES_Y, dim) == tile_count(CLAHE_TILES_X, dim),
{
}

/// The margin around a face is three tenths of its size, up to rounding.
pub proof fn margins_are_three_tenths()
    ensures
        0x10_0000 * distance(
            10 * (Float32 { bits: FACE_CROP_MARGIN_BITS }).signed_steps(),
            3 * one() as int,
        ) <= one(),
{
    let m = Float32 { bits: FACE_CROP_MARGIN_BITS };
    lemma_pow2_adds(25, 124);
    lemma_pow2_pos(124);
    lemma2_to64();
    assert(m.magnitude() == 0x3e99_999a);
    assert(steps(0x3e99_999a) == 0x99_999a * pow2(124));
}

/// The detection network sees a frame of its own size as it is: in each of the three planes, the
/// number at a pixel is a 128th of how far the nearest level of its sample is from 127.
pub proof fn frames_of_the_detectors_size_are_seen_as_they_are(
    frame: IrFrame,
    input: Seq<Float32>,
    plane: int,
    k: int,
)
    requires
        frame.width == 320,
        frame.height == 240,
        frame.data@.len() >= 320 * 240,
        detection_input(frame, input),
        0 <= plane < 3,
        0 <= k < 320 * 240,
    ensures
        input.len() == 3 * 320 * 240,
        128 * input[plane * 320 * 240 + k].signed_steps() == ((frame.data@[k] + 128) / 257 - 127)
            * one(),
{
    let pixels = choose|pixels: Seq<u16>|
        #[trigger] resized_pixels(frame, 320, 240, pixels) && input == detector_input(
            Seq::new(3 * pixels.len(), |i: int| eight_bit(pixels[i / 3]) as u8),
        );
    let rgb = Seq::new(3 * pixels.len(), |i: int| eight_bit(pixels[i / 3]) as u8);
    assert(pixels == pixel_grid(frame));
    assert(pixels[k] == frame.data@[k]);
    detector_planes_show_the_channels(rgb, plane, k);
    eight_bit_levels_are_nearest(pixels[k]);
    let i = 3 * k + plane;
    assert(i / 3 == k);
    assert(rgb[i] == eight_bit(pixels[k]) as u8);
}

/// The recognition network sees a crop of its own size as it is: the crop begins where the window
/// around the face does, and in each of the three planes the number at a pixel lies as far between
/// -1 and 1 as the frame's sample there between black and white.
pub proof fn crops_of_the_encoders_size_are_seen_as_they_are(
    frame: IrFrame,
    face_box: FaceBox,
    input: Seq<Float32>,
    plane: int,
    x: int,
    y: int,
)
    requires
        recognition_input(frame, face_box, input),
        ({
            let margin = Float32 { bits: FACE_CROP_MARGIN_BITS };
            let ((x1, x2), (y1, y2)) = crop_window(frame.width, frame.height, face_box, margin);
            x2 - x1 == 112 && y2 - y1 == 112
        }),
        0 <= plane < 3,
        0 <= x < 112,
        0 <= y < 112,
    ensures
        ({
            let margin = Float32 { bits: FACE_CROP_MARGIN_BITS };
            let ((x1, x2), (y1, y2)) = crop_window(frame.width, frame.height, face_box, margin);
            let sample = frame.data@[x1 + x + frame.width * (y1 + y)];
            &&& input.len() == 3 * 112 * 112
            &&& 0x10_0000 * distance(
                65535 * input[plane * 112 * 112 + 112 * y + x].signed_steps(),
                (2 * sample - 65535) * one(),
            ) <= 65535 * one()
        }),
{
    let margin = Float32 { bits: FACE_CROP_MARGIN_BITS };
    let ((x1, x2), (y1, y2)) = crop_window(frame.width, frame.height, face_box, margin);
    let (crop, pixels) = choose|crop: IrFrame, pixels: Seq<u16>|
        cropped_from(frame, face_box, crop) && #[trigger] resized_pixels(crop, 112, 112, pixels)
            && input == encoder_input(pixels);
    assert(pixels == pixel_grid(crop));
    let k = 112 * y + x;
    samples_stand_row_by_row(crop.data@, crop.width, x, y);
    samples_stand_row_by_row(frame.data@, frame.width, x1 + x, y1 + y);
    assert(sample_at(crop.data@, crop.width, x, y) == sample_at(
        frame.data@,
        frame.width,
        x1 + x,
        y1 + y,
    ));
    assert(crop.data@.len() == 112 * 112);
    assert(pixels[k] == crop.data@[k]);
    encoder_planes_show_the_picture(pixels, plane, k);
}

} // verus!
