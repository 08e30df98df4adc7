//! What holds of every dialogue with a camera's driver.
use crate::camera::{
    capture_step, map_from, one_shot_after, one_shot_step, open_step, queue_from, Call, Camera,
    CaptureStep, Capturing, OneShot, OneShotStep, OpenStep, Opening, Reply,
};
use crate::capture::{
    convertible, samples_of, shown, V4L2_PIX_FMT_GREY, V4L2_PIX_FMT_Y16, V4L2_PIX_FMT_YUYV,
};
use crate::capture_laws::{format_fields_are_read_in_place, samples_come_from_their_bytes};
use crate::codec::{u32_bytes, written_u32_reads_back};
use crate::diag::fourcc_text;
use crate::error::FaceAuthError;
use vstd::prelude::*;

verus! {

/// A phase that opening a camera can reach.
pub open spec fn reachable(phase: Opening) -> bool {
    match phase {
        Opening::Start => true,
        Opening::Format => true,
        Opening::Buffers { pixelformat, .. } => convertible(pixelformat),
        Opening::Mapping { pixelformat, granted, index, .. } => convertible(pixelformat) && index
            < granted,
    }
}

/// Every phase of opening a camera leads to another such phase, to a failure, or to a camera
/// whose frames can be converted and whose stream is off. In particular no buffer is ever
/// requested for a format that cannot be converted.
pub proof fn opened_cameras_are_usable(phase: Opening, reply: Reply)
    requires
        reachable(phase),
    ensures
        match open_step(phase, reply) {
            OpenStep::Call(call, next) => reachable(next) && (call is RequestBuffers ==> (next
                matches Opening::Buffers { pixelformat, .. } && convertible(pixelformat))),
            OpenStep::Opened(camera) => convertible(camera.pixelformat) && !camera.stream_on,
            OpenStep::Failed(_) => true,
        },
{
}

/// Where opening stands after the driver has granted `granted` buffers and mapped `k` of them.
pub open spec fn mapping_run(
    width: u32,
    height: u32,
    pixelformat: u32,
    granted: u32,
    k: nat,
) -> OpenStep
    decreases k,
{
    if k == 0 {
        open_step(Opening::Buffers { width, height, pixelformat }, Reply::Granted(granted))
    } else {
        match mapping_run(width, height, pixelformat, granted, (k - 1) as nat) {
            OpenStep::Call(_, phase) => open_step(phase, Reply::Done),
            step => step,
        }
    }
}

/// Every buffer that the driver grants is mapped once, in order, and then the camera is open
/// with that many buffers.
pub proof fn every_granted_buffer_is_mapped(
    width: u32,
    height: u32,
    pixelformat: u32,
    granted: u32,
    k: nat,
)
    requires
        k <= granted,
    ensures
        mapping_run(width, height, pixelformat, granted, k) == map_from(
            width,
            height,
            pixelformat,
            granted,
            k as u32,
        ),
        k < granted ==> (mapping_run(width, height, pixelformat, granted, k) matches OpenStep::Call(
            Call::MapBuffer(i),
            _,
        ) && i == k),
        k == granted ==> (mapping_run(width, height, pixelformat, granted, k)
            matches OpenStep::Opened(camera) && camera.buffers == granted),
    decreases k,
{
    if k > 0 {
        every_granted_buffer_is_mapped(width, height, pixelformat, granted, (k - 1) as nat);
    }
}

/// A stream starts only after every buffer was handed to the driver: `k` accepted buffers are
/// followed by the next one, and all of them by the start of the stream.
pub proof fn buffers_are_queued_before_the_stream_starts(
    camera: Camera,
    k: u32,
    timeout_ms: i32,
    after: Camera,
    step: CaptureStep,
)
    requires
        !camera.stream_on,
        k < camera.buffers,
        capture_step(camera, Capturing::Queueing(k), Reply::Done, timeout_ms, after, step),
    ensures
        k + 1 < camera.buffers ==> (step matches CaptureStep::Call(Call::QueueBuffer(i), _) && i
            == k + 1),
        k + 1 == camera.buffers ==> (step matches CaptureStep::Call(Call::StreamOn, _)),
        queue_from(camera, 0) matches CaptureStep::Call(Call::QueueBuffer(i), _) && i == 0,
{
}

/// Only an accepted start turns the stream on, and nothing but stopping turns it off; no step
/// changes the format or the number of buffers.
pub proof fn captures_keep_the_camera(
    camera: Camera,
    phase: Capturing,
    reply: Reply,
    timeout_ms: i32,
    after: Camera,
    step: CaptureStep,
)
    requires
        capture_step(camera, phase, reply, timeout_ms, after, step),
    ensures
        after.width == camera.width,
        after.height == camera.height,
        after.pixelformat == camera.pixelformat,
        after.buffers == camera.buffers,
        camera.stream_on ==> after.stream_on,
        after.stream_on && !camera.stream_on ==> phase is Starting && reply is Done,
{
}

/// A frame is delivered only after the driver handed one out, and its buffer was given back
/// first.
pub proof fn frames_come_from_the_driver(
    camera: Camera,
    phase: Capturing,
    reply: Reply,
    timeout_ms: i32,
    after: Camera,
    step: CaptureStep,
)
    requires
        capture_step(camera, phase, reply, timeout_ms, after, step),
    ensures
        step is Frame ==> phase is Requeuing,
        step matches CaptureStep::Call(Call::Requeue, _) ==> phase is Dequeuing && reply is Frame,
{
}

/// A single capture, step by step: state `i` and reply `i` lead to step `i`, whose request leads
/// to state `i + 1` and is answered by reply `i + 1`.
pub open spec fn one_shot_run(
    states: Seq<OneShot>,
    replies: Seq<Reply>,
    timeout_ms: i32,
    taken: Seq<OneShotStep>,
) -> bool {
    &&& states.len() == taken.len()
    &&& replies.len() == taken.len()
    &&& taken.len() > 0
    &&& states[0] == OneShot::Opening(Opening::Start)
    &&& forall|i: int|
        0 <= i < taken.len() ==> one_shot_step(
            states[i],
            replies[i],
            timeout_ms,
            #[trigger] taken[i],
        )
    &&& forall|i: int|
        0 <= i < taken.len() - 1 ==> ((#[trigger] taken[i]) matches OneShotStep::Call(_, next)
            && next == states[i + 1])
}

/// At step `i` the driver is asked to stop the stream.
pub open spec fn stops_at(taken: Seq<OneShotStep>, i: int) -> bool {
    taken[i] matches OneShotStep::Call(Call::StreamOff, _)
}

/// At step `i` the driver is asked to start the stream.
pub open spec fn starts_at(taken: Seq<OneShotStep>, i: int) -> bool {
    taken[i] matches OneShotStep::Call(Call::StreamOn, _)
}

/// After the request to start the stream, its start is waited for.
proof fn lemma_start_is_waited_for(state: OneShot, reply: Reply, timeout_ms: i32, step: OneShotStep)
    requires
        one_shot_step(state, reply, timeout_ms, step),
        step matches OneShotStep::Call(Call::StreamOn, _),
    ensures
        step matches OneShotStep::Call(_, OneShot::Capturing(_, Capturing::Starting)),
{
    match state {
        OneShot::Capturing(camera, phase) => {
            let (after, inner) = choose|after: Camera, inner: CaptureStep|
                #[trigger] capture_step(camera, phase, reply, timeout_ms, after, inner) && step
                    == one_shot_after(after, inner);
            assert(capture_step(camera, phase, reply, timeout_ms, after, inner));
        },
        _ => {},
    }
}

/// From an accepted start on, the stream is known to be on until it is asked to stop.
proof fn lemma_stream_is_known(
    states: Seq<OneShot>,
    replies: Seq<Reply>,
    timeout_ms: i32,
    taken: Seq<OneShotStep>,
    i: int,
    k: int,
)
    requires
        one_shot_run(states, replies, timeout_ms, taken),
        0 <= i < k < taken.len(),
        starts_at(taken, i),
        replies[i + 1] is Done,
    ensures
        ({
            ||| exists|j: int| i < j <= k && #[trigger] stops_at(taken, j)
            ||| taken[k] matches OneShotStep::Call(_, OneShot::Capturing(camera, _))
                && camera.stream_on
        }),
    decreases k,
{
    assert(one_shot_step(states[k], replies[k], timeout_ms, taken[k]));
    if k == i + 1 {
        assert(one_shot_step(states[i], replies[i], timeout_ms, taken[i]));
        lemma_start_is_waited_for(states[i], replies[i], timeout_ms, taken[i]);
    } else {
        lemma_stream_is_known(states, replies, timeout_ms, taken, i, k - 1);
    }
    if exists|j: int| i < j <= k - 1 && #[trigger] stops_at(taken, j) {
        let j = choose|j: int| i < j <= k - 1 && #[trigger] stops_at(taken, j);
        assert(stops_at(taken, j));
    } else if states[k] is Capturing {
        let camera = states[k]->Capturing_0;
        let phase = states[k]->Capturing_1;
        let (after, inner) = choose|after: Camera, inner: CaptureStep|
            #[trigger] capture_step(camera, phase, replies[k], timeout_ms, after, inner)
                && taken[k] == one_shot_after(after, inner);
        assert(capture_step(camera, phase, replies[k], timeout_ms, after, inner));
        if !(inner is Call) {
            assert(stops_at(taken, k));
        }
    }
}

/// A single capture leaves no stream running: when it ends, with a frame or without one, a
/// stream that was started has been asked to stop.
pub proof fn single_captures_stop_the_stream(
    states: Seq<OneShot>,
    replies: Seq<Reply>,
    timeout_ms: i32,
    taken: Seq<OneShotStep>,
    i: int,
)
    requires
        one_shot_run(states, replies, timeout_ms, taken),
        !(taken.last() is Call),
        0 <= i < taken.len() - 1,
        starts_at(taken, i),
        replies[i + 1] is Done,
    ensures
        exists|j: int| i < j < taken.len() - 1 && #[trigger] stops_at(taken, j),
{
    lemma_stream_is_known(states, replies, timeout_ms, taken, i, taken.len() - 1);
    let j = choose|j: int| i < j <= taken.len() - 1 && #[trigger] stops_at(taken, j);
    assert(stops_at(taken, j));
}

/// 8-bit formats fill the 16-bit range with 256 levels.
pub proof fn converted_levels_are_multiples(pixelformat: u32, bytes: Seq<u8>, i: int)
    requires
        pixelformat == V4L2_PIX_FMT_GREY || pixelformat == V4L2_PIX_FMT_YUYV,
        0 <= i < samples_of(pixelformat, bytes).len(),
    ensures
        samples_of(pixelformat, bytes)[i] % 257 == 0,
        samples_of(pixelformat, bytes)[i] as int / 257 == if pixelformat == V4L2_PIX_FMT_GREY {
            bytes[i] as int
        } else {
            bytes[2 * i] as int
        },
{
}

/// What polling leads to: an error of the driver ends the capture, so does time that ran out, with
/// the time that was waited, and a frame that is ready is taken.
pub proof fn polling_decides(
    camera: Camera,
    n: i32,
    timeout_ms: i32,
    after: Camera,
    step: CaptureStep,
)
    requires
        capture_step(camera, Capturing::Polling, Reply::Polled(n), timeout_ms, after, step),
    ensures
        n < 0 <==> (step matches CaptureStep::Failed(e) && e is DeviceRefused),
        n == 0 <==> (step matches CaptureStep::Failed(e) && e
            == FaceAuthError::CaptureTimedOut(timeout_ms)),
        n > 0 <==> (step matches CaptureStep::Call(Call::Dequeue, _)),
{
}

/// The frame that a capture delivers is the one that the driver handed out, whether or not it
/// takes the buffer back: of the camera's size, and with the samples of its bytes.
pub proof fn delivered_frames_hold_the_drivers_bytes(
    camera: Camera,
    bytes: Vec<u8>,
    timeout_ms: i32,
    between: Camera,
    phase: Capturing,
    reply: Reply,
    after: Camera,
    step: CaptureStep,
    i: int,
)
    requires
        capture_step(
            camera,
            Capturing::Dequeuing,
            Reply::Frame(bytes),
            timeout_ms,
            between,
            CaptureStep::Call(Call::Requeue, phase),
        ),
        capture_step(between, phase, reply, timeout_ms, after, step),
    ensures
        step matches CaptureStep::Frame(frame) && {
            &&& frame.width == camera.width
            &&& frame.height == camera.height
            &&& camera.pixelformat == V4L2_PIX_FMT_GREY && 0 <= i < bytes@.len() ==> 255
                * frame.data@[i] == 65535 * bytes@[i]
            &&& camera.pixelformat == V4L2_PIX_FMT_YUYV && 0 <= 2 * i < bytes@.len() ==> 255
                * frame.data@[i] == 65535 * bytes@[2 * i]
            &&& camera.pixelformat == V4L2_PIX_FMT_Y16 && 0 <= 2 * i < bytes@.len() - 1 ==> 256
                * bytes@[2 * i + 1] + bytes@[2 * i] == frame.data@[i]
        },
{
    samples_come_from_their_bytes(bytes@, i);
}

/// The formats that can be converted are those whose codes read `GREY`, `YUYV` and `Y16` with a
/// space.
pub proof fn three_formats_can_be_converted(pixelformat: u32)
    ensures
        convertible(pixelformat) <==> {
            let code = fourcc_text(pixelformat);
            code == seq!['G', 'R', 'E', 'Y'] || code == seq!['Y', 'U', 'Y', 'V'] || code == seq![
                'Y',
                '1',
                '6',
                ' ',
            ]
        },
{
    let code = fourcc_text(pixelformat);
    let b = u32_bytes(pixelformat);
    written_u32_reads_back(b, 0, pixelformat);
    assert(b.subrange(0, 4) =~= b);
    assert(pixelformat == b[0] + 0x100 * b[1] + 0x1_0000 * b[2] + 0x100_0000 * b[3]);
    if convertible(pixelformat) {
        assert(code =~= seq!['G', 'R', 'E', 'Y'] || code =~= seq!['Y', 'U', 'Y', 'V'] || code
            =~= seq!['Y', '1', '6', ' ']);
    }
    if code == seq!['G', 'R', 'E', 'Y'] || code == seq!['Y', 'U', 'Y', 'V'] || code == seq![
        'Y',
        '1',
        '6',
        ' ',
    ] {
        assert(code[0] == shown(b[0]));
        assert(code[1] == shown(b[1]));
        assert(code[2] == shown(b[2]));
        assert(code[3] == shown(b[3]));
    }
}

/// A camera is opened with the size and the format that its driver told: buffers are requested
/// for a format that can be converted, four of them, and an open camera has what bytes 8 to 19 of
/// the driver's answer say.
pub proof fn cameras_open_as_the_driver_says(fmt: Vec<u8>, granted: u32)
    requires
        fmt@.len() >= 20,
    ensures
        ({
            let b = fmt@;
            let width = b[8] + 0x100 * b[9] + 0x1_0000 * b[10] + 0x100_0000 * b[11];
            let height = b[12] + 0x100 * b[13] + 0x1_0000 * b[14] + 0x100_0000 * b[15];
            let code = b[16] + 0x100 * b[17] + 0x1_0000 * b[18] + 0x100_0000 * b[19];
            match open_step(Opening::Format, Reply::Format(fmt)) {
                OpenStep::Call(call, Opening::Buffers { width: w, height: h, pixelformat: p }) => {
                    &&& call == Call::RequestBuffers(4)
                    &&& w == width && h == height && p == code
                    &&& convertible(p)
                    &&& mapping_run(w, h, p, granted, granted as nat) matches OpenStep::Opened(
                        camera,
                    ) && camera.width == width && camera.height == height && camera.pixelformat
                        == code && camera.buffers == granted && !camera.stream_on
                },
                OpenStep::Failed(e) => !convertible(code as u32) && e
                    == FaceAuthError::UnsupportedPixelFormat(code as u32),
                _ => false,
            }
        }),
{
    format_fields_are_read_in_place(fmt@);
    let (w, h, p) = crate::capture::format_fields(fmt@);
    every_granted_buffer_is_mapped(w, h, p, granted, granted as nat);
}

} // verus!
