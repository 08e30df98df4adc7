//! The dialogue with a camera's driver.
//!
//! Each function here takes the driver's last reply and says what to ask of it next. Whoever
//! runs the dialogue makes the system calls.
use crate::capture::{
    convert_frame_bytes, convertible, format_fields, query_format, samples_of, IrFrame,
    BUFFER_COUNT, V4L2_PIX_FMT_GREY, V4L2_PIX_FMT_Y16, V4L2_PIX_FMT_YUYV,
};
use crate::error::FaceAuthError;
use vstd::prelude::*;

verus! {

/// A request to the driver.
#[derive(Debug, Clone, Copy, PartialEq, Eq, Structural)]
pub enum Call {
    /// Ask for the current format. Setting one would make some sensors start over.
    GetFormat,
    /// Ask for that many buffers.
    RequestBuffers(u32),
    /// Map the buffer with that index.
    MapBuffer(u32),
    /// Hand the buffer with that index to the driver.
    QueueBuffer(u32),
    StreamOn,
    /// Wait that many milliseconds for a frame.
    Poll(i32),
    /// Take a filled buffer from the driver and copy its bytes.
    Dequeue,
    /// Hand the buffer taken last back to the driver.
    Requeue,
    StreamOff,
}

/// What the driver says.
pub enum Reply {
    /// Nothing was asked yet.
    Begin,
    /// A `v4l2_format`.
    Format(Vec<u8>),
    /// That many buffers are granted.
    Granted(u32),
    Done,
    /// What polling gave: negative for an error, zero when time ran out.
    Polled(i32),
    /// The bytes of a frame.
    Frame(Vec<u8>),
    Refused,
}

/// An open camera.
#[derive(Debug, Clone, Copy, PartialEq, Eq, Structural)]
pub struct Camera {
    pub width: u32,
    pub height: u32,
    pub pixelformat: u32,
    /// How many buffers are mapped.
    pub buffers: u32,
    pub stream_on: bool,
}

/// What is waited for while a camera is opened.
#[derive(Debug, Clone, Copy, PartialEq, Eq, Structural)]
pub enum Opening {
    Start,
    Format,
    Buffers { width: u32, height: u32, pixelformat: u32 },
    Mapping { width: u32, height: u32, pixelformat: u32, granted: u32, index: u32 },
}

#[derive(Debug)]
pub enum OpenStep {
    Call(Call, Opening),
    Opened(Camera),
    Failed(FaceAuthError),
}

/// Mapping goes on at `index`, up to the number of buffers that the driver granted.
pub open spec fn map_from(
    width: u32,
    height: u32,
    pixelformat: u32,
    granted: u32,
    index: u32,
) -> OpenStep {
    if index < granted {
        OpenStep::Call(
            Call::MapBuffer(index),
            Opening::Mapping { width, height, pixelformat, granted, index },
        )
    } else {
        OpenStep::Opened(Camera { width, height, pixelformat, buffers: granted, stream_on: false })
    }
}

/// How opening a camera goes on: the format it already has must be convertible; then buffers
/// are requested, and as many mapped as the driver grants.
pub open spec fn open_step(phase: Opening, reply: Reply) -> OpenStep {
    match (phase, reply) {
        (Opening::Start, _) => OpenStep::Call(Call::GetFormat, Opening::Format),
        (Opening::Format, Reply::Format(fmt)) if fmt@.len() >= 20 => {
            let (width, height, pixelformat) = format_fields(fmt@);
            if convertible(pixelformat) {
                OpenStep::Call(
                    Call::RequestBuffers(BUFFER_COUNT),
                    Opening::Buffers { width, height, pixelformat },
                )
            } else {
                OpenStep::Failed(FaceAuthError::UnsupportedPixelFormat(pixelformat))
            }
        },
        (Opening::Buffers { width, height, pixelformat }, Reply::Granted(n)) => map_from(
            width,
            height,
            pixelformat,
            n,
            0,
        ),
        (
            Opening::Mapping { width, height, pixelformat, granted, index },
            Reply::Done,
        ) if index < u32::MAX => map_from(
            width,
            height,
            pixelformat,
            granted,
            (index + 1) as u32,
        ),
        _ => OpenStep::Failed(FaceAuthError::DeviceRefused),
    }
}

fn map_next(width: u32, height: u32, pixelformat: u32, granted: u32, index: u32) -> (r: OpenStep)
    ensures
        r == map_from(width, height, pixelformat, granted, index),
{
    if index < granted {
        OpenStep::Call(
            Call::MapBuffer(index),
            Opening::Mapping { width, height, pixelformat, granted, index },
        )
    } else {
        OpenStep::Opened(Camera { width, height, pixelformat, buffers: granted, stream_on: false })
    }
}

/// What is waited for while a frame is captured.
pub enum Capturing {
    Start,
    /// The buffer with that index was handed to the driver.
    Queueing(u32),
    Starting,
    Polling,
    Dequeuing,
    /// The frame is there; its buffer goes back to the driver.
    Requeuing(IrFrame),
}

pub enum CaptureStep {
    Call(Call, Capturing),
    Frame(IrFrame),
    Failed(FaceAuthError),
}

/// The frame that the bytes of a buffer hold.
pub open spec fn frame_of(camera: Camera, bytes: Seq<u8>, frame: IrFrame) -> bool {
    &&& frame.width == camera.width
    &&& frame.height == camera.height
    &&& frame.data@ == samples_of(camera.pixelformat, bytes)
}

/// Starting a stream: every buffer is handed over, from `index` on, before the stream starts.
pub open spec fn queue_from(camera: Camera, index: u32) -> CaptureStep {
    if index < camera.buffers {
        CaptureStep::Call(Call::QueueBuffer(index), Capturing::Queueing(index))
    } else {
        CaptureStep::Call(Call::StreamOn, Capturing::Starting)
    }
}

/// How capturing a frame goes on, and what the camera's state is afterwards.
pub open spec fn capture_step(
    camera: Camera,
    phase: Capturing,
    reply: Reply,
    timeout_ms: i32,
    after: Camera,
    step: CaptureStep,
) -> bool {
    match (phase, reply) {
        (Capturing::Start, _) => {
            &&& after == camera
            &&& step == if camera.stream_on {
                CaptureStep::Call(Call::Poll(timeout_ms), Capturing::Polling)
            } else {
                queue_from(camera, 0)
            }
        },
        (Capturing::Queueing(i), Reply::Done) if i < u32::MAX => {
            &&& after == camera
            &&& step == queue_from(camera, (i + 1) as u32)
        },
        (Capturing::Starting, Reply::Done) => {
            &&& after == Camera { stream_on: true, ..camera }
            &&& step == CaptureStep::Call(Call::Poll(timeout_ms), Capturing::Polling)
        },
        (Capturing::Polling, Reply::Polled(n)) => {
            &&& after == camera
            &&& step == if n < 0 {
                CaptureStep::Failed(FaceAuthError::DeviceRefused)
            } else if n == 0 {
                CaptureStep::Failed(FaceAuthError::CaptureTimedOut(timeout_ms))
            } else {
                CaptureStep::Call(Call::Dequeue, Capturing::Dequeuing)
            }
        },
        (Capturing::Dequeuing, Reply::Frame(bytes)) => {
            &&& after == camera
            &&& step matches CaptureStep::Call(Call::Requeue, Capturing::Requeuing(frame))
                && frame_of(camera, bytes@, frame)
        },
        (Capturing::Requeuing(frame), _) => {
            &&& after == camera
            &&& step == CaptureStep::Frame(frame)
        },
        _ => {
            &&& after == camera
            &&& step == CaptureStep::Failed(FaceAuthError::DeviceRefused)
        },
    }
}

impl Camera {
    /// Opens a camera: says what to ask of the driver next, given its last reply.
    pub fn open(phase: Opening, reply: &Reply) -> (r: OpenStep)
        ensures
            r == open_step(phase, *reply),
    {
        match phase {
            Opening::Start => OpenStep::Call(Call::GetFormat, Opening::Format),
            Opening::Format => match reply {
                Reply::Format(fmt) => {
                    if fmt.len() < 20 {
                        return OpenStep::Failed(FaceAuthError::DeviceRefused);
                    }
                    let (width, height, pixelformat) = query_format(fmt);
                    if pixelformat == V4L2_PIX_FMT_GREY || pixelformat == V4L2_PIX_FMT_YUYV
                        || pixelformat == V4L2_PIX_FMT_Y16 {
                        OpenStep::Call(
                            Call::RequestBuffers(BUFFER_COUNT),
                            Opening::Buffers { width, height, pixelformat },
                        )
                    } else {
                        OpenStep::Failed(FaceAuthError::UnsupportedPixelFormat(pixelformat))
                    }
                },
                _ => OpenStep::Failed(FaceAuthError::DeviceRefused),
            },
            Opening::Buffers { width, height, pixelformat } => match reply {
                Reply::Granted(n) => map_next(width, height, pixelformat, *n, 0),
                _ => OpenStep::Failed(FaceAuthError::DeviceRefused),
            },
            Opening::Mapping { width, height, pixelformat, granted, index } => match reply {
                Reply::Done => {
                    if index < u32::MAX {
                        map_next(width, height, pixelformat, granted, index + 1)
                    } else {
                        OpenStep::Failed(FaceAuthError::DeviceRefused)
                    }
                },
                _ => OpenStep::Failed(FaceAuthError::DeviceRefused),
            },
        }
    }

    fn queue_next(&self, index: u32) -> (r: CaptureStep)
        ensures
            r == queue_from(*self, index),
    {
        if index < self.buffers {
            CaptureStep::Call(Call::QueueBuffer(index), Capturing::Queueing(index))
        } else {
            CaptureStep::Call(Call::StreamOn, Capturing::Starting)
        }
    }

    /// Captures a frame: says what to ask of the driver next, given its last reply.
    pub fn capture_frame(&mut self, phase: Capturing, reply: &Reply, timeout_ms: i32) -> (r:
        CaptureStep)
        ensures
            capture_step(*old(self), phase, *reply, timeout_ms, *final(self), r),
    {
        match phase {
            Capturing::Start => {
                if self.stream_on {
                    CaptureStep::Call(Call::Poll(timeout_ms), Capturing::Polling)
                } else {
                    self.queue_next(0)
                }
            },
            Capturing::Queueing(i) => match reply {
                Reply::Done => {
                    if i < u32::MAX {
                        self.queue_next(i + 1)
                    } else {
                        CaptureStep::Failed(FaceAuthError::DeviceRefused)
                    }
                },
                _ => CaptureStep::Failed(FaceAuthError::DeviceRefused),
            },
            Capturing::Starting => match reply {
                Reply::Done => {
                    self.stream_on = true;
                    CaptureStep::Call(Call::Poll(timeout_ms), Capturing::Polling)
                },
                _ => CaptureStep::Failed(FaceAuthError::DeviceRefused),
            },
            Capturing::Polling => match reply {
                Reply::Polled(n) => {
                    if *n < 0 {
                        CaptureStep::Failed(FaceAuthError::DeviceRefused)
                    } else if *n == 0 {
                        CaptureStep::Failed(FaceAuthError::CaptureTimedOut(timeout_ms))
                    } else {
                        CaptureStep::Call(Call::Dequeue, Capturing::Dequeuing)
                    }
                },
                _ => CaptureStep::Failed(FaceAuthError::DeviceRefused),
            },
            Capturing::Dequeuing => match reply {
                Reply::Frame(bytes) => {
                    let data = convert_frame_bytes(self.pixelformat, bytes);
                    let frame = IrFrame { data, width: self.width, height: self.height };
                    CaptureStep::Call(Call::Requeue, Capturing::Requeuing(frame))
                },
                _ => CaptureStep::Failed(FaceAuthError::DeviceRefused),
            },
            Capturing::Requeuing(frame) => CaptureStep::Frame(frame),
        }
    }

    /// Stops the stream: says whether the driver is to be asked to.
    pub fn stop_stream(&mut self) -> (r: Option<Call>)
        ensures
            *final(self) == (Camera { stream_on: false, ..*old(self) }),
            r == if old(self).stream_on {
                Some(Call::StreamOff)
            } else {
                None
            },
    {
        if self.stream_on {
            self.stream_on = false;
            Some(Call::StreamOff)
        } else {
            None
        }
    }
}

/// What is waited for during a single capture.
pub enum OneShot {
    Opening(Opening),
    Capturing(Camera, Capturing),
    /// The frame is there; the stream stops.
    Stopping(IrFrame),
    /// There is no frame; the stream stops.
    Aborting(FaceAuthError),
}

pub enum OneShotStep {
    Call(Call, OneShot),
    Frame(IrFrame),
    Failed(FaceAuthError),
}

/// What follows a step of the capture.
pub open spec fn one_shot_after(camera: Camera, step: CaptureStep) -> OneShotStep {
    match step {
        CaptureStep::Call(call, phase) => OneShotStep::Call(
            call,
            OneShot::Capturing(camera, phase),
        ),
        CaptureStep::Frame(frame) => if camera.stream_on {
            OneShotStep::Call(Call::StreamOff, OneShot::Stopping(frame))
        } else {
            OneShotStep::Frame(frame)
        },
        CaptureStep::Failed(e) => if camera.stream_on {
            OneShotStep::Call(Call::StreamOff, OneShot::Aborting(e))
        } else {
            OneShotStep::Failed(e)
        },
    }
}

/// How a single capture goes on: the camera is opened, one frame captured, and the stream
/// stopped, whether there is a frame or not.
pub open spec fn one_shot_step(
    state: OneShot,
    reply: Reply,
    timeout_ms: i32,
    step: OneShotStep,
) -> bool {
    match state {
        OneShot::Opening(phase) => match open_step(phase, reply) {
            OpenStep::Call(call, next) => step == OneShotStep::Call(call, OneShot::Opening(next)),
            OpenStep::Opened(camera) => step == one_shot_after(camera, queue_from(camera, 0)),
            OpenStep::Failed(e) => step == OneShotStep::Failed(e),
        },
        OneShot::Capturing(camera, phase) => exists|after: Camera, inner: CaptureStep|
            #[trigger] capture_step(camera, phase, reply, timeout_ms, after, inner) && step
                == one_shot_after(after, inner),
        OneShot::Stopping(frame) => step == OneShotStep::Frame(frame),
        OneShot::Aborting(e) => step == OneShotStep::Failed(e),
    }
}

fn after_capture(camera: Camera, step: CaptureStep) -> (r: OneShotStep)
    ensures
        r == one_shot_after(camera, step),
{
    match step {
        CaptureStep::Call(call, phase) => OneShotStep::Call(
            call,
            OneShot::Capturing(camera, phase),
        ),
        CaptureStep::Frame(frame) => {
            let mut camera = camera;
            match camera.stop_stream() {
                Some(call) => OneShotStep::Call(call, OneShot::Stopping(frame)),
                None => OneShotStep::Frame(frame),
            }
        },
        CaptureStep::Failed(e) => {
            let mut camera = camera;
            match camera.stop_stream() {
                Some(call) => OneShotStep::Call(call, OneShot::Aborting(e)),
                None => OneShotStep::Failed(e),
            }
        },
    }
}

/// Captures a single frame: opens the camera, captures, stops the stream, also where capturing
/// failed. Says what to ask of the driver next, given its last reply.
pub fn capture_ir_frame(state: OneShot, reply: &Reply, timeout_ms: i32) -> (r: OneShotStep)
    ensures
        one_shot_step(state, *reply, timeout_ms, r),
{
    match state {
        OneShot::Opening(phase) => match Camera::open(phase, reply) {
            OpenStep::Call(call, next) => OneShotStep::Call(call, OneShot::Opening(next)),
            OpenStep::Opened(camera) => {
                let mut camera = camera;
                let step = camera.capture_frame(Capturing::Start, reply, timeout_ms);
                after_capture(camera, step)
            },
            OpenStep::Failed(e) => OneShotStep::Failed(e),
        },
        OneShot::Capturing(camera, phase) => {
            let mut camera = camera;
            let step = camera.capture_frame(phase, reply, timeout_ms);
            after_capture(camera, step)
        },
        OneShot::Stopping(frame) => OneShotStep::Frame(frame),
        OneShot::Aborting(e) => OneShotStep::Failed(e),
    }
}

} // verus!
