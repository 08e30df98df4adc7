use face_auth_core::camera::{
    capture_ir_frame, Call, Camera, CaptureStep, Capturing, OneShot, OneShotStep, OpenStep,
    Opening, Reply,
};
use face_auth_core::capture::{
    convert_frame_bytes, cstr_to_string, fourcc_to_string, make_v4l2_format, query_caps,
    query_format, query_frame_interval_ms, BUFFER_COUNT, V4L2_BUF_TYPE_VIDEO_CAPTURE,
    V4L2_PIX_FMT_GREY, V4L2_PIX_FMT_Y16, V4L2_PIX_FMT_YUYV,
};
use face_auth_core::error::FaceAuthError;

#[test]
fn pixel_formats_have_readable_names() {
    assert_eq!(fourcc_to_string(V4L2_PIX_FMT_GREY), "GREY");
    assert_eq!(fourcc_to_string(V4L2_PIX_FMT_YUYV), "YUYV");
    assert_eq!(fourcc_to_string(V4L2_PIX_FMT_Y16), "Y16 ");
    assert_eq!(fourcc_to_string(0x7f20_7e00), "?~ ?");
    assert_eq!(fourcc_to_string(0xff1f_0a41), "A???");
}

#[test]
fn camera_names_end_at_the_first_zero() {
    assert_eq!(cstr_to_string(&b"uvcvideo\0\0junk".to_vec()), "uvcvideo");
    assert_eq!(cstr_to_string(&b"full".to_vec()), "full");
    assert_eq!(cstr_to_string(&vec![]), "");
    assert_eq!(cstr_to_string(&vec![0]), "");
    assert_eq!(cstr_to_string(&vec![b'a', 0xff, b'b', 0, b'c']), "a\u{fffd}b");
}

#[test]
fn capabilities_hold_driver_and_card() {
    let mut cap = vec![0u8; 104];
    cap[..8].copy_from_slice(b"uvcvideo");
    cap[16..24].copy_from_slice(b"IR\0noise");
    let caps = query_caps(&cap);
    assert_eq!(caps.driver, "uvcvideo");
    assert_eq!(caps.card, "IR");
    cap[..16].copy_from_slice(b"sixteen-bytes-ok");
    assert_eq!(query_caps(&cap).driver, "sixteen-bytes-ok");
}

#[test]
fn formats_are_laid_out_as_in_the_kernel() {
    let fmt = make_v4l2_format(V4L2_BUF_TYPE_VIDEO_CAPTURE, 360, 0x01020304, V4L2_PIX_FMT_GREY);
    assert_eq!(fmt.len(), 208);
    assert_eq!(fmt[..8].to_vec(), vec![1, 0, 0, 0, 0, 0, 0, 0]);
    assert_eq!(fmt[8..16].to_vec(), vec![104, 1, 0, 0, 4, 3, 2, 1]);
    assert_eq!(fmt[16..20].to_vec(), b"GREY".to_vec());
    assert!(fmt[20..].iter().all(|&b| b == 0));
    assert_eq!(query_format(&fmt), (360, 0x01020304, V4L2_PIX_FMT_GREY));
}

#[test]
fn frame_bytes_become_samples() {
    let bytes = vec![0u8, 1, 255, 128, 7];
    assert_eq!(convert_frame_bytes(V4L2_PIX_FMT_GREY, &bytes), vec![0, 257, 65535, 32896, 1799]);
    assert_eq!(convert_frame_bytes(V4L2_PIX_FMT_YUYV, &bytes), vec![0, 65535, 1799]);
    assert_eq!(convert_frame_bytes(V4L2_PIX_FMT_YUYV, &bytes[..4].to_vec()), vec![0, 65535]);
    assert_eq!(convert_frame_bytes(V4L2_PIX_FMT_Y16, &bytes), vec![256, 33023]);
    assert_eq!(convert_frame_bytes(0, &bytes), vec![0, 257, 65535, 32896, 1799]);
    assert_eq!(convert_frame_bytes(V4L2_PIX_FMT_Y16, &vec![9]), vec![]);
}

#[test]
fn frame_intervals_are_milliseconds() {
    let mut parm = vec![0u8; 200];
    assert_eq!(query_frame_interval_ms(&parm), None);
    parm[1] = 0x10;
    parm[8] = 1;
    assert_eq!(query_frame_interval_ms(&parm), None);
    parm[12] = 15;
    assert_eq!(query_frame_interval_ms(&parm), Some(66));
    parm[12] = 30;
    assert_eq!(query_frame_interval_ms(&parm), Some(33));
    parm[1] = 0x20;
    assert_eq!(query_frame_interval_ms(&parm), None);
    parm[1] = 0xff;
    parm[8..12].copy_from_slice(&[255; 4]);
    parm[12] = 1;
    assert_eq!(query_frame_interval_ms(&parm), Some(u32::MAX as u64 * 1000));
}

fn format_reply(pixelformat: u32) -> Reply {
    Reply::Format(make_v4l2_format(1, 2, 1, pixelformat))
}

fn expect_call(step: OpenStep) -> (Call, Opening) {
    match step {
        OpenStep::Call(call, phase) => (call, phase),
        other => panic!("{:?}", other),
    }
}

fn open(granted: u32) -> Camera {
    let (call, phase) = expect_call(Camera::open(Opening::Start, &Reply::Begin));
    assert_eq!(call, Call::GetFormat);
    let (call, phase) = expect_call(Camera::open(phase, &format_reply(V4L2_PIX_FMT_GREY)));
    assert_eq!(call, Call::RequestBuffers(BUFFER_COUNT));
    let mut step = Camera::open(phase, &Reply::Granted(granted));
    let mut index = 0;
    loop {
        match step {
            OpenStep::Call(call, phase) => {
                assert_eq!(call, Call::MapBuffer(index));
                index += 1;
                step = Camera::open(phase, &Reply::Done);
            }
            OpenStep::Opened(camera) => {
                assert_eq!(index, granted);
                return camera;
            }
            OpenStep::Failed(e) => panic!("{:?}", e),
        }
    }
}

#[test]
fn opening_maps_what_the_driver_grants() {
    let camera = open(3);
    assert_eq!(
        camera,
        Camera { width: 2, height: 1, pixelformat: V4L2_PIX_FMT_GREY, buffers: 3, stream_on: false }
    );
    assert_eq!(open(0).buffers, 0);
}

#[test]
fn unsupported_formats_are_refused() {
    let step = Camera::open(Opening::Format, &format_reply(0x47504a4d));
    assert!(matches!(
        step,
        OpenStep::Failed(FaceAuthError::UnsupportedPixelFormat(0x47504a4d))
    ));
}

#[test]
fn a_refusing_driver_ends_the_opening() {
    for phase in [
        Opening::Format,
        Opening::Buffers { width: 1, height: 1, pixelformat: V4L2_PIX_FMT_GREY },
        Opening::Mapping { width: 1, height: 1, pixelformat: V4L2_PIX_FMT_GREY, granted: 2, index: 0 },
    ] {
        assert!(matches!(
            Camera::open(phase, &Reply::Refused),
            OpenStep::Failed(FaceAuthError::DeviceRefused)
        ));
    }
    assert!(matches!(
        Camera::open(Opening::Format, &Reply::Format(vec![0; 19])),
        OpenStep::Failed(FaceAuthError::DeviceRefused)
    ));
}

fn reply_to(call: Call) -> Reply {
    match call {
        Call::GetFormat => format_reply(V4L2_PIX_FMT_GREY),
        Call::RequestBuffers(n) => Reply::Granted(n),
        Call::Poll(_) => Reply::Polled(1),
        Call::Dequeue => Reply::Frame(vec![1, 2]),
        _ => Reply::Done,
    }
}

#[test]
fn capturing_queues_once_and_then_only_polls() {
    let mut camera = open(2);
    for round in 0..2 {
        let mut calls = Vec::new();
        let mut phase = Capturing::Start;
        let mut reply = Reply::Begin;
        let frame = loop {
            match camera.capture_frame(phase, &reply, 5000) {
                CaptureStep::Call(call, next) => {
                    calls.push(call);
                    reply = reply_to(call);
                    phase = next;
                }
                CaptureStep::Frame(frame) => break frame,
                CaptureStep::Failed(e) => panic!("{:?}", e),
            }
        };
        assert_eq!(frame.data, vec![257, 514]);
        assert_eq!((frame.width, frame.height), (2, 1));
        assert!(camera.stream_on);
        let capture = vec![Call::Poll(5000), Call::Dequeue, Call::Requeue];
        if round == 0 {
            let mut start = vec![Call::QueueBuffer(0), Call::QueueBuffer(1), Call::StreamOn];
            start.extend(capture);
            assert_eq!(calls, start);
        } else {
            assert_eq!(calls, capture);
        }
    }
    assert_eq!(camera.stop_stream(), Some(Call::StreamOff));
    assert_eq!(camera.stop_stream(), None);
}

#[test]
fn captures_time_out_and_fail() {
    let mut camera = open(1);
    camera.stream_on = true;
    assert!(matches!(
        camera.capture_frame(Capturing::Polling, &Reply::Polled(0), 250),
        CaptureStep::Failed(FaceAuthError::CaptureTimedOut(250))
    ));
    assert!(matches!(
        camera.capture_frame(Capturing::Polling, &Reply::Polled(-1), 250),
        CaptureStep::Failed(FaceAuthError::DeviceRefused)
    ));
    assert!(matches!(
        camera.capture_frame(Capturing::Dequeuing, &Reply::Refused, 250),
        CaptureStep::Failed(FaceAuthError::DeviceRefused)
    ));
    camera.stream_on = false;
    assert!(matches!(
        camera.capture_frame(Capturing::Starting, &Reply::Refused, 250),
        CaptureStep::Failed(FaceAuthError::DeviceRefused)
    ));
    assert!(!camera.stream_on);
}

#[test]
fn a_single_capture_opens_captures_and_stops() {
    let mut state = OneShot::Opening(Opening::Start);
    let mut reply = Reply::Begin;
    let mut calls = Vec::new();
    let frame = loop {
        match capture_ir_frame(state, &reply, 100) {
            OneShotStep::Call(call, next) => {
                calls.push(call);
                // that the buffer cannot be handed back does not matter
                reply = if call == Call::Requeue { Reply::Refused } else { reply_to(call) };
                state = next;
            }
            OneShotStep::Frame(frame) => break frame,
            OneShotStep::Failed(e) => panic!("{:?}", e),
        }
    };
    assert_eq!(frame.data, vec![257, 514]);
    assert_eq!(calls.len(), 15);
    assert_eq!(calls[0], Call::GetFormat);
    assert_eq!(calls[14], Call::StreamOff);
    assert_eq!(calls.iter().filter(|c| matches!(c, Call::MapBuffer(_))).count(), 4);
    assert_eq!(calls.iter().filter(|c| matches!(c, Call::QueueBuffer(_))).count(), 4);
}

#[test]
fn a_single_capture_that_fails_stops_the_stream() {
    for refused in [Call::Poll(100), Call::Dequeue] {
        let mut state = OneShot::Opening(Opening::Start);
        let mut reply = Reply::Begin;
        let mut calls = Vec::new();
        let error = loop {
            match capture_ir_frame(state, &reply, 100) {
                OneShotStep::Call(call, next) => {
                    calls.push(call);
                    reply = if call == refused { Reply::Refused } else { reply_to(call) };
                    state = next;
                }
                OneShotStep::Frame(_) => panic!("a frame"),
                OneShotStep::Failed(e) => break e,
            }
        };
        assert!(matches!(error, FaceAuthError::DeviceRefused));
        assert_eq!(calls[calls.len() - 2], refused);
        assert_eq!(calls[calls.len() - 1], Call::StreamOff);
    }
}

#[test]
fn a_single_capture_without_a_stream_has_none_to_stop() {
    let mut state = OneShot::Opening(Opening::Start);
    let mut reply = Reply::Begin;
    let mut calls = Vec::new();
    loop {
        match capture_ir_frame(state, &reply, 100) {
            OneShotStep::Call(call, next) => {
                calls.push(call);
                reply = if call == Call::StreamOn { Reply::Refused } else { reply_to(call) };
                state = next;
            }
            OneShotStep::Frame(_) => panic!("a frame"),
            OneShotStep::Failed(_) => break,
        }
    }
    assert!(!calls.contains(&Call::StreamOff));
}
