use face_auth_core::auth::{
    prepare_detection, prepare_frame, prepare_recognition, FaceAuth, OnceEvent, OnceStep, Refusal,
};
use face_auth_core::capture::IrFrame;
use face_auth_core::config::FaceAuthConfig;
use face_auth_core::detector::FaceBox;
use face_auth_core::diag::{
    describe_device, dump_frame, frame_from_luma, header_row, verdict,
};
use face_auth_core::capture::CameraCaps;
use face_auth_core::enroll::{EnrollAction, EnrollEvent};
use face_auth_core::error::FaceAuthError;
use face_auth_core::float32::Float32;
use face_auth_core::inference::{load_model, Backend, FaceEncoder};
use face_auth_core::photo::{PhotoEvent, PhotoStep};
use face_auth_core::lockout::LockoutState;
use face_auth_core::preprocess::{clahe, crop_to_face, preprocess_ir_frame};
use face_auth_core::scan::{Scan, ScanAction, ScanEvent};
use face_auth_core::storage::EmbeddingStore;
use face_auth_core::verify::{cosine_similarity, max_similarity, passes, verify_embedding};

const MS: u128 = 1_000_000;

fn soft(x: f32) -> Float32 {
    Float32::from_bits(x.to_bits())
}

fn hard(x: Float32) -> f32 {
    f32::from_bits(x.to_bits())
}

fn softs(x: &[f32]) -> Vec<Float32> {
    x.iter().map(|&v| soft(v)).collect()
}

fn auth() -> FaceAuth {
    FaceAuth::new(FaceAuthConfig::default()).unwrap()
}

fn lively(shift: u32) -> IrFrame {
    let data = (0..64u32 * 48).map(|i| (((i * 37 + shift) % 256) * 257) as u16).collect();
    IrFrame { data, width: 64, height: 48 }
}

fn blank() -> IrFrame {
    IrFrame { data: vec![100; 64 * 48], width: 64, height: 48 }
}

fn face() -> FaceBox {
    FaceBox { x1: soft(0.3), y1: soft(0.3), x2: soft(0.6), y2: soft(0.6) }
}

fn store() -> EmbeddingStore {
    let mut s = EmbeddingStore::default();
    s.add_embedding(softs(&[1.0, 0.0, 0.0]));
    s.add_embedding(softs(&[0.0, 1.0, 0.0]));
    s
}

#[test]
fn embeddings_have_unit_length() {
    let encoder = FaceEncoder::new("tract").unwrap();
    assert_eq!(encoder.backend, Backend::Tract);
    assert_eq!(encoder.encode(&softs(&[3.0, 4.0])), softs(&[3.0 / 5.0, 4.0 / 5.0]));
    let raw = [0.1f32, -2.5, 7.25, 1e-3];
    let norm: f32 = raw.iter().map(|x| x * x).sum::<f32>().sqrt();
    let expected: Vec<f32> = raw.iter().map(|x| x / norm).collect();
    assert_eq!(encoder.encode(&softs(&raw)), softs(&expected));
    assert!(encoder.encode(&vec![]).is_empty());
    assert!(hard(encoder.encode(&softs(&[0.0]))[0]).is_nan());
    assert!(matches!(FaceEncoder::new("openvino"), Err(FaceAuthError::BackendUnavailable)));
}

#[test]
fn missing_models_are_reported() {
    assert_eq!(load_model("/m.onnx", true).unwrap().backend, Backend::Tract);
    match load_model("/m.onnx", false) {
        Err(FaceAuthError::Inference(text)) => assert_eq!(text, "Model not found: /m.onnx"),
        _ => panic!(),
    }
}

#[test]
fn similarity_is_the_cosine() {
    assert_eq!(hard(cosine_similarity(&softs(&[2.0, 0.0]), &softs(&[5.0, 0.0]))), 1.0);
    assert_eq!(hard(cosine_similarity(&softs(&[1.0, 0.0]), &softs(&[0.0, 3.0]))), 0.0);
    assert_eq!(hard(cosine_similarity(&softs(&[1.0, 0.0]), &softs(&[-4.0, 0.0]))), -1.0);
    let best = max_similarity(&softs(&[0.6, 0.8, 0.0]), &store()).unwrap();
    assert_eq!(hard(best), 0.8);
    assert!(verify_embedding(&softs(&[0.6, 0.8, 0.0]), &store(), soft(0.8)).unwrap());
    assert!(!verify_embedding(&softs(&[0.6, 0.8, 0.0]), &store(), soft(0.81)).unwrap());
    assert!(matches!(
        verify_embedding(&softs(&[1.0]), &EmbeddingStore::default(), soft(0.5)),
        Err(FaceAuthError::NoEmbeddings)
    ));
    assert!(passes(soft(0.6), soft(0.6)));
    assert!(!passes(soft(0.5), soft(0.6)));
}

#[test]
fn the_pipeline_composes_its_steps() {
    let raw = lively(3);
    assert!(raw.is_usable());
    let frame = prepare_frame(raw.clone()).unwrap();
    let mut expected = raw.clone();
    clahe(&mut expected);
    assert_eq!(frame.data, expected.data);
    assert!(prepare_frame(blank()).is_none());
    assert_eq!(prepare_detection(&frame).len(), 3 * 320 * 240);
    let crop = crop_to_face(&frame, &face(), soft(0.3));
    assert_eq!(prepare_recognition(&frame, &face()), preprocess_ir_frame(&crop));
}

#[test]
fn incomplete_frames_are_not_usable() {
    assert!(!IrFrame { data: vec![0; 5], width: 2, height: 3 }.is_usable());
    assert!(IrFrame { data: vec![0; 6], width: 2, height: 3 }.is_usable());
    assert!(!IrFrame { data: vec![], width: u32::MAX, height: u32::MAX }.is_usable());
    assert!(IrFrame { data: vec![], width: 0, height: 7 }.is_usable());
    // 2^24 + 3 is rounded up, so a crop at the right edge would lie outside; 2^24 + 1 is not
    let wide = |width| IrFrame { data: vec![0; width as usize], width, height: 1 };
    assert!(wide(0x100_0000).is_usable());
    assert!(wide(0x100_0001).is_usable());
    assert!(!wide(0x100_0003).is_usable());
}

#[test]
fn frames_that_show_nothing_may_be_short() {
    let empty = || IrFrame { data: vec![], width: 640, height: 360 };
    assert!(!empty().is_usable());
    assert!(empty().is_acceptable());
    assert!(IrFrame { data: vec![7; 10], width: 640, height: 360 }.is_acceptable());
    let short = IrFrame { data: lively(0).data, width: 640, height: 360 };
    assert!(!short.is_acceptable());

    assert!(prepare_frame(empty()).is_none());
    let auth = auth();
    assert!(matches!(
        auth.authenticate_once(&store(), OnceEvent::Captured(empty())),
        OnceStep::Failed(FaceAuthError::NoFaceDetected)
    ));
    let mut scan = auth.start_scan(1000, 10, 0);
    assert!(matches!(
        auth.authenticate_scan(&mut scan, &store(), ScanEvent::Captured(empty()), 0),
        ScanAction::Sleep(ns) if ns == 10 * MS
    ));
    let mut e = auth.enroll(None, 1, 10, Some(33), 0).unwrap();
    assert!(matches!(
        auth.capture_embeddings(&mut e, EnrollEvent::Captured(empty()), 0),
        EnrollAction::Sleep(33)
    ));
    assert_eq!(e.attempts, 1);
}

#[test]
fn photos_go_the_way_of_camera_frames() {
    let auth = auth();
    let store = store();
    let (frame, input) = match auth.check_photo(&store, PhotoEvent::Opened(lively(7))) {
        PhotoStep::Detect(frame, input) => (frame, input),
        _ => panic!(),
    };
    match auth.authenticate_once(&store, OnceEvent::Captured(lively(7))) {
        OnceStep::Detect(live, live_input) => {
            assert_eq!(frame.data, live.data);
            assert_eq!(input, live_input);
        }
        _ => panic!(),
    }
    match auth.check_photo(&store, PhotoEvent::Detected(frame.clone(), Some(face()))) {
        PhotoStep::Encode(input) => assert_eq!(input, prepare_recognition(&frame, &face())),
        _ => panic!(),
    }
    assert!(matches!(
        auth.check_photo(&store, PhotoEvent::Detected(frame, None)),
        PhotoStep::Skipped
    ));
    match auth.check_photo(&store, PhotoEvent::Encoded(softs(&[3.0, 4.0, 0.0]))) {
        PhotoStep::Scored(score) => assert_eq!(hard(score), 0.8),
        _ => panic!(),
    }
    assert!(matches!(
        auth.check_photo(&EmbeddingStore::default(), PhotoEvent::Encoded(softs(&[1.0]))),
        PhotoStep::Failed(FaceAuthError::NoEmbeddings)
    ));
    // a photo is not asked whether it shows anything
    assert!(matches!(
        auth.check_photo(&store, PhotoEvent::Opened(blank())),
        PhotoStep::Detect(_, _)
    ));
}

#[test]
fn a_single_attempt_reaches_a_verdict() {
    let auth = auth();
    let store = store();
    let frame = match auth.authenticate_once(&store, OnceEvent::Captured(lively(0))) {
        OnceStep::Detect(frame, input) => {
            assert_eq!(input.len(), 3 * 320 * 240);
            frame
        }
        _ => panic!(),
    };
    match auth.authenticate_once(&store, OnceEvent::Detected(frame.clone(), Some(face()))) {
        OnceStep::Encode(input) => assert_eq!(input.len(), 3 * 112 * 112),
        _ => panic!(),
    }
    assert!(matches!(
        auth.authenticate_once(&store, OnceEvent::Detected(frame, None)),
        OnceStep::Failed(FaceAuthError::NoFaceDetected)
    ));
    assert!(matches!(
        auth.authenticate_once(&store, OnceEvent::Captured(blank())),
        OnceStep::Failed(FaceAuthError::NoFaceDetected)
    ));
    assert!(matches!(
        auth.authenticate_once(&store, OnceEvent::Encoded(softs(&[9.0, 0.0, 0.1]))),
        OnceStep::Verdict(true)
    ));
    assert!(matches!(
        auth.authenticate_once(&store, OnceEvent::Encoded(softs(&[0.0, 0.0, 1.0]))),
        OnceStep::Verdict(false)
    ));
    assert!(matches!(
        auth.authenticate_once(&EmbeddingStore::default(), OnceEvent::Encoded(softs(&[1.0]))),
        OnceStep::Failed(FaceAuthError::NoEmbeddings)
    ));
}

#[test]
fn attempts_begin_only_with_a_trusted_camera_and_the_right_model() {
    let mut config = FaceAuthConfig::default();
    config.pinned_camera_path = Some("/bus".to_string());
    config.pinned_camera_index = Some(2);
    let auth = FaceAuth::new(config).unwrap();
    let good = EmbeddingStore::default().save("w600k_mbf.onnx");
    let other = EmbeddingStore::default().save("w600k_r50.onnx");
    let here = Some(("/bus", 2));
    assert!(auth.begin(here, Some(&good), None).is_ok());
    assert!(matches!(auth.begin(None, Some(&good), None), Err(FaceAuthError::CameraMismatch)));
    assert!(matches!(
        auth.begin(Some(("/bus", 3)), Some(&good), None),
        Err(FaceAuthError::CameraMismatch)
    ));
    assert!(matches!(auth.begin(here, None, None), Err(FaceAuthError::NoEmbeddings)));
    assert!(matches!(auth.begin(here, Some(&other), None), Err(FaceAuthError::ModelMismatch)));
    assert!(auth.begin(here, Some(&other), Some("/x/w600k_r50.onnx")).is_ok());
    assert!(matches!(
        auth.begin(here, Some(&vec![9, 9]), None),
        Err(FaceAuthError::UnexpectedEnd)
    ));
    let mut npu = FaceAuthConfig::default();
    npu.backend = Some("openvino".to_string());
    assert!(matches!(FaceAuth::new(npu), Err(FaceAuthError::BackendUnavailable)));
}

fn shown(scan: &mut Scan, frame: IrFrame, now: u128) -> ScanAction {
    match auth().authenticate_scan(scan, &store(), ScanEvent::Captured(frame), now) {
        ScanAction::Detect(_) => {}
        _ => panic!(),
    }
    auth().authenticate_scan(scan, &store(), ScanEvent::Detected(Some(face())), now)
}

#[test]
fn a_scan_accepts_only_after_motion() {
    let mut scan = auth().start_scan(5000, 100, 0);
    let matching = || ScanEvent::Encoded(softs(&[1.0, 0.0, 0.0]));
    assert!(matches!(auth().authenticate_scan(&mut scan, &store(), ScanEvent::Resumed, 0), ScanAction::Capture));
    // the first face is only a baseline
    assert!(matches!(shown(&mut scan, lively(0), MS), ScanAction::Sleep(ns) if ns == 100 * MS));
    // the same picture again: a match does not count
    assert!(matches!(shown(&mut scan, lively(0), 2 * MS), ScanAction::Encode(_)));
    assert!(!scan.motion_observed);
    assert!(matches!(
        auth().authenticate_scan(&mut scan, &store(), matching(), 3 * MS),
        ScanAction::Sleep(_)
    ));
    // the picture moves
    assert!(matches!(shown(&mut scan, lively(90), 4 * MS), ScanAction::Encode(_)));
    assert!(scan.motion_observed);
    assert!(matches!(
        auth().authenticate_scan(&mut scan, &store(), ScanEvent::Encoded(softs(&[0.0, 0.0, 1.0])), 5 * MS),
        ScanAction::Sleep(_)
    ));
    assert!(matches!(
        auth().authenticate_scan(&mut scan, &store(), matching(), 6 * MS),
        ScanAction::Finished(true)
    ));
}

#[test]
fn a_scan_ends_with_its_window() {
    let mut scan = auth().start_scan(1000, 300, 50 * MS);
    assert!(matches!(
        auth().authenticate_scan(&mut scan, &store(), ScanEvent::Resumed, 1050 * MS - 1),
        ScanAction::Capture
    ));
    assert!(matches!(
        auth().authenticate_scan(&mut scan, &store(), ScanEvent::Captured(blank()), 900 * MS),
        ScanAction::Sleep(ns) if ns == 150 * MS
    ));
    assert!(matches!(
        auth().authenticate_scan(&mut scan, &store(), ScanEvent::Captured(blank()), 2000 * MS),
        ScanAction::Sleep(0)
    ));
    assert!(matches!(
        auth().authenticate_scan(&mut scan, &store(), ScanEvent::Resumed, 1050 * MS),
        ScanAction::Finished(false)
    ));
}

#[test]
fn a_scan_gives_up_after_three_errors_in_a_row() {
    let mut scan = auth().start_scan(1000, 10, 0);
    for _ in 0..2 {
        assert!(matches!(
            auth().authenticate_scan(&mut scan, &store(), ScanEvent::CaptureFailed, 0),
            ScanAction::Sleep(_)
        ));
    }
    auth().authenticate_scan(&mut scan, &store(), ScanEvent::Captured(blank()), 0);
    for _ in 0..2 {
        assert!(matches!(
            auth().authenticate_scan(&mut scan, &store(), ScanEvent::CaptureFailed, 0),
            ScanAction::Sleep(_)
        ));
    }
    assert!(matches!(
        auth().authenticate_scan(&mut scan, &store(), ScanEvent::CaptureFailed, 0),
        ScanAction::GaveUp
    ));
}

#[test]
fn a_scan_without_a_face_goes_on() {
    let mut scan = auth().start_scan(1000, 10, 0);
    auth().authenticate_scan(&mut scan, &store(), ScanEvent::Captured(lively(0)), 0);
    assert!(matches!(
        auth().authenticate_scan(&mut scan, &store(), ScanEvent::Detected(None), 0),
        ScanAction::Sleep(_)
    ));
    assert!(scan.face_frame.is_none());
    assert!(matches!(
        auth().authenticate_scan(
            &mut scan,
            &EmbeddingStore::default(),
            ScanEvent::Encoded(softs(&[1.0])),
            0
        ),
        ScanAction::Failed(FaceAuthError::NoEmbeddings)
    ));
}

#[test]
fn enrollment_collects_embeddings() {
    let auth = auth();
    let mut e = auth.enroll(None, 2, 250, Some(66), 10).unwrap();
    assert_eq!(e.deadline_ns, 10 + 2 * (250 + 66 * 50) * MS);
    assert!(matches!(auth.capture_embeddings(&mut e, EnrollEvent::Resumed, 11), EnrollAction::Capture));
    assert!(matches!(
        auth.capture_embeddings(&mut e, EnrollEvent::Captured(blank()), 11),
        EnrollAction::Sleep(66)
    ));
    for round in 0..2 {
        assert!(matches!(
            auth.capture_embeddings(&mut e, EnrollEvent::Captured(lively(round)), 11),
            EnrollAction::Detect(_)
        ));
        if round == 0 {
            assert!(matches!(
                auth.capture_embeddings(&mut e, EnrollEvent::Detected(None), 11),
                EnrollAction::Sleep(250)
            ));
            auth.capture_embeddings(&mut e, EnrollEvent::Captured(lively(9)), 11);
        }
        assert!(matches!(
            auth.capture_embeddings(&mut e, EnrollEvent::Detected(Some(face())), 11),
            EnrollAction::Encode(_)
        ));
        let action = auth.capture_embeddings(&mut e, EnrollEvent::Encoded(softs(&[0.0, 2.0])), 11);
        if round == 0 {
            assert!(matches!(action, EnrollAction::Sleep(250)));
        } else {
            assert!(matches!(action, EnrollAction::Finished));
        }
    }
    assert_eq!(e.attempts, 4);
    assert_eq!(e.added(), 2);
    assert_eq!(e.store.embeddings, vec![softs(&[0.0, 1.0]), softs(&[0.0, 1.0])]);
    assert_eq!(e.file(&auth, None)[8..22].to_vec(), b"w600k_mbf.onnx".to_vec());
}

#[test]
fn enrollment_fails_without_a_face() {
    let mut e = auth().enroll(None, 3, 10, None, 0).unwrap();
    let deadline = e.deadline_ns;
    assert_eq!(e.retry_delay_ms, 100);
    assert!(matches!(
        auth().capture_embeddings(&mut e, EnrollEvent::Resumed, deadline - 1),
        EnrollAction::Capture
    ));
    assert!(matches!(
        auth().capture_embeddings(&mut e, EnrollEvent::Resumed, deadline),
        EnrollAction::Failed(FaceAuthError::NothingCaptured)
    ));
}

#[test]
fn enrollment_adds_to_what_is_there() {
    let auth = auth();
    let mut old = EmbeddingStore::default();
    old.add_embedding(vec![soft(0.5); 512]);
    let file = old.save("w600k_mbf.onnx");
    let mut e = auth.enroll_append(None, Some(&file), None, 1, 10, None, 0).unwrap();
    assert_eq!(e.existing, 1);
    assert!(matches!(
        auth.capture_embeddings(&mut e, EnrollEvent::Encoded(vec![soft(1.0)]), 0),
        EnrollAction::Finished
    ));
    assert_eq!(e.added(), 1);
    assert_eq!(e.store.embeddings.len(), 2);
    assert_eq!(e.store.embeddings[0], vec![soft(0.5); 512]);
    let r50 = old.save("w600k_r50.onnx");
    assert!(matches!(
        auth.enroll_append(None, Some(&r50), None, 1, 10, None, 0),
        Err(FaceAuthError::ModelMismatch)
    ));
    assert_eq!(auth.enroll_append(None, None, None, 1, 10, None, 0).unwrap().existing, 0);
    assert_eq!(auth.enroll_append(None, Some(&vec![1]), None, 1, 10, None, 0).unwrap().existing, 0);
    let mut config = FaceAuthConfig::default();
    config.pinned_camera_path = Some("/bus".to_string());
    config.pinned_camera_index = Some(2);
    let pinned = FaceAuth::new(config).unwrap();
    assert!(matches!(
        pinned.enroll(Some(("/other", 2)), 1, 10, None, 0),
        Err(FaceAuthError::CameraMismatch)
    ));
    assert!(matches!(
        pinned.enroll_append(None, None, None, 1, 10, None, 0),
        Err(FaceAuthError::CameraMismatch)
    ));
}

#[test]
fn camera_list_lines() {
    let expect = |a: &str, b: &str, c: &str, d: &str, e: &str, f: &str| {
        format!("{:<14} {:<10} {:<24} {:<10} {:<12} {}", a, b, c, d, e, f)
    };
    assert_eq!(header_row(), expect("DEVICE", "DRIVER", "CARD", "VID:PID", "FORMAT", "IR GUESS"));
    let caps: Result<CameraCaps, String> = Ok(CameraCaps {
        driver: "uvcvideo".to_string(),
        card: "Integrated_Webcam_FHD_IR".to_string(),
    });
    let ids = Some(("2b7e".to_string(), "55c0".to_string()));
    assert_eq!(
        describe_device("/dev/video2", &caps, &ids, Some((360, 360, 0x59455247))),
        expect("/dev/video2", "uvcvideo", "Integrated_Webcam_FHD_IR", "2b7e:55c0", "360x360 GREY", "likely")
    );
    let none: Result<CameraCaps, String> = Err("gone".to_string());
    assert_eq!(
        describe_device("/dev/video3", &none, &None, None),
        expect("/dev/video3", "?", "<unavailable: gone>", "-", "-", "")
    );
    let long: Result<CameraCaps, String> = Ok(CameraCaps {
        driver: "d\u{e9}".to_string(),
        card: "a name that is longer than its column".to_string(),
    });
    assert_eq!(
        describe_device("/dev/a-long-device-name", &long, &ids, Some((1920, 1080, 0x56595559))),
        expect("/dev/a-long-device-name", "d\u{e9}", "a name that is longer than its column", "2b7e:55c0", "1920x1080 YUYV", "")
    );
}

#[test]
fn frames_are_dumped_as_pgm() {
    let frame = IrFrame { data: vec![0x0102, 0xfffe], width: 2, height: 1 };
    let mut expected = b"P5\n2 1\n65535\n".to_vec();
    expected.extend([1, 2, 0xff, 0xfe]);
    assert_eq!(dump_frame(&frame), expected);
}

#[test]
fn photos_become_frames_and_get_a_verdict() {
    let frame = frame_from_luma(&vec![0, 1, 255], 3, 1);
    assert_eq!(frame.data, vec![0, 257, 65535]);
    assert_eq!((frame.width, frame.height), (3, 1));
    assert_eq!(verdict(soft(0.6), soft(0.6)), "PASS (would match)");
    assert_eq!(verdict(soft(0.59), soft(0.6)), "fail (would not match)");
    assert_eq!(verdict(soft(f32::NAN), soft(0.6)), "fail (would not match)");
}

#[test]
fn enrolled_files_are_accepted_again() {
    let auth = auth();
    let mut e = auth.enroll(None, 1, 10, None, 0).unwrap();
    assert!(matches!(
        auth.capture_embeddings(&mut e, EnrollEvent::Encoded(vec![soft(1.0); 512]), 0),
        EnrollAction::Finished
    ));
    let store = auth.begin(None, Some(&e.file(&auth, None)), None).unwrap();
    assert_eq!(store.embeddings, e.store.embeddings);
    assert!(matches!(
        auth.begin(None, Some(&e.file(&auth, Some("/x/r50.onnx"))), None),
        Err(FaceAuthError::ModelMismatch)
    ));
}

#[test]
fn attempts_pass_every_gate_in_order() {
    let mut config = FaceAuthConfig::default();
    config.pinned_camera_path = Some("/bus".to_string());
    config.pinned_camera_index = Some(2);
    let auth = FaceAuth::new(config).unwrap();
    let mut enrolled = EmbeddingStore::default();
    enrolled.add_embedding(vec![soft(0.5); 512]);
    let good = enrolled.save("w600k_mbf.onnx");
    let other = enrolled.save("w600k_r50.onnx");
    let locked = LockoutState { failures: 5, last_failure_unix_ms: 1_000 }.save();
    let here = Some(("/bus", 2));

    let store = auth.begin_attempt(None, 1_500, here, Some(&good), None).unwrap();
    assert_eq!(store.embeddings, enrolled.embeddings);
    assert_eq!(store.model_tag.as_deref(), Some("w600k_mbf.onnx"));
    assert!(matches!(
        auth.begin_attempt(Some(&locked), 1_500, None, None, None),
        Err(Refusal::LockedOut(l)) if l.failures == 5 && l.remaining_ms == 1_500
    ));
    assert!(auth.begin_attempt(Some(&locked), 3_000, here, Some(&good), None).is_ok());
    assert!(matches!(
        auth.begin_attempt(None, 1_500, Some(("/bus", 3)), None, None),
        Err(Refusal::Failed(FaceAuthError::CameraMismatch))
    ));
    assert!(matches!(
        auth.begin_attempt(None, 1_500, here, None, None),
        Err(Refusal::Failed(FaceAuthError::NoEmbeddings))
    ));
    assert!(matches!(
        auth.begin_attempt(None, 1_500, here, Some(&other), None),
        Err(Refusal::Failed(FaceAuthError::ModelMismatch))
    ));
    // photos are not asked for a camera
    assert!(auth.read_enrolled(Some(&good), None).is_ok());
    assert!(matches!(
        auth.read_enrolled(Some(&other), None),
        Err(FaceAuthError::ModelMismatch)
    ));
}
