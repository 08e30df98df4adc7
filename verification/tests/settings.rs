use face_auth_core::config::FaceAuthConfig;
use face_auth_core::error::FaceAuthError;
use face_auth_core::float32::Float32;

fn soft(x: f32) -> Float32 {
    Float32::from_bits(x.to_bits())
}

#[test]
fn test_config_defaults() {
    let config = FaceAuthConfig::default();
    assert_eq!(f32::from_bits(config.threshold().to_bits()), 0.6);
    assert!(config.device(None).starts_with("/dev/video"));
}

fn unset() -> FaceAuthConfig {
    FaceAuthConfig {
        device: None,
        threshold: None,
        model_path: None,
        embeddings_dir: None,
        capture_timeout_ms: None,
        detector_model_path: None,
        detector_threshold: None,
        scan_duration_ms: None,
        scan_interval_ms: None,
        backend: None,
        npu_device: None,
        liveness_motion_threshold: None,
        pinned_camera_path: None,
        pinned_camera_index: None,
        lockout_threshold: None,
        lockout_base_delay_ms: None,
        lockout_max_delay_ms: None,
    }
}

#[test]
fn unset_settings_have_the_same_values_as_the_defaults() {
    for config in [unset(), FaceAuthConfig::default()] {
        assert_eq!(config.threshold(), soft(0.6));
        assert_eq!(config.detector_threshold(), soft(0.5));
        assert_eq!(config.liveness_motion_threshold(), soft(0.01));
        assert_eq!(config.capture_timeout_ms(), 5000);
        assert_eq!(config.scan_duration_ms(), 5000);
        assert_eq!(config.scan_interval_ms(None), 100);
        assert_eq!(config.scan_interval_ms(Some(66)), 66);
        assert_eq!(config.backend(), "tract");
        assert_eq!(config.npu_device(), "NPU");
        assert_eq!(config.embeddings_dir(), "/var/lib/face-auth");
        assert_eq!(config.device(None), "/dev/video3");
        assert_eq!(config.device(Some("/dev/video2")), "/dev/video2");
        assert_eq!(config.model_path(None), "/usr/local/share/face-auth/w600k_mbf.onnx");
        assert_eq!(config.model_tag(None), "w600k_mbf.onnx");
        assert_eq!(
            config.detector_model_path(None),
            "/usr/local/share/face-auth/version-slim-320.onnx"
        );
        assert_eq!(config.detector_model_path(Some("d.onnx")), "d.onnx");
        let policy = config.lockout_policy();
        assert_eq!(policy.threshold, 5);
        assert_eq!(policy.base_delay_ms, 2_000);
        assert_eq!(policy.max_delay_ms, 300_000);
        assert_eq!(policy.max_tarpit_ms, 3_000);
    }
}

#[test]
fn what_is_set_wins() {
    let mut config = unset();
    config.device = Some("/dev/video7".to_string());
    config.model_path = Some("/models/r50.onnx".to_string());
    config.scan_interval_ms = Some(5);
    config.capture_timeout_ms = Some(7);
    config.lockout_threshold = Some(0);
    config.threshold = Some(soft(0.75));
    config.backend = Some("openvino".to_string());
    assert_eq!(config.device(Some("/dev/video2")), "/dev/video7");
    assert_eq!(config.model_path(Some("env.onnx")), "/models/r50.onnx");
    assert_eq!(config.scan_interval_ms(Some(66)), 5);
    assert_eq!(config.capture_timeout_ms(), 7);
    assert_eq!(config.lockout_policy().threshold, 0);
    assert_eq!(config.threshold(), soft(0.75));
    assert_eq!(config.backend(), "openvino");
}

#[test]
fn every_capture_timeout_ends() {
    let timeout = |ms: u64| {
        let mut config = unset();
        config.capture_timeout_ms = Some(ms);
        config.capture_timeout_ms()
    };
    assert_eq!(timeout(0), 0);
    assert_eq!(timeout(10_000), 10_000);
    assert_eq!(timeout(i32::MAX as u64), i32::MAX);
    assert_eq!(timeout(i32::MAX as u64 + 1), i32::MAX);
    assert_eq!(timeout(0xffff_ffff), i32::MAX);
    assert_eq!(timeout(u64::MAX), i32::MAX);
}

#[test]
fn model_tags_are_file_names() {
    let tag = |path: &str| {
        let mut config = unset();
        config.model_path = Some(path.to_string());
        config.model_tag(None)
    };
    assert_eq!(tag("/a/b/w600k_r50.onnx"), "w600k_r50.onnx");
    assert_eq!(tag("w600k_r50.onnx"), "w600k_r50.onnx");
    assert_eq!(tag("/a/b/"), "b");
    assert_eq!(tag("/a/b/."), "b");
    assert_eq!(tag("/a//b/./"), "b");
    assert_eq!(tag("/a/.."), "/a/..");
    assert_eq!(tag("/"), "/");
    assert_eq!(tag(""), "");
    assert_eq!(tag("."), ".");
    assert_eq!(tag("..."), "...");
    for path in ["/a/b/w600k_r50.onnx", "x", "/a/b/", "/a/b/.", "/a//b/./", "./c", "../d", "e/../f"] {
        let name = std::path::Path::new(path).file_name().unwrap().to_str().unwrap();
        assert_eq!(tag(path), name);
    }
    for path in ["/a/..", "/", "", ".", "..", "a/../..", "./"] {
        assert!(std::path::Path::new(path).file_name().is_none());
        assert_eq!(tag(path), path);
    }
    assert_eq!(unset().model_tag(Some("/x/other.onnx")), "other.onnx");
}

#[test]
fn only_the_pinned_camera_is_accepted() {
    let mut config = unset();
    assert!(!config.has_pinned_camera());
    assert!(config.verify_pinned_camera(None).is_ok());
    config.pinned_camera_path = Some("/sys/devices/usb3/3-7".to_string());
    assert!(!config.has_pinned_camera());
    assert!(config.verify_pinned_camera(Some(("elsewhere", 9))).is_ok());
    config.pinned_camera_index = Some(0);
    assert!(config.has_pinned_camera());
    assert!(config.verify_pinned_camera(Some(("/sys/devices/usb3/3-7", 0))).is_ok());
    for actual in [
        None,
        Some(("/sys/devices/usb3/3-7", 1)),
        Some(("/sys/devices/usb3/3-8", 0)),
        Some(("/sys/devices/usb3/3-77", 0)),
        Some(("", 0)),
    ] {
        assert!(matches!(
            config.verify_pinned_camera(actual),
            Err(FaceAuthError::CameraMismatch)
        ));
    }
}

#[test]
fn the_users_settings_come_after_the_systems() {
    let both = FaceAuthConfig::sources(true, Some("/home/a/.config"), true);
    assert_eq!(both, vec!["/etc/face-auth.toml", "/home/a/.config/face-auth.toml"]);
    assert_eq!(
        FaceAuthConfig::sources(false, Some("/home/a/.config"), true),
        vec!["/home/a/.config/face-auth.toml"]
    );
    assert_eq!(FaceAuthConfig::sources(true, None, false), vec!["/etc/face-auth.toml"]);
    assert!(FaceAuthConfig::sources(false, Some("/x"), false).is_empty());
}
