//! Settings, and what holds where they are not set.
use crate::error::FaceAuthError;
use crate::float32::Float32;
use crate::lockout::LockoutPolicy;
use crate::paths::{file_name, join_path, joined, name_of};
use crate::storage::text_of;
use crate::text::same_text;
use vstd::prelude::*;

verus! {

/// The system's settings file.
pub open spec fn system_config() -> Seq<char> {
    "/etc/face-auth.toml"@
}

/// The settings. What is not set has a default, or is found out from the machine.
#[derive(Debug, Clone)]
pub struct FaceAuthConfig {
    pub device: Option<String>,
    pub threshold: Option<Float32>,
    pub model_path: Option<String>,
    pub embeddings_dir: Option<String>,
    pub capture_timeout_ms: Option<u64>,
    pub detector_model_path: Option<String>,
    pub detector_threshold: Option<Float32>,
    pub scan_duration_ms: Option<u64>,
    pub scan_interval_ms: Option<u64>,
    pub backend: Option<String>,
    pub npu_device: Option<String>,
    pub liveness_motion_threshold: Option<Float32>,
    pub pinned_camera_path: Option<String>,
    pub pinned_camera_index: Option<u32>,
    pub lockout_threshold: Option<u32>,
    pub lockout_base_delay_ms: Option<u64>,
    pub lockout_max_delay_ms: Option<u64>,
}

/// 0.6
pub const DEFAULT_THRESHOLD_BITS: u32 = 0x3f19_999a;

/// 0.5
pub const DEFAULT_DETECTOR_THRESHOLD_BITS: u32 = 0x3f00_0000;

/// 0.01
pub const DEFAULT_MOTION_THRESHOLD_BITS: u32 = 0x3c23_d70a;

impl Default for FaceAuthConfig {
    fn default() -> (r: FaceAuthConfig)
        ensures
            r.device is None,
            r.threshold == Some(Float32 { bits: DEFAULT_THRESHOLD_BITS }),
            r.model_path is None,
            r.embeddings_dir is None,
            r.capture_timeout_ms == Some(5000u64),
            r.detector_model_path is None,
            r.detector_threshold == Some(Float32 { bits: DEFAULT_DETECTOR_THRESHOLD_BITS }),
            r.scan_duration_ms == Some(5000u64),
            r.scan_interval_ms is None,
            text_of(r.backend) == Some("tract"@),
            text_of(r.npu_device) == Some("NPU"@),
            r.liveness_motion_threshold == Some(Float32 { bits: DEFAULT_MOTION_THRESHOLD_BITS }),
            r.pinned_camera_path is None,
            r.pinned_camera_index is None,
            r.lockout_threshold == Some(5u32),
            r.lockout_base_delay_ms == Some(2_000u64),
            r.lockout_max_delay_ms == Some(300_000u64),
    {
        FaceAuthConfig {
            device: None,
            threshold: Some(Float32::from_bits(DEFAULT_THRESHOLD_BITS)),
            model_path: None,
            embeddings_dir: None,
            capture_timeout_ms: Some(5000),
            detector_model_path: None,
            detector_threshold: Some(Float32::from_bits(DEFAULT_DETECTOR_THRESHOLD_BITS)),
            scan_duration_ms: Some(5000),
            scan_interval_ms: None,
            backend: Some("tract".to_owned()),
            npu_device: Some("NPU".to_owned()),
            liveness_motion_threshold: Some(Float32::from_bits(DEFAULT_MOTION_THRESHOLD_BITS)),
            pinned_camera_path: None,
            pinned_camera_index: None,
            lockout_threshold: Some(5),
            lockout_base_delay_ms: Some(2_000),
            lockout_max_delay_ms: Some(300_000),
        }
    }
}

/// What is set, else what was found, else the default.
pub open spec fn layered(set: Option<Seq<char>>, found: Option<Seq<char>>, default: Seq<char>) -> Seq<
    char,
> {
    match set {
        Some(s) => s,
        None => match found {
            Some(f) => f,
            None => default,
        },
    }
}

/// The contents of an optional text.
pub open spec fn found_text(s: Option<&str>) -> Option<Seq<char>> {
    match s {
        Some(s) => Some(s@),
        None => None,
    }
}

fn pick(set: &Option<String>, found: Option<&str>, default: &str) -> (r: String)
    ensures
        r@ == layered(text_of(*set), found_text(found), default@),
{
    match set {
        Some(s) => s.clone(),
        None => match found {
            Some(f) => f.to_owned(),
            None => default.to_owned(),
        },
    }
}

/// What a setting is, or its default.
pub open spec fn or_default<T>(set: Option<T>, default: T) -> T {
    match set {
        Some(x) => x,
        None => default,
    }
}

/// The settings files that are there, the stronger one last.
pub open spec fn config_files(
    system_exists: bool,
    config_dir: Option<Seq<char>>,
    user_exists: bool,
) -> Seq<Seq<char>> {
    let system = if system_exists {
        seq![system_config()]
    } else {
        Seq::empty()
    };
    match config_dir {
        Some(dir) if user_exists => system.push(joined(dir, "face-auth.toml"@)),
        _ => system,
    }
}

impl FaceAuthConfig {
    /// The settings files to read, the stronger one last: the system's, then the user's. The
    /// environment is stronger than both.
    pub fn sources(system_exists: bool, config_dir: Option<&str>, user_exists: bool) -> (r: Vec<
        String,
    >)
        ensures
            crate::devices::texts(r@) == config_files(
                system_exists,
                found_text(config_dir),
                user_exists,
            ),
    {
        let mut files: Vec<String> = Vec::new();
        if system_exists {
            files.push("/etc/face-auth.toml".to_owned());
        }
        match config_dir {
            Some(dir) => {
                if user_exists {
                    files.push(join_path(dir, "face-auth.toml"));
                }
            },
            None => {},
        }
        assert(crate::devices::texts(files@) =~= config_files(
            system_exists,
            found_text(config_dir),
            user_exists,
        ));
        files
    }

    /// The camera device. `detected` is the infrared camera that was found, if any.
    pub fn device(&self, detected: Option<&str>) -> (r: String)
        ensures
            r@ == layered(text_of(self.device), found_text(detected), "/dev/video3"@),
    {
        pick(&self.device, detected, "/dev/video3")
    }

    /// How similar an embedding must be to match.
    pub fn threshold(&self) -> (r: Float32)
        ensures
            r == or_default(self.threshold, Float32 { bits: DEFAULT_THRESHOLD_BITS }),
    {
        match self.threshold {
            Some(t) => t,
            None => Float32::from_bits(DEFAULT_THRESHOLD_BITS),
        }
    }

    /// The recognition model. `env` is the value of `FACE_AUTH_MODEL_PATH`, if set.
    pub fn model_path(&self, env: Option<&str>) -> (r: String)
        ensures
            r@ == layered(
                text_of(self.model_path),
                found_text(env),
                "/usr/local/share/face-auth/w600k_mbf.onnx"@,
            ),
    {
        pick(&self.model_path, env, "/usr/local/share/face-auth/w600k_mbf.onnx")
    }

    /// The tag that is stored with embeddings: the model's file name, so that a copy at another
    /// path is the same model. The whole path where it has no file name.
    pub fn model_tag(&self, env: Option<&str>) -> (r: String)
        ensures
            ({
                let path = layered(
                    text_of(self.model_path),
                    found_text(env),
                    "/usr/local/share/face-auth/w600k_mbf.onnx"@,
                );
                r@ == match name_of(path) {
                    Some(name) => name,
                    None => path,
                }
            }),
    {
        let path = self.model_path(env);
        match file_name(path.as_str()) {
            Some(name) => name,
            None => path,
        }
    }

    /// How long to wait for a frame. A setting beyond what the driver can wait is the longest
    /// wait there is, so that every wait ends.
    pub fn capture_timeout_ms(&self) -> (r: i32)
        ensures
            ({
                let ms = or_default(self.capture_timeout_ms, 5000u64);
                r == if ms <= i32::MAX {
                    ms as i32
                } else {
                    i32::MAX
                }
            }),
            r >= 0,
    {
        let ms: u64 = match self.capture_timeout_ms {
            Some(ms) => ms,
            None => 5000,
        };
        if ms <= i32::MAX as u64 {
            ms as i32
        } else {
            i32::MAX
        }
    }

    /// Where embeddings are stored.
    pub fn embeddings_dir(&self) -> (r: String)
        ensures
            r@ == layered(text_of(self.embeddings_dir), None, "/var/lib/face-auth"@),
    {
        pick(&self.embeddings_dir, None, "/var/lib/face-auth")
    }

    /// The detection model. `env` is the value of `FACE_AUTH_DETECTOR_MODEL_PATH`, if set.
    pub fn detector_model_path(&self, env: Option<&str>) -> (r: String)
        ensures
            r@ == layered(
                text_of(self.detector_model_path),
                found_text(env),
                "/usr/local/share/face-auth/version-slim-320.onnx"@,
            ),
    {
        pick(
            &self.detector_model_path,
            env,
            "/usr/local/share/face-auth/version-slim-320.onnx",
        )
    }

    /// How high a face score must be.
    pub fn detector_threshold(&self) -> (r: Float32)
        ensures
            r == or_default(
                self.detector_threshold,
                Float32 { bits: DEFAULT_DETECTOR_THRESHOLD_BITS },
            ),
    {
        match self.detector_threshold {
            Some(t) => t,
            None => Float32::from_bits(DEFAULT_DETECTOR_THRESHOLD_BITS),
        }
    }

    /// How long a scan lasts.
    pub fn scan_duration_ms(&self) -> (r: u64)
        ensures
            r == or_default(self.scan_duration_ms, 5000u64),
    {
        match self.scan_duration_ms {
            Some(ms) => ms,
            None => 5000,
        }
    }

    /// The delay between scan attempts: the setting, else the camera's own frame interval
    /// `native`, else 100.
    pub fn scan_interval_ms(&self, native: Option<u64>) -> (r: u64)
        ensures
            r == or_default(self.scan_interval_ms, or_default(native, 100u64)),
    {
        match self.scan_interval_ms {
            Some(ms) => ms,
            None => match native {
                Some(ms) => ms,
                None => 100,
            },
        }
    }

    /// What runs the networks.
    pub fn backend(&self) -> (r: String)
        ensures
            r@ == layered(text_of(self.backend), None, "tract"@),
    {
        pick(&self.backend, None, "tract")
    }

    /// The device for the backend `openvino`.
    pub fn npu_device(&self) -> (r: String)
        ensures
            r@ == layered(text_of(self.npu_device), None, "NPU"@),
    {
        pick(&self.npu_device, None, "NPU")
    }

    /// Which fraction of the pixels must change between face frames of someone alive.
    pub fn liveness_motion_threshold(&self) -> (r: Float32)
        ensures
            r == or_default(
                self.liveness_motion_threshold,
                Float32 { bits: DEFAULT_MOTION_THRESHOLD_BITS },
            ),
    {
        match self.liveness_motion_threshold {
            Some(t) => t,
            None => Float32::from_bits(DEFAULT_MOTION_THRESHOLD_BITS),
        }
    }

    /// Whether a camera is pinned: both its bus path and its index are set.
    pub open spec fn pinned(&self) -> Option<(Seq<char>, u32)> {
        match (self.pinned_camera_path, self.pinned_camera_index) {
            (Some(path), Some(index)) => Some((path@, index)),
            _ => None,
        }
    }

    /// Whether the camera's identity has to be looked up.
    pub fn has_pinned_camera(&self) -> (r: bool)
        ensures
            r == self.pinned() is Some,
    {
        self.pinned_camera_path.is_some() && self.pinned_camera_index.is_some()
    }

    /// Refuses every camera but the pinned one. `actual` is the bus path and the index that
    /// the configured device has right now; `None` where they cannot be found out, which is
    /// refused too. Without a pinned camera every one is accepted.
    pub fn verify_pinned_camera(&self, actual: Option<(&str, u32)>) -> (r: Result<
        (),
        FaceAuthError,
    >)
        ensures
            r is Ok <==> self.pinned() is None || (actual matches Some((path, index))
                && self.pinned() == Some((path@, index))),
            r matches Err(e) ==> e is CameraMismatch,
    {
        match (&self.pinned_camera_path, self.pinned_camera_index) {
            (Some(pinned_path), Some(pinned_index)) => match actual {
                Some((path, index)) => {
                    if same_text(path, pinned_path.as_str()) && index == pinned_index {
                        Ok(())
                    } else {
                        Err(FaceAuthError::CameraMismatch)
                    }
                },
                None => Err(FaceAuthError::CameraMismatch),
            },
            _ => Ok(()),
        }
    }

    /// The backoff after repeated failures. Only the tarpit cannot be set.
    pub fn lockout_policy(&self) -> (r: LockoutPolicy)
        ensures
            r.threshold == or_default(self.lockout_threshold, 5u32),
            r.base_delay_ms == or_default(self.lockout_base_delay_ms, 2_000u64),
            r.max_delay_ms == or_default(self.lockout_max_delay_ms, 300_000u64),
            r.max_tarpit_ms == 3_000,
    {
        let defaults = LockoutPolicy::default();
        LockoutPolicy {
            threshold: match self.lockout_threshold {
                Some(n) => n,
                None => defaults.threshold,
            },
            base_delay_ms: match self.lockout_base_delay_ms {
                Some(ms) => ms,
                None => defaults.base_delay_ms,
            },
            max_delay_ms: match self.lockout_max_delay_ms {
                Some(ms) => ms,
                None => defaults.max_delay_ms,
            },
            max_tarpit_ms: defaults.max_tarpit_ms,
        }
    }
}

/// Two models in files of one name share a tag, wherever they lie.
pub proof fn tags_ignore_directories(dir: Seq<char>, other: Seq<char>, name: Seq<char>)
    requires
        name.len() > 0,
        name != seq!['.'],
        name != seq!['.', '.'],
        forall|i: int| 0 <= i < name.len() ==> name[i] != '/',
    ensures
        name_of(joined(dir, name)) == Some(name),
        name_of(joined(dir, name)) == name_of(joined(other, name)),
{
    lemma_name_of_joined(dir, name);
    lemma_name_of_joined(other, name);
}

proof fn lemma_name_of_joined(dir: Seq<char>, name: Seq<char>)
    requires
        name.len() > 0,
        name != seq!['.'],
        name != seq!['.', '.'],
        forall|i: int| 0 <= i < name.len() ==> name[i] != '/',
    ensures
        name_of(joined(dir, name)) == Some(name),
{
    let path = joined(dir, name);
    let n = path.len() as int;
    let k = crate::paths::last_separator(path, n);
    crate::paths::lemma_last_separator(path, n);
    let start = n - name.len();
    assert(path.subrange(start, n) =~= name);
    assert(k < start) by {
        if k >= start {
            assert(path[k] == name[k - start]);
        }
    }
    assert(k == start - 1) by {
        if start > 0 {
            assert(path[start - 1] == '/');
        }
    }
}

} // verus!
