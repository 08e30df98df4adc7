//! From a frame to a verdict.
//!
//! The networks run outside of this library: it prepares their input, reads their output, and
//! decides what happens next.
use crate::capture::IrFrame;
use crate::config::{
    found_text, layered, or_default, FaceAuthConfig, DEFAULT_DETECTOR_THRESHOLD_BITS,
    DEFAULT_MOTION_THRESHOLD_BITS, DEFAULT_THRESHOLD_BITS,
};
use crate::detector::{
    detector_input, preprocess_for_detector, raw_frame_has_content, FaceBox, FaceDetector,
};
use crate::equalize::{clahe, equalization, tile_count, CLAHE_TILES_X, CLAHE_TILES_Y};
use crate::error::FaceAuthError;
use crate::float32::Float32;
use crate::inference::{chosen_backend, unit_vector, FaceEncoder};
use crate::lockout::{check, contents, decision, recorded, Lockout, LockoutPolicy};
use crate::paths::name_of;
use crate::preprocess::{
    crop_to_face, crop_window, encoder_input, holds_its_positions, preprocess_ir_frame, sample_at,
};
use crate::preprocess_laws::crops_stay_in_the_frame;
use crate::resample::{eight_bit, resized_pixels};
use crate::statistics::shows_content;
use crate::storage::{parsed, text_of, EmbeddingStore};
use crate::verify::{best_similarity, verify_embedding};
use vstd::prelude::*;

verus! {

/// 0.3: how much of the face's own width and height is added on each side before cropping.
pub const FACE_CROP_MARGIN_BITS: u32 = 0x3e99_999a;

/// So many samples add up exactly in double precision.
pub const MAX_SAMPLES: u64 = 0x20_0000_0000;

impl IrFrame {
    /// A frame that every step from the camera to the networks can take. Each pixel has a
    /// sample. The samples add up exactly in double precision. A side is cut into tiles with
    /// products of 32 bits, so for each of at most 8 tiles it counts that often. Cropping
    /// computes in single precision, which must not make a side longer than it is: a crop at
    /// its end would lie outside of the frame. Resizing needs memory for its intermediate image.
    pub open spec fn usable(&self) -> bool {
        &&& self.complete()
        &&& self.data@.len() <= MAX_SAMPLES
        &&& self.width > 0 && self.height > 0 ==> {
            &&& self.width * tile_count(CLAHE_TILES_X, self.width) <= u32::MAX
            &&& self.height * tile_count(CLAHE_TILES_Y, self.height) <= u32::MAX
        }
        &&& self.width < u32::MAX && holds_its_positions(self.width)
        &&& self.height < u32::MAX && holds_its_positions(self.height)
        &&& self.width * 240 * 16 <= isize::MAX
    }

    /// Whether every step from the camera to the networks can take this frame.
    pub fn is_usable(&self) -> (r: bool)
        ensures
            r == self.usable(),
    {
        proof {
            assert(0 <= self.width * self.height <= 0xffff_ffff * 0xffff_ffff)
                by (nonlinear_arith)
                requires
                    0 <= self.width <= 0xffff_ffff,
                    0 <= self.height <= 0xffff_ffff,
            ;
            lemma_tiles_fit(self.width, CLAHE_TILES_X);
            lemma_tiles_fit(self.height, CLAHE_TILES_Y);
        }
        let pixels: u64 = self.width as u64 * self.height as u64;
        if pixels > self.data.len() as u64 || pixels > u32::MAX as u64 {
            return false;
        }
        if self.width > 0 && self.height > 0 && (self.width as u64 * 8 > u32::MAX as u64
            || self.height as u64 * 8 > u32::MAX as u64) {
            return false;
        }
        self.data.len() as u64 <= MAX_SAMPLES && self.width < u32::MAX && self.height < u32::MAX
            && Float32::from_u64(self.width as u64).round_to_u32() <= self.width
            && Float32::from_u64(self.height as u64).round_to_u32() <= self.height
            && self.width as u64 * 240 * 16 <= isize::MAX as u64
    }

    /// A frame that an attempt can take from the camera: of one that shows nothing no more is
    /// asked than that its samples can be added up.
    pub open spec fn acceptable(&self) -> bool {
        &&& self.data@.len() <= MAX_SAMPLES
        &&& shows_content(self.data@) ==> self.usable()
    }

    /// Whether an attempt can take this frame from the camera.
    pub fn is_acceptable(&self) -> (r: bool)
        ensures
            r == self.acceptable(),
    {
        self.data.len() as u64 <= MAX_SAMPLES && (!raw_frame_has_content(self)
            || self.is_usable())
    }
}

/// Eight tiles, or as many as there are pixels, fit in 32 bits exactly if eight times the axis
/// does.
proof fn lemma_tiles_fit(dim: u32, limit: u32)
    requires
        limit == 8,
    ensures
        dim * tile_count(limit, dim) <= u32::MAX <==> dim * 8 <= u32::MAX,
{
    if dim < 8 {
        assert(dim * dim <= 64) by (nonlinear_arith)
            requires
                0 <= dim < 8,
        ;
    }
}

/// The same frame, equalized.
pub open spec fn equalized_from(raw: IrFrame, frame: IrFrame) -> bool {
    &&& frame.width == raw.width
    &&& frame.height == raw.height
    &&& frame.data@ == equalization(raw.data@, raw.width, raw.height)
}

/// What the detection network is given for a frame.
pub open spec fn detection_input(frame: IrFrame, input: Seq<Float32>) -> bool {
    exists|pixels: Seq<u16>|
        #[trigger] resized_pixels(frame, 320, 240, pixels) && input == detector_input(
            Seq::new(3 * pixels.len(), |i: int| eight_bit(pixels[i / 3]) as u8),
        )
}

/// The part of a frame that shows the face.
pub open spec fn cropped_from(frame: IrFrame, face_box: FaceBox, crop: IrFrame) -> bool {
    let margin = Float32 { bits: FACE_CROP_MARGIN_BITS };
    let ((x1, x2), (y1, y2)) = crop_window(frame.width, frame.height, face_box, margin);
    &&& crop.width == x2 - x1
    &&& crop.height == y2 - y1
    &&& crop.data@.len() == crop.width * crop.height
    &&& forall|x: int, y: int|
        0 <= x < crop.width && 0 <= y < crop.height ==> #[trigger] sample_at(
            crop.data@,
            crop.width,
            x,
            y,
        ) == sample_at(frame.data@, frame.width, x1 + x, y1 + y)
}

/// What the recognition network is given for the face in a frame.
pub open spec fn recognition_input(frame: IrFrame, face_box: FaceBox, input: Seq<Float32>) -> bool {
    exists|crop: IrFrame, pixels: Seq<u16>|
        cropped_from(frame, face_box, crop) && #[trigger] resized_pixels(crop, 112, 112, pixels)
            && input == encoder_input(pixels)
}

/// Equalizes a raw frame that shows something; nothing for one that does not.
pub fn prepare_frame(raw: IrFrame) -> (r: Option<IrFrame>)
    requires
        raw.acceptable(),
    ensures
        r is Some <==> shows_content(raw.data@),
        r matches Some(frame) ==> equalized_from(raw, frame) && frame.usable(),
{
    if !raw_frame_has_content(&raw) {
        return None;
    }
    let mut frame = raw;
    clahe(&mut frame);
    Some(frame)
}

/// The detection network's input for an equalized frame.
pub fn prepare_detection(frame: &IrFrame) -> (r: Vec<Float32>)
    requires
        frame.usable(),
    ensures
        detection_input(*frame, r@),
{
    preprocess_for_detector(frame)
}

/// The recognition network's input for the face in an equalized frame.
pub fn prepare_recognition(frame: &IrFrame, face_box: &FaceBox) -> (r: Vec<Float32>)
    requires
        frame.usable(),
    ensures
        recognition_input(*frame, *face_box, r@),
{
    let margin = Float32::from_bits(FACE_CROP_MARGIN_BITS);
    proof {
        crops_stay_in_the_frame(*frame, *face_box, margin);
    }
    let crop = crop_to_face(frame, face_box, margin);
    assert(cropped_from(*frame, *face_box, crop));
    proof {
        assert(crop.width * crop.height <= frame.width * frame.height) by (nonlinear_arith)
            requires
                crop.width <= frame.width,
                crop.height <= frame.height,
        ;
    }
    preprocess_ir_frame(&crop)
}

/// Whether the recognition network's output matches what is enrolled. Nothing enrolled is an
/// error.
pub open spec fn output_matches(
    output: Seq<Float32>,
    store: EmbeddingStore,
    threshold: Float32,
) -> bool {
    threshold.spec_le(
        best_similarity(
            unit_vector(output),
            store.embeddings@,
            store.embeddings@.len() as int,
        ),
    )
}

/// A camera's identity: its bus path and its index.
pub open spec fn known_identity(identity: Option<(&str, u32)>) -> Option<(Seq<char>, u32)> {
    match identity {
        Some((path, index)) => Some((path@, index)),
        None => None,
    }
}

/// Face authentication with the given settings.
pub struct FaceAuth {
    pub config: FaceAuthConfig,
    pub encoder: FaceEncoder,
    pub detector: FaceDetector,
}

/// Why there is to be no attempt.
#[derive(Debug)]
pub enum Refusal {
    /// The user is in a cooldown.
    LockedOut(Lockout),
    Failed(FaceAuthError),
}

/// What comes next in a single attempt.
pub enum OnceStep {
    /// Run the detection network on this input.
    Detect(IrFrame, Vec<Float32>),
    /// Run the recognition network on this input.
    Encode(Vec<Float32>),
    /// Whether the user was recognized.
    Verdict(bool),
    Failed(FaceAuthError),
}

/// What happened in a single attempt.
pub enum OnceEvent {
    /// A raw frame.
    Captured(IrFrame),
    /// What the detection network found in the equalized frame.
    Detected(IrFrame, Option<FaceBox>),
    /// The recognition network's output.
    Encoded(Vec<Float32>),
}

/// How a single attempt goes on.
pub open spec fn once_step(
    event: OnceEvent,
    store: EmbeddingStore,
    threshold: Float32,
    step: OnceStep,
) -> bool {
    match event {
        OnceEvent::Captured(raw) => if shows_content(raw.data@) {
            step matches OnceStep::Detect(frame, input) && equalized_from(raw, frame)
                && frame.usable() && detection_input(frame, input@)
        } else {
            step matches OnceStep::Failed(e) && e is NoFaceDetected
        },
        OnceEvent::Detected(frame, Some(face_box)) => step matches OnceStep::Encode(input)
            && recognition_input(frame, face_box, input@),
        OnceEvent::Detected(_, None) => step matches OnceStep::Failed(e) && e is NoFaceDetected,
        OnceEvent::Encoded(output) => if store.embeddings@.len() == 0 {
            step matches OnceStep::Failed(e) && e is NoEmbeddings
        } else {
            step == OnceStep::Verdict(output_matches(output@, store, threshold))
        },
    }
}

impl FaceAuth {
    /// Face authentication with the given settings. Fails for a backend that this build does
    /// not have.
    pub fn new(config: FaceAuthConfig) -> (r: Result<FaceAuth, FaceAuthError>)
        ensures
            match chosen_backend(layered(text_of(config.backend), None, "tract"@)) {
                Some(b) => r matches Ok(auth) && auth.config == config && auth.encoder.backend == b
                    && auth.detector.backend == b && auth.detector.threshold == or_default(
                    config.detector_threshold,
                    Float32 { bits: DEFAULT_DETECTOR_THRESHOLD_BITS },
                ),
                None => r matches Err(e) && e is BackendUnavailable,
            },
    {
        let backend = config.backend();
        let encoder = match FaceEncoder::new(backend.as_str()) {
            Ok(encoder) => encoder,
            Err(e) => {
                return Err(e);
            },
        };
        match FaceDetector::new(config.detector_threshold(), backend.as_str()) {
            Ok(detector) => Ok(FaceAuth { config, encoder, detector }),
            Err(e) => Err(e),
        }
    }

    /// How similar an embedding must be to match.
    pub open spec fn match_threshold(&self) -> Float32 {
        or_default(self.config.threshold, Float32 { bits: DEFAULT_THRESHOLD_BITS })
    }

    /// Which fraction of the pixels must change between face frames of someone alive.
    pub open spec fn motion_threshold(&self) -> Float32 {
        or_default(
            self.config.liveness_motion_threshold,
            Float32 { bits: DEFAULT_MOTION_THRESHOLD_BITS },
        )
    }

    /// The tag of the model in use.
    pub open spec fn tag(&self, env: Option<Seq<char>>) -> Seq<char> {
        let path = layered(
            text_of(self.config.model_path),
            env,
            "/usr/local/share/face-auth/w600k_mbf.onnx"@,
        );
        match name_of(path) {
            Some(name) => name,
            None => path,
        }
    }

    /// Refuses embeddings of another model than the one in use: comparing across models would
    /// be meaningless. `env` is the value of `FACE_AUTH_MODEL_PATH`, if set.
    pub fn check_model_tag(&self, store: &EmbeddingStore, env: Option<&str>) -> (r: Result<
        (),
        FaceAuthError,
    >)
        ensures
            r is Ok <==> store@.0 is None || store@.0 == Some(self.tag(found_text(env))),
            r matches Err(e) ==> e is ModelMismatch,
    {
        if store.model_tag_matches(self.config.model_tag(env).as_str()) {
            Ok(())
        } else {
            Err(FaceAuthError::ModelMismatch)
        }
    }

    /// Whether the camera with the given identity may be trusted.
    pub open spec fn trusts(&self, identity: Option<(Seq<char>, u32)>) -> bool {
        self.config.pinned() is None || (identity is Some && self.config.pinned() == identity)
    }

    /// The policy that these settings give for repeated failures.
    pub open spec fn policy(&self) -> LockoutPolicy {
        LockoutPolicy {
            threshold: or_default(self.config.lockout_threshold, 5u32),
            base_delay_ms: or_default(self.config.lockout_base_delay_ms, 2_000u64),
            max_delay_ms: or_default(self.config.lockout_max_delay_ms, 300_000u64),
            max_tarpit_ms: 3_000,
        }
    }

    /// Whether an attempt may be made at all: not while the user is in a cooldown. `file` is
    /// the user's lockout file.
    pub fn allow_attempt(&self, file: Option<&Vec<u8>>, now_ms: u64) -> (r: Result<(), Lockout>)
        ensures
            match decision(recorded(contents(file)), self.policy(), now_ms) {
                Some(lockout) => r == Err::<(), Lockout>(lockout),
                None => r is Ok,
            },
    {
        match check(file, &self.config.lockout_policy(), now_ms) {
            Some(lockout) => Err(lockout),
            None => Ok(()),
        }
    }

    /// What is enrolled in an embeddings file, if it may be compared with: there is one, it can
    /// be read, and it comes from the model in use.
    pub open spec fn enrolled(&self, file: Option<Seq<u8>>, env: Option<Seq<char>>) -> Result<
        (Option<Seq<char>>, Seq<Seq<Float32>>),
        FaceAuthError,
    > {
        match file {
            None => Err(FaceAuthError::NoEmbeddings),
            Some(bytes) => match parsed(bytes) {
                Err(e) => Err(e),
                Ok(content) => if content.0 is None || content.0 == Some(self.tag(env)) {
                    Ok(content)
                } else {
                    Err(FaceAuthError::ModelMismatch)
                },
            },
        }
    }

    /// Reads an embeddings file and refuses one of another model. `env` is the value of
    /// `FACE_AUTH_MODEL_PATH`, if set.
    pub fn read_enrolled(&self, file: Option<&Vec<u8>>, env: Option<&str>) -> (r: Result<
        EmbeddingStore,
        FaceAuthError,
    >)
        ensures
            match self.enrolled(contents(file), found_text(env)) {
                Ok(content) => r matches Ok(store) && store@ == content,
                Err(e) => r == Err::<EmbeddingStore, FaceAuthError>(e),
            },
    {
        let store = match EmbeddingStore::load(file) {
            Ok(store) => store,
            Err(e) => {
                return Err(e);
            },
        };
        match self.check_model_tag(&store, env) {
            Ok(_) => Ok(store),
            Err(e) => Err(e),
        }
    }

    /// What must hold before an attempt: the camera is the pinned one, and the user's
    /// embeddings are there and come from the model in use. `identity` is the bus path and the
    /// index of the configured camera, `file` the user's embeddings file.
    pub fn begin(
        &self,
        identity: Option<(&str, u32)>,
        file: Option<&Vec<u8>>,
        env: Option<&str>,
    ) -> (r: Result<EmbeddingStore, FaceAuthError>)
        ensures
            if !self.trusts(known_identity(identity)) {
                r matches Err(e) && e is CameraMismatch
            } else {
                match self.enrolled(contents(file), found_text(env)) {
                    Ok(content) => r matches Ok(store) && store@ == content,
                    Err(e) => r == Err::<EmbeddingStore, FaceAuthError>(e),
                }
            },
    {
        match self.config.verify_pinned_camera(identity) {
            Ok(_) => {},
            Err(e) => {
                return Err(e);
            },
        }
        self.read_enrolled(file, env)
    }

    /// What an attempt is made with: what is enrolled, unless the user is in a cooldown, the
    /// camera is not the pinned one, or the embeddings cannot be used, in that order.
    pub open spec fn granted(
        &self,
        lockout: Option<Seq<u8>>,
        now_ms: u64,
        identity: Option<(Seq<char>, u32)>,
        file: Option<Seq<u8>>,
        env: Option<Seq<char>>,
    ) -> Result<(Option<Seq<char>>, Seq<Seq<Float32>>), Refusal> {
        match decision(recorded(lockout), self.policy(), now_ms) {
            Some(l) => Err(Refusal::LockedOut(l)),
            None => if !self.trusts(identity) {
                Err(Refusal::Failed(FaceAuthError::CameraMismatch))
            } else {
                match self.enrolled(file, env) {
                    Ok(content) => Ok(content),
                    Err(e) => Err(Refusal::Failed(e)),
                }
            },
        }
    }

    /// Starts an attempt: gives the embeddings to match against, or says why there is to be no
    /// attempt. `lockout` is the user's lockout file and `file` the embeddings file; `identity`
    /// is the bus path and the index of the configured camera, and `env` the value of
    /// `FACE_AUTH_MODEL_PATH`, if set.
    pub fn begin_attempt(
        &self,
        lockout: Option<&Vec<u8>>,
        now_ms: u64,
        identity: Option<(&str, u32)>,
        file: Option<&Vec<u8>>,
        env: Option<&str>,
    ) -> (r: Result<EmbeddingStore, Refusal>)
        ensures
            match self.granted(
                contents(lockout),
                now_ms,
                known_identity(identity),
                contents(file),
                found_text(env),
            ) {
                Ok(content) => r matches Ok(store) && store@ == content,
                Err(refusal) => r == Err::<EmbeddingStore, Refusal>(refusal),
            },
    {
        match self.allow_attempt(lockout, now_ms) {
            Ok(_) => {},
            Err(l) => {
                return Err(Refusal::LockedOut(l));
            },
        }
        match self.begin(identity, file, env) {
            Ok(store) => Ok(store),
            Err(e) => Err(Refusal::Failed(e)),
        }
    }

    /// A single attempt: a frame is captured, equalized, searched for a face, and the face is
    /// matched. Says what comes next after each event.
    pub fn authenticate_once(&self, store: &EmbeddingStore, event: OnceEvent) -> (r: OnceStep)
        requires
            event matches OnceEvent::Captured(raw) ==> raw.acceptable(),
            event matches OnceEvent::Detected(frame, _) ==> frame.usable(),
        ensures
            once_step(event, *store, self.match_threshold(), r),
    {
        match event {
            OnceEvent::Captured(raw) => match prepare_frame(raw) {
                Some(frame) => {
                    let input = prepare_detection(&frame);
                    OnceStep::Detect(frame, input)
                },
                None => OnceStep::Failed(FaceAuthError::NoFaceDetected),
            },
            OnceEvent::Detected(frame, found) => match found {
                Some(face_box) => OnceStep::Encode(prepare_recognition(&frame, &face_box)),
                None => OnceStep::Failed(FaceAuthError::NoFaceDetected),
            },
            OnceEvent::Encoded(output) => {
                let embedding = self.encoder.encode(&output);
                match verify_embedding(&embedding, store, self.config.threshold()) {
                    Ok(matched) => OnceStep::Verdict(matched),
                    Err(e) => OnceStep::Failed(e),
                }
            },
        }
    }
}

} // verus!
