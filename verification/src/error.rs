//! What can go wrong.
use vstd::prelude::*;

verus! {

/// Errors that the library itself raises.
#[derive(Debug)]
pub enum FaceAuthError {
    /// A frame shows nothing, or no face.
    NoFaceDetected,
    /// The user has no embeddings.
    NoEmbeddings,
    /// An embeddings file is not one.
    InvalidEmbeddingFormat,
    /// An embeddings file ends too early.
    UnexpectedEnd,
    /// The model cannot be loaded or run.
    Inference(String),
    /// The backend is not part of this build.
    BackendUnavailable,
    /// The camera delivers a pixel format that cannot be converted.
    UnsupportedPixelFormat(u32),
    /// The camera's driver refused a request.
    DeviceRefused,
    /// No frame came within the given milliseconds.
    CaptureTimedOut(i32),
    /// The configured camera is not the pinned one.
    CameraMismatch,
    /// The embeddings belong to another recognition model.
    ModelMismatch,
    /// No frame of an enrollment showed a face.
    NothingCaptured,
}

} // verus!
