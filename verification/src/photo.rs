//! Checking photos against what is enrolled.
//!
//! A photo goes the way of a frame from the camera: it is equalized, searched for a face,
//! cropped, encoded and compared. Only how similar it is comes out, and no attempt is made.
use crate::auth::{
    detection_input, equalized_from, once_step, prepare_detection, prepare_recognition,
    recognition_input, FaceAuth, OnceEvent, OnceStep,
};
use crate::capture::IrFrame;
use crate::detector::FaceBox;
use crate::equalize::clahe;
use crate::error::FaceAuthError;
use crate::float32::Float32;
use crate::inference::unit_vector;
use crate::statistics::shows_content;
use crate::storage::EmbeddingStore;
use crate::verify::{best_similarity, max_similarity};
use vstd::prelude::*;

verus! {

/// What happened to a photo.
pub enum PhotoEvent {
    /// A photo, as a raw frame.
    Opened(IrFrame),
    /// What the detection network found in the equalized photo.
    Detected(IrFrame, Option<FaceBox>),
    /// The recognition network's output.
    Encoded(Vec<Float32>),
}

/// What comes next for a photo.
pub enum PhotoStep {
    /// Run the detection network on this input.
    Detect(IrFrame, Vec<Float32>),
    /// Run the recognition network on this input.
    Encode(Vec<Float32>),
    /// The photo shows no face.
    Skipped,
    /// How similar the face is to the most similar one that is enrolled.
    Scored(Float32),
    Failed(FaceAuthError),
}

/// How similar the face of an output is to the most similar one that is enrolled.
pub open spec fn score_of(output: Seq<Float32>, store: EmbeddingStore) -> Float32 {
    best_similarity(unit_vector(output), store.embeddings@, store.embeddings@.len() as int)
}

/// How checking a photo goes on.
pub open spec fn photo_step(event: PhotoEvent, store: EmbeddingStore, step: PhotoStep) -> bool {
    match event {
        PhotoEvent::Opened(raw) => step matches PhotoStep::Detect(frame, input) && equalized_from(
            raw,
            frame,
        ) && frame.usable() && detection_input(frame, input@),
        PhotoEvent::Detected(frame, Some(face_box)) => step matches PhotoStep::Encode(input)
            && recognition_input(frame, face_box, input@),
        PhotoEvent::Detected(_, None) => step is Skipped,
        PhotoEvent::Encoded(output) => if store.embeddings@.len() == 0 {
            step matches PhotoStep::Failed(e) && e is NoEmbeddings
        } else {
            step == PhotoStep::Scored(score_of(output@, store))
        },
    }
}

impl FaceAuth {
    /// Goes on with a photo after an event: says what comes next. Unlike a frame from the
    /// camera, a photo is not asked whether it shows anything.
    pub fn check_photo(&self, store: &EmbeddingStore, event: PhotoEvent) -> (r: PhotoStep)
        requires
            event matches PhotoEvent::Opened(raw) ==> raw.usable(),
            event matches PhotoEvent::Detected(frame, _) ==> frame.usable(),
        ensures
            photo_step(event, *store, r),
    {
        match event {
            PhotoEvent::Opened(raw) => {
                let mut frame = raw;
                clahe(&mut frame);
                let input = prepare_detection(&frame);
                PhotoStep::Detect(frame, input)
            },
            PhotoEvent::Detected(frame, found) => match found {
                Some(face_box) => PhotoStep::Encode(prepare_recognition(&frame, &face_box)),
                None => PhotoStep::Skipped,
            },
            PhotoEvent::Encoded(output) => {
                let embedding = self.encoder.encode(&output);
                match max_similarity(&embedding, store) {
                    Ok(score) => PhotoStep::Scored(score),
                    Err(e) => PhotoStep::Failed(e),
                }
            },
        }
    }
}

/// A photo goes exactly the way of a frame in a single attempt: the networks are given the same
/// input for both, a photo without a face is skipped where the attempt fails, and the attempt
/// recognizes the user exactly if the photo's score reaches the threshold. Only a photo that
/// shows nothing goes on where the attempt ends.
pub proof fn photos_go_the_way_of_frames(
    raw: IrFrame,
    frame: IrFrame,
    face_box: FaceBox,
    input: Vec<Float32>,
    output: Vec<Float32>,
    store: EmbeddingStore,
    threshold: Float32,
)
    ensures
        shows_content(raw.data@) ==> (photo_step(
            PhotoEvent::Opened(raw),
            store,
            PhotoStep::Detect(frame, input),
        ) <==> once_step(
            OnceEvent::Captured(raw),
            store,
            threshold,
            OnceStep::Detect(frame, input),
        )),
        photo_step(
            PhotoEvent::Detected(frame, Some(face_box)),
            store,
            PhotoStep::Encode(input),
        ) <==> once_step(
            OnceEvent::Detected(frame, Some(face_box)),
            store,
            threshold,
            OnceStep::Encode(input),
        ),
        photo_step(PhotoEvent::Detected(frame, None), store, PhotoStep::Skipped) && once_step(
            OnceEvent::Detected(frame, None),
            store,
            threshold,
            OnceStep::Failed(FaceAuthError::NoFaceDetected),
        ),
        store.embeddings@.len() > 0 ==> photo_step(
            PhotoEvent::Encoded(output),
            store,
            PhotoStep::Scored(score_of(output@, store)),
        ) && once_step(
            OnceEvent::Encoded(output),
            store,
            threshold,
            OnceStep::Verdict(threshold.spec_le(score_of(output@, store))),
        ),
{
}

} // verus!
