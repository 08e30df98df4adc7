//! Enrollment: collecting embeddings from several frames.
use crate::auth::{
    detection_input, equalized_from, known_identity, prepare_detection, prepare_frame,
    prepare_recognition, recognition_input, FaceAuth,
};
use crate::capture::IrFrame;
use crate::config::{found_text, or_default};
use crate::detector::FaceBox;
use crate::error::FaceAuthError;
use crate::float32::Float32;
use crate::inference::unit_vector;
use crate::statistics::shows_content;
use crate::storage::{
    file_bytes, parsed, saved_embeddings_load_back, EmbeddingStore, EMBEDDING_DIM,
};
use vstd::prelude::*;
use vstd::utf8::encode_utf8;

verus! {

/// An enrollment in progress. Times are nanoseconds on a clock that never goes back.
pub struct Enrollment {
    /// How many embeddings are wanted.
    pub frames: usize,
    pub deadline_ns: u128,
    /// The pause between embeddings, in which the user may move.
    pub interval_ms: u64,
    /// The pause after a blank frame: the camera's own frame interval.
    pub retry_delay_ms: u64,
    /// How many embeddings were added.
    pub captured: usize,
    /// How many frames were captured.
    pub attempts: u64,
    /// How many embeddings there were before.
    pub existing: usize,
    pub store: EmbeddingStore,
    /// The equalized frame that the detection network looks at.
    pub pending: Option<IrFrame>,
}

/// What happened.
pub enum EnrollEvent {
    /// The enrollment starts, or a pause is over.
    Resumed,
    /// A raw frame.
    Captured(IrFrame),
    /// What the detection network found.
    Detected(Option<FaceBox>),
    /// The recognition network's output.
    Encoded(Vec<Float32>),
}

/// What to do next.
pub enum EnrollAction {
    Capture,
    /// Run the detection network on this input.
    Detect(Vec<Float32>),
    /// Run the recognition network on this input.
    Encode(Vec<Float32>),
    /// Pause for that many milliseconds.
    Sleep(u64),
    /// Store what was collected.
    Finished,
    Failed(FaceAuthError),
}

/// How long an enrollment may take, in milliseconds: a ceiling for a camera that is stuck,
/// which grows with its own frame interval.
pub open spec fn time_allowed_ms(frames: usize, interval_ms: u64, retry_delay_ms: u64) -> int {
    frames * (interval_ms + retry_delay_ms * 50)
}

/// How long an enrollment may take, in milliseconds; nothing where that is beyond 64 bits.
/// `native` is the camera's own frame interval, if it reports one.
pub fn time_allowed(frames: usize, interval_ms: u64, native: Option<u64>) -> (r: Option<u64>)
    ensures
        ({
            let ms = time_allowed_ms(frames, interval_ms, or_default(native, 100u64));
            r == if ms <= u64::MAX {
                Some(ms as u64)
            } else {
                None
            }
        }),
{
    let retry_delay_ms: u64 = match native {
        Some(ms) => ms,
        None => 100,
    };
    let round_ms: u128 = interval_ms as u128 + retry_delay_ms as u128 * 50;
    if round_ms > u64::MAX as u128 {
        proof {
            if frames > 0 {
                assert(frames * round_ms >= round_ms) by (nonlinear_arith)
                    requires
                        frames >= 1,
                        round_ms >= 0,
                ;
            } else {
                assert(frames * round_ms == 0) by (nonlinear_arith)
                    requires
                        frames == 0,
                ;
            }
        }
        return if frames > 0 {
            None
        } else {
            Some(0)
        };
    }
    let ms: u128 = product(frames as u64, round_ms as u64);
    if ms <= u64::MAX as u128 {
        Some(ms as u64)
    } else {
        None
    }
}

fn product(a: u64, b: u64) -> (r: u128)
    ensures
        r == a * b,
{
    proof {
        assert(0 <= a * b <= 0xffff_ffff_ffff_ffff * 0xffff_ffff_ffff_ffff) by (nonlinear_arith)
            requires
                0 <= a <= 0xffff_ffff_ffff_ffff,
                0 <= b <= 0xffff_ffff_ffff_ffff,
        ;
    }
    a as u128 * b as u128
}

impl Enrollment {
    pub open spec fn well_formed(&self) -> bool {
        &&& self.captured <= self.frames
        &&& self.store.embeddings@.len() == self.existing + self.captured
        &&& self.pending matches Some(frame) ==> frame.usable()
    }

    /// Everything but the progress is that of another.
    pub open spec fn same_settings(&self, other: &Enrollment) -> bool {
        &&& self.frames == other.frames
        &&& self.deadline_ns == other.deadline_ns
        &&& self.interval_ms == other.interval_ms
        &&& self.retry_delay_ms == other.retry_delay_ms
        &&& self.existing == other.existing
        &&& self.store.model_tag == other.store.model_tag
    }
}

/// What comes next when nothing is pending: another frame while embeddings are missing and
/// time is left, else the end. Without a single embedding the enrollment has failed.
pub open spec fn next_round(e: Enrollment, now_ns: u128, action: EnrollAction) -> bool {
    if e.captured < e.frames && now_ns < e.deadline_ns {
        action == EnrollAction::Capture
    } else if e.store.embeddings@.len() == 0 {
        action matches EnrollAction::Failed(error) && error is NothingCaptured
    } else {
        action == EnrollAction::Finished
    }
}

/// How an enrollment goes on.
pub open spec fn enroll_step(
    before: Enrollment,
    event: EnrollEvent,
    now_ns: u128,
    after: Enrollment,
    action: EnrollAction,
) -> bool {
    &&& after.same_settings(&before)
    &&& match event {
        EnrollEvent::Resumed => after == before && next_round(before, now_ns, action),
        EnrollEvent::Captured(raw) => {
            &&& after.captured == before.captured
            &&& after.store == before.store
            &&& after.attempts == before.attempts + 1
            &&& if shows_content(raw.data@) {
                &&& after.pending matches Some(frame) && equalized_from(raw, frame)
                &&& action matches EnrollAction::Detect(input) && detection_input(
                    after.pending->0,
                    input@,
                )
            } else {
                &&& after.pending is None
                &&& action == EnrollAction::Sleep(before.retry_delay_ms)
            }
        },
        EnrollEvent::Detected(None) => {
            &&& after.captured == before.captured
            &&& after.store == before.store
            &&& after.attempts == before.attempts
            &&& after.pending is None
            &&& action == EnrollAction::Sleep(before.interval_ms)
        },
        EnrollEvent::Detected(Some(face_box)) => {
            &&& after.captured == before.captured
            &&& after.store == before.store
            &&& after.attempts == before.attempts
            &&& after.pending is None
            &&& action matches EnrollAction::Encode(input) && recognition_input(
                before.pending->0,
                face_box,
                input@,
            )
        },
        EnrollEvent::Encoded(output) => {
            &&& after.captured == before.captured + 1
            &&& after.attempts == before.attempts
            &&& after.pending == before.pending
            &&& after.store@ == (before.store@.0, before.store@.1.push(unit_vector(output@)))
            &&& if after.captured < after.frames {
                action == EnrollAction::Sleep(before.interval_ms)
            } else {
                action == EnrollAction::Finished
            }
        },
    }
}

/// An enrollment that is about to start.
pub open spec fn fresh(
    e: Enrollment,
    frames: usize,
    interval_ms: u64,
    native: Option<u64>,
    now_ns: u128,
) -> bool {
    let retry = or_default(native, 100u64);
    &&& e.well_formed()
    &&& e.frames == frames
    &&& e.interval_ms == interval_ms
    &&& e.retry_delay_ms == retry
    &&& e.deadline_ns == now_ns + time_allowed_ms(frames, interval_ms, retry) * 1_000_000
    &&& e.captured == 0
    &&& e.attempts == 0
    &&& e.pending is None
}

impl FaceAuth {
    fn start_enrollment(
        &self,
        store: EmbeddingStore,
        frames: usize,
        interval_ms: u64,
        native: Option<u64>,
        now_ns: u128,
    ) -> (r: Enrollment)
        requires
            time_allowed_ms(frames, interval_ms, or_default(native, 100u64)) <= u64::MAX,
            now_ns + u64::MAX * 1_000_000 <= u128::MAX,
        ensures
            fresh(r, frames, interval_ms, native, now_ns),
            r.store == store,
            r.existing == store.embeddings@.len(),
    {
        let retry_delay_ms: u64 = match native {
            Some(ms) => ms,
            None => 100,
        };
        let round_ms: u128 = interval_ms as u128 + retry_delay_ms as u128 * 50;
        proof {
            assert(0 <= frames * round_ms) by (nonlinear_arith)
                requires
                    0 <= frames,
                    0 <= round_ms,
            ;
        }
        let allowed_ms: u128 = frames as u128 * round_ms;
        let existing = store.embeddings.len();
        Enrollment {
            frames,
            deadline_ns: now_ns + allowed_ms * 1_000_000,
            interval_ms,
            retry_delay_ms,
            captured: 0,
            attempts: 0,
            existing,
            store,
            pending: None,
        }
    }

    /// Starts an enrollment that replaces what was enrolled. `identity` is the bus path and the
    /// index of the configured camera, which must be the pinned one; `native` is the camera's
    /// own frame interval, if it reports one.
    pub fn enroll(
        &self,
        identity: Option<(&str, u32)>,
        frames: usize,
        interval_ms: u64,
        native: Option<u64>,
        now_ns: u128,
    ) -> (r: Result<Enrollment, FaceAuthError>)
        requires
            time_allowed_ms(frames, interval_ms, or_default(native, 100u64)) <= u64::MAX,
            now_ns + u64::MAX * 1_000_000 <= u128::MAX,
        ensures
            if self.trusts(known_identity(identity)) {
                r matches Ok(e) && fresh(e, frames, interval_ms, native, now_ns) && e.store@
                    == (None::<Seq<char>>, Seq::<Seq<Float32>>::empty()) && e.existing == 0
            } else {
                r matches Err(e) && e is CameraMismatch
            },
    {
        match self.config.verify_pinned_camera(identity) {
            Ok(_) => {},
            Err(e) => {
                return Err(e);
            },
        }
        let store = EmbeddingStore::default();
        assert(store@.1.len() == store.embeddings@.len());
        Ok(self.start_enrollment(store, frames, interval_ms, native, now_ns))
    }

    /// Starts an enrollment that adds to what is enrolled. A file that is missing or cannot be
    /// read counts as nothing enrolled; one of another model is refused, and so is a camera
    /// that is not the pinned one. `env` is the value of `FACE_AUTH_MODEL_PATH`, if set.
    pub fn enroll_append(
        &self,
        identity: Option<(&str, u32)>,
        file: Option<&Vec<u8>>,
        env: Option<&str>,
        frames: usize,
        interval_ms: u64,
        native: Option<u64>,
        now_ns: u128,
    ) -> (r: Result<Enrollment, FaceAuthError>)
        requires
            time_allowed_ms(frames, interval_ms, or_default(native, 100u64)) <= u64::MAX,
            now_ns + u64::MAX * 1_000_000 <= u128::MAX,
        ensures
            ({
                let before = match file {
                    Some(bytes) => match parsed(bytes@) {
                        Ok(content) => content,
                        Err(_) => (None, Seq::empty()),
                    },
                    None => (None, Seq::empty()),
                };
                if !self.trusts(known_identity(identity)) {
                    r matches Err(e) && e is CameraMismatch
                } else if before.0 is None || before.0 == Some(self.tag(found_text(env))) {
                    r matches Ok(e) && fresh(e, frames, interval_ms, native, now_ns)
                        && e.store@ == before && e.existing == before.1.len()
                } else {
                    r matches Err(e) && e is ModelMismatch
                }
            }),
    {
        match self.config.verify_pinned_camera(identity) {
            Ok(_) => {},
            Err(e) => {
                return Err(e);
            },
        }
        let store = match EmbeddingStore::load(file) {
            Ok(store) => store,
            Err(_) => EmbeddingStore::default(),
        };
        match self.check_model_tag(&store, env) {
            Ok(_) => {},
            Err(e) => {
                return Err(e);
            },
        }
        Ok(self.start_enrollment(store, frames, interval_ms, native, now_ns))
    }
}

impl FaceAuth {
    /// Goes on with an enrollment after an event: says what to do next.
    pub fn capture_embeddings(
        &self,
        enrollment: &mut Enrollment,
        event: EnrollEvent,
        now_ns: u128,
    ) -> (r: EnrollAction)
        requires
            old(enrollment).well_formed(),
            old(enrollment).attempts < u64::MAX,
            event matches EnrollEvent::Captured(raw) ==> raw.acceptable(),
            event is Detected ==> old(enrollment).pending is Some,
            event is Encoded ==> old(enrollment).captured < old(enrollment).frames,
        ensures
            final(enrollment).well_formed(),
            enroll_step(*old(enrollment), event, now_ns, *final(enrollment), r),
    {
        match event {
            EnrollEvent::Resumed => {
                if enrollment.captured < enrollment.frames && now_ns < enrollment.deadline_ns {
                    EnrollAction::Capture
                } else if enrollment.store.embeddings.len() == 0 {
                    EnrollAction::Failed(FaceAuthError::NothingCaptured)
                } else {
                    EnrollAction::Finished
                }
            },
            EnrollEvent::Captured(raw) => {
                enrollment.attempts = enrollment.attempts + 1;
                match prepare_frame(raw) {
                    Some(frame) => {
                        let input = prepare_detection(&frame);
                        enrollment.pending = Some(frame);
                        EnrollAction::Detect(input)
                    },
                    None => {
                        enrollment.pending = None;
                        EnrollAction::Sleep(enrollment.retry_delay_ms)
                    },
                }
            },
            EnrollEvent::Detected(found) => {
                let taken = enrollment.pending.take();
                match (taken, found) {
                    (Some(frame), Some(face_box)) => EnrollAction::Encode(
                        prepare_recognition(&frame, &face_box),
                    ),
                    _ => EnrollAction::Sleep(enrollment.interval_ms),
                }
            },
            EnrollEvent::Encoded(output) => {
                let embedding = self.encoder.encode(&output);
                assert(enrollment.store@.1.len() == enrollment.store.embeddings@.len());
                enrollment.store.add_embedding(embedding);
                assert(enrollment.store@.1.len() == enrollment.store.embeddings@.len());
                enrollment.captured = enrollment.captured + 1;
                if enrollment.captured < enrollment.frames {
                    EnrollAction::Sleep(enrollment.interval_ms)
                } else {
                    EnrollAction::Finished
                }
            },
        }
    }
}

impl Enrollment {
    /// How many embeddings were added.
    pub fn added(&self) -> (r: usize)
        requires
            self.well_formed(),
        ensures
            r == self.store.embeddings@.len() - self.existing,
    {
        self.store.embeddings.len() - self.existing
    }

    /// The file to store: what was enrolled and what was collected, under the tag of the model
    /// in use.
    pub fn file(&self, auth: &FaceAuth, env: Option<&str>) -> (r: Vec<u8>)
        ensures
            r@ == file_bytes(auth.tag(found_text(env)), self.store@.1),
    {
        let tag = auth.config.model_tag(env);
        self.store.save(tag.as_str())
    }
}

/// An enrollment adds embeddings behind those that were there and changes none of them.
pub proof fn enrollment_keeps_what_was_there(
    before: Enrollment,
    event: EnrollEvent,
    now_ns: u128,
    after: Enrollment,
    action: EnrollAction,
)
    requires
        enroll_step(before, event, now_ns, after, action),
    ensures
        before.store@.1.is_prefix_of(after.store@.1),
        after.store@.1.len() <= before.store@.1.len() + 1,
        after.store@.1.len() == before.store@.1.len() + 1 <==> event is Encoded,
{
}

/// An enrollment never ends well with nothing to store, and takes no more frames than wanted.
pub proof fn finished_enrollments_hold_embeddings(
    before: Enrollment,
    event: EnrollEvent,
    now_ns: u128,
    after: Enrollment,
    action: EnrollAction,
)
    requires
        before.well_formed(),
        enroll_step(before, event, now_ns, after, action),
    ensures
        action is Finished ==> after.store@.1.len() > 0,
        action is Capture ==> before.captured < before.frames && now_ns < before.deadline_ns,
{
}

/// What an action leads to.
pub open spec fn answers(action: EnrollAction, event: EnrollEvent) -> bool {
    match action {
        EnrollAction::Capture => event is Captured,
        EnrollAction::Detect(_) => event is Detected,
        EnrollAction::Encode(_) => event is Encoded,
        EnrollAction::Sleep(_) => event is Resumed,
        EnrollAction::Finished => false,
        EnrollAction::Failed(_) => false,
    }
}

/// An enrollment whose captures and networks never fail, step by step: state `i` and event `i`
/// lead to state `i + 1` and action `i`, which leads to event `i + 1`.
pub open spec fn enroll_run(
    states: Seq<Enrollment>,
    events: Seq<EnrollEvent>,
    times: Seq<u128>,
    actions: Seq<EnrollAction>,
) -> bool {
    &&& states.len() == events.len() + 1
    &&& times.len() == events.len()
    &&& actions.len() == events.len()
    &&& events.len() > 0
    &&& states[0].well_formed()
    &&& states[0].captured == 0
    &&& events[0] is Resumed
    &&& forall|i: int|
        0 <= i < events.len() ==> enroll_step(
            states[i],
            #[trigger] events[i],
            times[i],
            states[i + 1],
            actions[i],
        )
    &&& forall|i: int| 0 < i < events.len() ==> answers(actions[i - 1], #[trigger] events[i])
}

/// How many of the first `n` events are a face that was found.
pub open spec fn faces_found(events: Seq<EnrollEvent>, n: int) -> nat
    decreases n,
{
    if n <= 0 {
        0
    } else {
        faces_found(events, n - 1) + (if events[n - 1] matches EnrollEvent::Detected(Some(_)) {
            1nat
        } else {
            0
        })
    }
}

/// What holds after `n` steps of an enrollment.
proof fn lemma_progress(
    states: Seq<Enrollment>,
    events: Seq<EnrollEvent>,
    times: Seq<u128>,
    actions: Seq<EnrollAction>,
    n: int,
)
    requires
        enroll_run(states, events, times, actions),
        0 <= n <= events.len(),
    ensures
        states[n].same_settings(&states[0]),
        states[n].store@.0 == states[0].store@.0,
        states[0].store@.1.is_prefix_of(states[n].store@.1),
        states[n].store@.1.len() == states[0].store@.1.len() + states[n].captured,
        states[n].captured <= states[n].frames,
        faces_found(events, n) == states[n].captured + (if n > 0 && actions[n - 1] is Encode {
            1nat
        } else {
            0
        }),
        n > 0 && (actions[n - 1] is Capture || actions[n - 1] is Detect || actions[n - 1] is Encode)
            ==> states[n].captured < states[n].frames,
    decreases n,
{
    if n > 0 {
        lemma_progress(states, events, times, actions, n - 1);
        assert(enroll_step(
            states[n - 1],
            events[n - 1],
            times[n - 1],
            states[n],
            actions[n - 1],
        ));
        if n > 1 {
            assert(answers(actions[n - 2], events[n - 1]));
        }
    }
}

/// An enrollment that ends has collected one embedding for every frame with a face, behind those
/// that were there, none of which changed, and under the same tag. There are no more new ones
/// than wanted, and fewer only once the time is over. It fails exactly if there is nothing to
/// store in the end.
pub proof fn enrollments_add_one_embedding_per_face(
    states: Seq<Enrollment>,
    events: Seq<EnrollEvent>,
    times: Seq<u128>,
    actions: Seq<EnrollAction>,
)
    requires
        enroll_run(states, events, times, actions),
        actions.last() is Finished || actions.last() is Failed,
    ensures
        ({
            let before = states[0].store@;
            let after = states.last().store@;
            let added = after.1.len() - before.1.len();
            &&& after.0 == before.0
            &&& before.1.is_prefix_of(after.1)
            &&& added == faces_found(events, events.len() as int)
            &&& added <= states[0].frames
            &&& added < states[0].frames ==> times.last() >= states[0].deadline_ns
            &&& actions.last() is Failed <==> after.1.len() == 0
        }),
{
    let n = events.len() as int;
    lemma_progress(states, events, times, actions, n);
    lemma_progress(states, events, times, actions, n - 1);
    let last = states[n - 1];
    assert(enroll_step(last, events[n - 1], times[n - 1], states[n], actions[n - 1]));
    assert(last.store@.1.len() == last.store.embeddings@.len());
}

/// What was enrolled can be used: the file of an enrollment holds its embeddings under the tag
/// of the model in use, so that an attempt with the same settings finds them and accepts them.
pub proof fn enrolled_files_are_accepted(
    auth: FaceAuth,
    env: Option<Seq<char>>,
    embeddings: Seq<Seq<Float32>>,
)
    requires
        forall|i: int| 0 <= i < embeddings.len() ==> #[trigger] embeddings[i].len() == EMBEDDING_DIM,
        embeddings.len() <= u32::MAX,
        encode_utf8(auth.tag(env)).len() <= u32::MAX,
    ensures
        parsed(file_bytes(auth.tag(env), embeddings)) matches Ok(content) && content.1
            == embeddings && content.0 == Some(auth.tag(env)),
{
    saved_embeddings_load_back(auth.tag(env), embeddings);
}

} // verus!
