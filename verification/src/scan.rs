//! Scanning: attempts over a window of time, with a check that the subject is alive.
//!
//! A match counts only after motion was seen between two frames that show a face, which a
//! rigidly held photo does not produce. The scan is a dialogue: each step takes what happened
//! and says what to do next.
use crate::auth::{
    detection_input, equalized_from, output_matches, prepare_detection, prepare_frame,
    prepare_recognition, recognition_input, FaceAuth,
};
use crate::capture::IrFrame;
use crate::detector::FaceBox;
use crate::error::FaceAuthError;
use crate::float32::Float32;
use crate::inference::unit_vector;
use crate::preprocess::{frame_motion_fraction, motion_fraction};
use crate::statistics::shows_content;
use crate::storage::EmbeddingStore;
use crate::verify::{any_embedding_can_match, cosine, verify_embedding};
use vstd::prelude::*;

verus! {

/// So many captures in a row may fail before the scan gives up.
pub const MAX_CAPTURE_ERRORS: u32 = 3;

/// A scan in progress. Times are nanoseconds on a clock that never goes back.
pub struct Scan {
    pub deadline_ns: u128,
    pub interval_ns: u128,
    /// How many captures failed in a row.
    pub errors: u32,
    /// The last frame that showed a face.
    pub face_frame: Option<IrFrame>,
    /// The equalized frame that the detection network looks at.
    pub pending: Option<IrFrame>,
    pub motion_observed: bool,
}

/// What happened.
pub enum ScanEvent {
    /// The scan starts, or a pause is over.
    Resumed,
    /// A raw frame.
    Captured(IrFrame),
    CaptureFailed,
    /// What the detection network found.
    Detected(Option<FaceBox>),
    /// The recognition network's output.
    Encoded(Vec<Float32>),
}

/// What to do next.
pub enum ScanAction {
    Capture,
    /// Run the detection network on this input.
    Detect(Vec<Float32>),
    /// Run the recognition network on this input.
    Encode(Vec<Float32>),
    /// Pause for that many nanoseconds.
    Sleep(u128),
    /// The scan is over: whether the user was recognized.
    Finished(bool),
    /// The scan is over: the last capture error stands.
    GaveUp,
    /// The scan is over.
    Failed(FaceAuthError),
}

impl Scan {
    /// What every step keeps: the error count stays below the limit, a pending frame can be
    /// processed, and motion was observed only if there was a face.
    pub open spec fn well_formed(&self) -> bool {
        &&& self.errors < MAX_CAPTURE_ERRORS
        &&& self.pending matches Some(frame) ==> frame.usable()
        &&& self.motion_observed ==> self.face_frame is Some
    }

    /// How long to pause at `now_ns`: the interval, but not beyond the deadline.
    pub open spec fn pause(&self, now_ns: u128) -> u128 {
        let left = if now_ns < self.deadline_ns {
            (self.deadline_ns - now_ns) as u128
        } else {
            0
        };
        if self.interval_ns < left {
            self.interval_ns
        } else {
            left
        }
    }

    /// The settings of the scan are those of another.
    pub open spec fn same_settings(&self, other: &Scan) -> bool {
        &&& self.deadline_ns == other.deadline_ns
        &&& self.interval_ns == other.interval_ns
    }
}

/// The motion between the last face frame and the pending one reaches the threshold.
pub open spec fn shows_motion(auth: FaceAuth, scan: Scan) -> bool {
    scan.face_frame matches Some(last) && scan.pending matches Some(frame)
        && auth.motion_threshold().spec_le(motion_fraction(last, frame))
}

/// How a scan goes on.
pub open spec fn scan_step(
    auth: FaceAuth,
    before: Scan,
    store: EmbeddingStore,
    event: ScanEvent,
    now_ns: u128,
    after: Scan,
    action: ScanAction,
) -> bool {
    &&& after.same_settings(&before)
    &&& match event {
        ScanEvent::Resumed => {
            &&& after == before
            &&& action == if now_ns >= before.deadline_ns {
                ScanAction::Finished(false)
            } else {
                ScanAction::Capture
            }
        },
        ScanEvent::CaptureFailed => {
            &&& after.face_frame == before.face_frame
            &&& after.pending == before.pending
            &&& after.motion_observed == before.motion_observed
            &&& if before.errors + 1 >= MAX_CAPTURE_ERRORS {
                after.errors == before.errors && action == ScanAction::GaveUp
            } else {
                after.errors == before.errors + 1 && action == ScanAction::Sleep(
                    before.pause(now_ns),
                )
            }
        },
        ScanEvent::Captured(raw) => {
            &&& after.errors == 0
            &&& after.face_frame == before.face_frame
            &&& after.motion_observed == before.motion_observed
            &&& if shows_content(raw.data@) {
                &&& after.pending matches Some(frame) && equalized_from(raw, frame)
                &&& action matches ScanAction::Detect(input) && detection_input(
                    after.pending->0,
                    input@,
                )
            } else {
                &&& after.pending is None
                &&& action == ScanAction::Sleep(before.pause(now_ns))
            }
        },
        ScanEvent::Detected(None) => {
            &&& after.errors == before.errors
            &&& after.face_frame == before.face_frame
            &&& after.motion_observed == before.motion_observed
            &&& after.pending is None
            &&& action == ScanAction::Sleep(before.pause(now_ns))
        },
        ScanEvent::Detected(Some(face_box)) => {
            &&& after.errors == before.errors
            &&& after.face_frame == before.pending
            &&& after.pending is None
            &&& after.motion_observed == (before.motion_observed || shows_motion(auth, before))
            &&& if before.face_frame is None {
                action == ScanAction::Sleep(before.pause(now_ns))
            } else {
                action matches ScanAction::Encode(input) && recognition_input(
                    before.pending->0,
                    face_box,
                    input@,
                )
            }
        },
        ScanEvent::Encoded(output) => {
            &&& after == before
            &&& if store.embeddings@.len() == 0 {
                action matches ScanAction::Failed(e) && e is NoEmbeddings
            } else if output_matches(output@, store, auth.match_threshold())
                && before.motion_observed {
                action == ScanAction::Finished(true)
            } else {
                action == ScanAction::Sleep(before.pause(now_ns))
            }
        },
    }
}

impl FaceAuth {
    /// Starts a scan of `duration_ms` with `interval_ms` between attempts.
    pub fn start_scan(&self, duration_ms: u64, interval_ms: u64, now_ns: u128) -> (r: Scan)
        requires
            now_ns + duration_ms * 1_000_000 <= u128::MAX,
        ensures
            r.well_formed(),
            r.deadline_ns == now_ns + duration_ms * 1_000_000,
            r.interval_ns == interval_ms * 1_000_000,
            r.errors == 0,
            r.face_frame is None,
            r.pending is None,
            !r.motion_observed,
    {
        Scan {
            deadline_ns: now_ns + duration_ms as u128 * 1_000_000,
            interval_ns: interval_ms as u128 * 1_000_000,
            errors: 0,
            face_frame: None,
            pending: None,
            motion_observed: false,
        }
    }
}

impl Scan {
    fn sleep(&self, now_ns: u128) -> (r: ScanAction)
        ensures
            r == ScanAction::Sleep(self.pause(now_ns)),
    {
        let left: u128 = if now_ns < self.deadline_ns {
            self.deadline_ns - now_ns
        } else {
            0
        };
        ScanAction::Sleep(
            if self.interval_ns < left {
                self.interval_ns
            } else {
                left
            },
        )
    }
}

impl FaceAuth {
    /// Goes on with a scan after an event: says what to do next.
    pub fn authenticate_scan(
        &self,
        scan: &mut Scan,
        store: &EmbeddingStore,
        event: ScanEvent,
        now_ns: u128,
    ) -> (r: ScanAction)
        requires
            old(scan).well_formed(),
            event matches ScanEvent::Captured(raw) ==> raw.acceptable(),
            event is Detected ==> old(scan).pending is Some,
        ensures
            final(scan).well_formed(),
            scan_step(*self, *old(scan), *store, event, now_ns, *final(scan), r),
    {
        match event {
            ScanEvent::Resumed => {
                if now_ns >= scan.deadline_ns {
                    ScanAction::Finished(false)
                } else {
                    ScanAction::Capture
                }
            },
            ScanEvent::CaptureFailed => {
                if scan.errors + 1 >= MAX_CAPTURE_ERRORS {
                    ScanAction::GaveUp
                } else {
                    scan.errors = scan.errors + 1;
                    scan.sleep(now_ns)
                }
            },
            ScanEvent::Captured(raw) => {
                scan.errors = 0;
                match prepare_frame(raw) {
                    Some(frame) => {
                        let input = prepare_detection(&frame);
                        scan.pending = Some(frame);
                        ScanAction::Detect(input)
                    },
                    None => {
                        scan.pending = None;
                        scan.sleep(now_ns)
                    },
                }
            },
            ScanEvent::Detected(found) => {
                let taken = scan.pending.take();
                match (taken, found) {
                    (Some(frame), Some(face_box)) => {
                        let mut first = true;
                        match &scan.face_frame {
                            Some(last) => {
                                first = false;
                                let motion = frame_motion_fraction(last, &frame);
                                if self.config.liveness_motion_threshold().le(motion) {
                                    scan.motion_observed = true;
                                }
                            },
                            None => {},
                        }
                        if first {
                            scan.face_frame = Some(frame);
                            return scan.sleep(now_ns);
                        }
                        let input = prepare_recognition(&frame, &face_box);
                        scan.face_frame = Some(frame);
                        ScanAction::Encode(input)
                    },
                    _ => scan.sleep(now_ns),
                }
            },
            ScanEvent::Encoded(output) => {
                let embedding = self.encoder.encode(&output);
                match verify_embedding(&embedding, store, self.config.threshold()) {
                    Ok(matched) => {
                        if matched && scan.motion_observed {
                            ScanAction::Finished(true)
                        } else {
                            scan.sleep(now_ns)
                        }
                    },
                    Err(e) => ScanAction::Failed(e),
                }
            },
        }
    }
}

/// A scan, step by step: state `i` and event `i` lead to state `i + 1` and action `i`.
pub open spec fn scan_run(
    auth: FaceAuth,
    states: Seq<Scan>,
    store: EmbeddingStore,
    events: Seq<ScanEvent>,
    times: Seq<u128>,
    actions: Seq<ScanAction>,
) -> bool {
    &&& states.len() == events.len() + 1
    &&& times.len() == events.len()
    &&& actions.len() == events.len()
    &&& states[0].face_frame is None
    &&& !states[0].motion_observed
    &&& forall|i: int|
        0 <= i < events.len() ==> scan_step(
            auth,
            states[i],
            store,
            #[trigger] events[i],
            times[i],
            states[i + 1],
            actions[i],
        )
}

/// At step `i` a face was seen in a frame that had changed since the face before.
pub open spec fn motion_at(
    auth: FaceAuth,
    states: Seq<Scan>,
    events: Seq<ScanEvent>,
    i: int,
) -> bool {
    face_at(events, i) && states[i].face_frame is Some && shows_motion(auth, states[i])
}

/// Motion that is remembered was seen at an earlier step.
proof fn lemma_motion_was_seen(
    auth: FaceAuth,
    states: Seq<Scan>,
    store: EmbeddingStore,
    events: Seq<ScanEvent>,
    times: Seq<u128>,
    actions: Seq<ScanAction>,
    n: int,
)
    requires
        scan_run(auth, states, store, events, times, actions),
        0 <= n <= events.len(),
        states[n].motion_observed,
    ensures
        exists|i: int| 0 <= i < n && #[trigger] motion_at(auth, states, events, i),
    decreases n,
{
    if n > 0 {
        let e = events[n - 1];
        assert(scan_step(auth, states[n - 1], store, e, times[n - 1], states[n], actions[n - 1]));
        if states[n - 1].motion_observed {
            lemma_motion_was_seen(auth, states, store, events, times, actions, n - 1);
        } else {
            assert(motion_at(auth, states, events, n - 1));
        }
    }
}

/// A face that is remembered was seen at an earlier step.
proof fn lemma_face_was_seen(
    auth: FaceAuth,
    states: Seq<Scan>,
    store: EmbeddingStore,
    events: Seq<ScanEvent>,
    times: Seq<u128>,
    actions: Seq<ScanAction>,
    n: int,
)
    requires
        scan_run(auth, states, store, events, times, actions),
        0 <= n <= events.len(),
        states[n].face_frame is Some,
    ensures
        exists|i: int| 0 <= i < n && #[trigger] face_at(events, i),
    decreases n,
{
    if n > 0 {
        let e = events[n - 1];
        assert(scan_step(auth, states[n - 1], store, e, times[n - 1], states[n], actions[n - 1]));
        if states[n - 1].face_frame is Some {
            lemma_face_was_seen(auth, states, store, events, times, actions, n - 1);
        } else {
            assert(face_at(events, n - 1));
        }
    }
}

/// At step `i` a face was seen.
pub open spec fn face_at(events: Seq<ScanEvent>, i: int) -> bool {
    events[i] matches ScanEvent::Detected(Some(_))
}

/// A user is accepted only after motion was observed: in every scan that ends with a
/// recognized user there were two frames with a face before, and between the last face before
/// and the later one at least the configured fraction of the pixels changed. So neither a
/// single frame nor a still image is ever enough.
pub proof fn acceptance_needs_motion(
    auth: FaceAuth,
    states: Seq<Scan>,
    store: EmbeddingStore,
    events: Seq<ScanEvent>,
    times: Seq<u128>,
    actions: Seq<ScanAction>,
    n: int,
)
    requires
        scan_run(auth, states, store, events, times, actions),
        0 <= n < events.len(),
        actions[n] == ScanAction::Finished(true),
    ensures
        events[n] matches ScanEvent::Encoded(output) && store.embeddings@.len() > 0
            && output_matches(output@, store, auth.match_threshold()),
        exists|i: int, j: int|
            0 <= j < i < n && #[trigger] face_at(events, j) && #[trigger] motion_at(
                auth,
                states,
                events,
                i,
            ),
{
    assert(scan_step(auth, states[n], store, events[n], times[n], states[n + 1], actions[n]));
    lemma_motion_was_seen(auth, states, store, events, times, actions, n);
    let i = choose|i: int| 0 <= i < n && #[trigger] motion_at(auth, states, events, i);
    lemma_face_was_seen(auth, states, store, events, times, actions, i);
    let j = choose|j: int| 0 <= j < i && #[trigger] face_at(events, j);
    assert(face_at(events, j) && motion_at(auth, states, events, i));
}

/// A match without motion is not an answer: the scan goes on.
pub proof fn unmoved_matches_do_not_end_the_scan(
    auth: FaceAuth,
    before: Scan,
    store: EmbeddingStore,
    output: Vec<Float32>,
    now_ns: u128,
    after: Scan,
    action: ScanAction,
)
    requires
        scan_step(auth, before, store, ScanEvent::Encoded(output), now_ns, after, action),
        !before.motion_observed,
        store.embeddings@.len() > 0,
    ensures
        action is Sleep,
{
}

/// Nothing is captured once the window is over, and no pause reaches beyond it.
pub proof fn scans_keep_to_their_window(
    auth: FaceAuth,
    before: Scan,
    store: EmbeddingStore,
    event: ScanEvent,
    now_ns: u128,
    after: Scan,
    action: ScanAction,
)
    requires
        scan_step(auth, before, store, event, now_ns, after, action),
    ensures
        action is Capture ==> now_ns < before.deadline_ns,
        action matches ScanAction::Sleep(ns) ==> ns <= before.interval_ns && (now_ns + ns
            <= before.deadline_ns || ns == 0),
        event is Resumed && now_ns >= before.deadline_ns ==> action == ScanAction::Finished(false),
{
}

/// Captures that fail end a scan only three in a row: a frame in between resets the count.
pub proof fn single_errors_are_forgiven(
    auth: FaceAuth,
    before: Scan,
    store: EmbeddingStore,
    event: ScanEvent,
    now_ns: u128,
    after: Scan,
    action: ScanAction,
)
    requires
        scan_step(auth, before, store, event, now_ns, after, action),
        before.well_formed(),
    ensures
        action is GaveUp <==> event is CaptureFailed && before.errors == MAX_CAPTURE_ERRORS - 1,
        event is Captured ==> after.errors == 0,
        event is CaptureFailed && action !is GaveUp ==> after.errors == before.errors + 1,
{
}

/// Motion that was observed is never taken back, whatever happens next.
pub proof fn motion_is_remembered(
    auth: FaceAuth,
    before: Scan,
    store: EmbeddingStore,
    event: ScanEvent,
    now_ns: u128,
    after: Scan,
    action: ScanAction,
)
    requires
        scan_step(auth, before, store, event, now_ns, after, action),
        before.motion_observed,
    ensures
        after.motion_observed,
{
}

proof fn lemma_motion_lasts(
    auth: FaceAuth,
    states: Seq<Scan>,
    store: EmbeddingStore,
    events: Seq<ScanEvent>,
    times: Seq<u128>,
    actions: Seq<ScanAction>,
    i: int,
    n: int,
)
    requires
        scan_run(auth, states, store, events, times, actions),
        0 <= i <= n <= events.len(),
        states[i].motion_observed,
    ensures
        states[n].motion_observed,
    decreases n - i,
{
    if i < n {
        assert(scan_step(auth, states[i], store, events[i], times[i], states[i + 1], actions[i]));
        lemma_motion_lasts(auth, states, store, events, times, actions, i + 1, n);
    }
}

/// Motion and a match are enough: once the picture of a face has changed by the configured
/// fraction of its pixels since the face before, every later output that is similar enough to an
/// enrolled embedding ends the scan with a recognized user, however still the user holds by then.
pub proof fn motion_and_a_match_are_enough(
    auth: FaceAuth,
    states: Seq<Scan>,
    store: EmbeddingStore,
    events: Seq<ScanEvent>,
    times: Seq<u128>,
    actions: Seq<ScanAction>,
    i: int,
    n: int,
    output: Vec<Float32>,
    k: int,
)
    requires
        scan_run(auth, states, store, events, times, actions),
        0 <= i < n < events.len(),
        events[i] matches ScanEvent::Detected(Some(_)),
        states[i].face_frame matches Some(last) && states[i].pending matches Some(frame)
            && auth.motion_threshold().spec_le(motion_fraction(last, frame)),
        events[n] == ScanEvent::Encoded(output),
        0 <= k < store.embeddings@.len(),
        auth.match_threshold().spec_le(
            cosine(unit_vector(output@), store.embeddings@[k]@),
        ),
    ensures
        actions[n] == ScanAction::Finished(true),
{
    assert(scan_step(auth, states[i], store, events[i], times[i], states[i + 1], actions[i]));
    assert(states[i + 1].motion_observed);
    lemma_motion_lasts(auth, states, store, events, times, actions, i + 1, n);
    assert(scan_step(auth, states[n], store, events[n], times[n], states[n + 1], actions[n]));
    any_embedding_can_match(
        unit_vector(output@),
        store.embeddings@,
        auth.match_threshold(),
    );
}

/// What ends a scan, and what does not: the window is over, an output matches after motion, three
/// captures in a row failed, or nothing is enrolled. Everything else leads to a capture, to a
/// network or to a pause.
pub proof fn scans_end_only_for_a_reason(
    auth: FaceAuth,
    before: Scan,
    store: EmbeddingStore,
    event: ScanEvent,
    now_ns: u128,
    after: Scan,
    action: ScanAction,
)
    requires
        scan_step(auth, before, store, event, now_ns, after, action),
        before.well_formed(),
    ensures
        action == ScanAction::Finished(false) <==> event is Resumed && now_ns
            >= before.deadline_ns,
        action is Capture <==> event is Resumed && now_ns < before.deadline_ns,
        action is Failed <==> event is Encoded && store.embeddings@.len() == 0,
        action is GaveUp ==> event is CaptureFailed,
        action is Detect <==> (event matches ScanEvent::Captured(raw) && shows_content(raw.data@)),
        action is Encode <==> (event matches ScanEvent::Detected(Some(_))
            && before.face_frame is Some),
        action == ScanAction::Finished(true) ==> event is Encoded && before.motion_observed,
        after.deadline_ns == before.deadline_ns,
        after.interval_ns == before.interval_ns,
{
}

/// A pause is the interval between attempts, or what is left of the window where that is less,
/// and none after the window.
pub proof fn pauses_are_the_interval_or_what_is_left(
    auth: FaceAuth,
    before: Scan,
    store: EmbeddingStore,
    event: ScanEvent,
    now_ns: u128,
    after: Scan,
    ns: u128,
)
    requires
        scan_step(auth, before, store, event, now_ns, after, ScanAction::Sleep(ns)),
    ensures
        now_ns >= before.deadline_ns ==> ns == 0,
        now_ns < before.deadline_ns && now_ns + before.interval_ns <= before.deadline_ns ==> ns
            == before.interval_ns,
        now_ns < before.deadline_ns && now_ns + before.interval_ns > before.deadline_ns ==> now_ns
            + ns == before.deadline_ns,
{
}

proof fn lemma_face_is_kept(
    auth: FaceAuth,
    states: Seq<Scan>,
    store: EmbeddingStore,
    events: Seq<ScanEvent>,
    times: Seq<u128>,
    actions: Seq<ScanAction>,
    j: int,
    i: int,
)
    requires
        scan_run(auth, states, store, events, times, actions),
        0 <= j <= i <= events.len(),
        forall|m: int| j <= m < i ==> !(#[trigger] events[m] matches ScanEvent::Detected(Some(_))),
    ensures
        states[i].face_frame == states[j].face_frame,
    decreases i - j,
{
    if j < i {
        lemma_face_is_kept(auth, states, store, events, times, actions, j, i - 1);
        let e = events[i - 1];
        assert(scan_step(auth, states[i - 1], store, e, times[i - 1], states[i], actions[i - 1]));
    }
}

/// The motion of a face is measured against the frame of the face right before it, not against an
/// older one: the frame that is remembered is the one in which the last face was found.
pub proof fn faces_are_compared_with_the_face_before(
    auth: FaceAuth,
    states: Seq<Scan>,
    store: EmbeddingStore,
    events: Seq<ScanEvent>,
    times: Seq<u128>,
    actions: Seq<ScanAction>,
    j: int,
    i: int,
)
    requires
        scan_run(auth, states, store, events, times, actions),
        0 <= j < i <= events.len(),
        events[j] matches ScanEvent::Detected(Some(_)),
        forall|m: int|
            j < m < i ==> !(#[trigger] events[m] matches ScanEvent::Detected(Some(_))),
    ensures
        states[i].face_frame == states[j].pending,
{
    assert(scan_step(auth, states[j], store, events[j], times[j], states[j + 1], actions[j]));
    lemma_face_is_kept(auth, states, store, events, times, actions, j + 1, i);
}

} // verus!
