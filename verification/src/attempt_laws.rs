//! Who is accepted: what holds of every attempt that ends with a recognized user.
use crate::auth::{once_step, FaceAuth, OnceEvent, OnceStep};
use crate::float32::Float32;
use crate::inference::unit_vector;
use crate::lockout::{decision, recorded};
use crate::photo::{photo_step, score_of, PhotoEvent, PhotoStep};
use crate::scan::{
    acceptance_needs_motion, face_at, motion_at, scan_run, Scan, ScanAction, ScanEvent,
};
use crate::storage::{parsed, vectors, EmbeddingStore};
use crate::verify::{any_embedding_can_match, cosine, the_best_similarity_is_one_of_them};
use vstd::prelude::*;

verus! {

/// An attempt was allowed: the user is in no cooldown, the camera may be trusted, and `content`
/// is what the embeddings file holds, of no other model than the one in use.
pub open spec fn allowed(
    auth: FaceAuth,
    lockout: Option<Seq<u8>>,
    now_ms: u64,
    identity: Option<(Seq<char>, u32)>,
    file: Option<Seq<u8>>,
    env: Option<Seq<char>>,
    content: (Option<Seq<char>>, Seq<Seq<Float32>>),
) -> bool {
    &&& decision(recorded(lockout), auth.policy(), now_ms) is None
    &&& auth.config.pinned() is None || auth.config.pinned() == identity
    &&& file matches Some(bytes) && parsed(bytes) == Ok::<
        (Option<Seq<char>>, Seq<Seq<Float32>>),
        crate::error::FaceAuthError,
    >(content)
    &&& content.0 is None || content.0 == Some(auth.tag(env))
}

/// An output is similar enough to the embedding with index `k`.
pub open spec fn matches_embedding(
    auth: FaceAuth,
    output: Seq<Float32>,
    enrolled: Seq<Seq<Float32>>,
    k: int,
) -> bool {
    &&& 0 <= k < enrolled.len()
    &&& auth.match_threshold().spec_le(cosine(unit_vector(output), enrolled[k]))
}

/// An attempt is started exactly if it is allowed.
pub proof fn attempts_start_only_if_allowed(
    auth: FaceAuth,
    lockout: Option<Seq<u8>>,
    now_ms: u64,
    identity: Option<(Seq<char>, u32)>,
    file: Option<Seq<u8>>,
    env: Option<Seq<char>>,
)
    ensures
        auth.granted(lockout, now_ms, identity, file, env) is Ok <==> exists|
            content: (Option<Seq<char>>, Seq<Seq<Float32>>),
        | #[trigger]
            allowed(auth, lockout, now_ms, identity, file, env, content),
        auth.granted(lockout, now_ms, identity, file, env) matches Ok(content) ==> allowed(
            auth,
            lockout,
            now_ms,
            identity,
            file,
            env,
            content,
        ),
{
}

proof fn lemma_matching_embedding(auth: FaceAuth, output: Seq<Float32>, store: EmbeddingStore)
    requires
        store.embeddings@.len() > 0,
        auth.match_threshold().spec_le(score_of(output, store)),
    ensures
        exists|k: int| #[trigger] matches_embedding(auth, output, store@.1, k),
{
    let n = store.embeddings@.len() as int;
    let k = the_best_similarity_is_one_of_them(unit_vector(output), store.embeddings@, n);
    assert(vectors(store.embeddings@)[k] == store.embeddings@[k]@);
    assert(matches_embedding(auth, output, store@.1, k));
}

/// A scan that ends with a recognized user passed every gate: the attempt was allowed when it
/// started, the face that was seen last is similar enough to an embedding in the user's file, and
/// there were two frames with a face before, between which the picture moved. `store` is what
/// the attempt was started with.
pub proof fn scans_accept_only_allowed_users(
    auth: FaceAuth,
    lockout: Option<Seq<u8>>,
    now_ms: u64,
    identity: Option<(Seq<char>, u32)>,
    file: Option<Seq<u8>>,
    env: Option<Seq<char>>,
    store: EmbeddingStore,
    states: Seq<Scan>,
    events: Seq<ScanEvent>,
    times: Seq<u128>,
    actions: Seq<ScanAction>,
    n: int,
)
    requires
        auth.granted(lockout, now_ms, identity, file, env) matches Ok(content) && content
            == store@,
        scan_run(auth, states, store, events, times, actions),
        0 <= n < events.len(),
        actions[n] == ScanAction::Finished(true),
    ensures
        allowed(auth, lockout, now_ms, identity, file, env, store@),
        events[n] matches ScanEvent::Encoded(output) && exists|k: int| #[trigger]
            matches_embedding(auth, output@, store@.1, k),
        exists|i: int, j: int|
            0 <= j < i < n && #[trigger] face_at(events, j) && #[trigger] motion_at(
                auth,
                states,
                events,
                i,
            ),
{
    attempts_start_only_if_allowed(auth, lockout, now_ms, identity, file, env);
    acceptance_needs_motion(auth, states, store, events, times, actions, n);
    lemma_matching_embedding(auth, events[n]->Encoded_0@, store);
}

/// A single attempt that ends with a recognized user passed the gates too: it was allowed when it
/// started, and the face is similar enough to an embedding in the user's file.
pub proof fn single_attempts_accept_only_allowed_users(
    auth: FaceAuth,
    lockout: Option<Seq<u8>>,
    now_ms: u64,
    identity: Option<(Seq<char>, u32)>,
    file: Option<Seq<u8>>,
    env: Option<Seq<char>>,
    store: EmbeddingStore,
    event: OnceEvent,
)
    requires
        auth.granted(lockout, now_ms, identity, file, env) matches Ok(content) && content
            == store@,
        once_step(event, store, auth.match_threshold(), OnceStep::Verdict(true)),
    ensures
        allowed(auth, lockout, now_ms, identity, file, env, store@),
        event matches OnceEvent::Encoded(output) && exists|k: int| #[trigger] matches_embedding(
            auth,
            output@,
            store@.1,
            k,
        ),
{
    attempts_start_only_if_allowed(auth, lockout, now_ms, identity, file, env);
    lemma_matching_embedding(auth, event->Encoded_0@, store);
}

/// A photo that would match is similar enough to an embedding of the model in use.
pub proof fn photos_are_compared_within_one_model(
    auth: FaceAuth,
    file: Option<Seq<u8>>,
    env: Option<Seq<char>>,
    store: EmbeddingStore,
    event: PhotoEvent,
    score: Float32,
)
    requires
        auth.enrolled(file, env) matches Ok(content) && content == store@,
        photo_step(event, store, PhotoStep::Scored(score)),
        auth.match_threshold().spec_le(score),
    ensures
        store@.0 is None || store@.0 == Some(auth.tag(env)),
        event matches PhotoEvent::Encoded(output) && exists|k: int| #[trigger] matches_embedding(
            auth,
            output@,
            store@.1,
            k,
        ),
{
    lemma_matching_embedding(auth, event->Encoded_0@, store);
}

/// A single attempt recognizes a user whose face is similar enough to any enrolled embedding.
pub proof fn single_attempts_accept_matching_users(
    auth: FaceAuth,
    store: EmbeddingStore,
    output: Vec<Float32>,
    step: OnceStep,
    k: int,
)
    requires
        once_step(OnceEvent::Encoded(output), store, auth.match_threshold(), step),
        0 <= k < store.embeddings@.len(),
        auth.match_threshold().spec_le(cosine(unit_vector(output@), store.embeddings@[k]@)),
    ensures
        step == OnceStep::Verdict(true),
{
    any_embedding_can_match(unit_vector(output@), store.embeddings@, auth.match_threshold());
}

/// A single attempt does not recognize a user whose face is similar enough to no enrolled
/// embedding.
pub proof fn single_attempts_refuse_strangers(
    auth: FaceAuth,
    store: EmbeddingStore,
    output: Vec<Float32>,
    step: OnceStep,
)
    requires
        once_step(OnceEvent::Encoded(output), store, auth.match_threshold(), step),
        forall|k: int|
            0 <= k < store.embeddings@.len() ==> !auth.match_threshold().spec_le(
                #[trigger] cosine(unit_vector(output@), store.embeddings@[k]@),
            ),
    ensures
        step != OnceStep::Verdict(true),
{
    if store.embeddings@.len() > 0 {
        any_embedding_can_match(unit_vector(output@), store.embeddings@, auth.match_threshold());
    }
}

} // verus!
