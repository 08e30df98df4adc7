//! Matching an embedding against the enrolled ones.
use crate::error::FaceAuthError;
use crate::float32::Float32;
use crate::inference::{norm, vector_norm};
use crate::storage::EmbeddingStore;
use vstd::prelude::*;

verus! {

/// The sum of the products of the first `n` pairs, added up in order.
pub open spec fn dot(a: Seq<Float32>, b: Seq<Float32>, n: int) -> Float32
    decreases n,
{
    if n <= 0 {
        Float32 { bits: 0 }
    } else {
        dot(a, b, n - 1).spec_add(a[n - 1].spec_mul(b[n - 1]))
    }
}

/// The cosine of the angle between two vectors: their product over the product of their
/// lengths. Numbers beyond the end of the shorter one do not count toward the product.
pub open spec fn cosine(a: Seq<Float32>, b: Seq<Float32>) -> Float32 {
    let n = if a.len() < b.len() {
        a.len() as int
    } else {
        b.len() as int
    };
    dot(a, b, n).spec_div(norm(a).spec_mul(norm(b)))
}

/// The cosine similarity of two embeddings.
pub fn cosine_similarity(a: &Vec<Float32>, b: &Vec<Float32>) -> (r: Float32)
    ensures
        r == cosine(a@, b@),
{
    let n: usize = if a.len() < b.len() {
        a.len()
    } else {
        b.len()
    };
    let mut sum = Float32::from_bits(0);
    let mut i: usize = 0;
    while i < n
        invariant
            i <= n,
            n <= a@.len(),
            n <= b@.len(),
            sum == dot(a@, b@, i as int),
        decreases n - i,
    {
        sum = sum.add(a[i].mul(b[i]));
        i = i + 1;
    }
    sum.div(vector_norm(a).mul(vector_norm(b)))
}

/// The highest similarity to one of the first `n` enrolled embeddings.
pub open spec fn best_similarity(
    embedding: Seq<Float32>,
    enrolled: Seq<Vec<Float32>>,
    n: int,
) -> Float32
    decreases n,
{
    if n <= 1 {
        cosine(embedding, enrolled[0]@)
    } else {
        best_similarity(embedding, enrolled, n - 1).spec_max(cosine(embedding, enrolled[n - 1]@))
    }
}

/// The highest similarity is the similarity to one of the enrolled embeddings.
pub proof fn the_best_similarity_is_one_of_them(
    embedding: Seq<Float32>,
    enrolled: Seq<Vec<Float32>>,
    n: int,
) -> (k: int)
    requires
        0 < n <= enrolled.len(),
    ensures
        0 <= k < n,
        best_similarity(embedding, enrolled, n) == cosine(embedding, enrolled[k]@),
    decreases n,
{
    if n <= 1 {
        0
    } else {
        let k = the_best_similarity_is_one_of_them(embedding, enrolled, n - 1);
        let last = cosine(embedding, enrolled[n - 1]@);
        if best_similarity(embedding, enrolled, n) == last {
            n - 1
        } else {
            k
        }
    }
}

proof fn lemma_reaches(
    embedding: Seq<Float32>,
    enrolled: Seq<Vec<Float32>>,
    n: int,
    k: int,
    threshold: Float32,
)
    requires
        0 <= k < n <= enrolled.len(),
        threshold.spec_le(cosine(embedding, enrolled[k]@)),
    ensures
        threshold.spec_le(best_similarity(embedding, enrolled, n)),
    decreases n,
{
    if n > 1 && k < n - 1 {
        lemma_reaches(embedding, enrolled, n - 1, k, threshold);
    }
}

/// The highest similarity is not below the similarity to any of the enrolled embeddings, and what
/// one of them reaches, it reaches too.
pub proof fn no_embedding_is_more_similar(
    embedding: Seq<Float32>,
    enrolled: Seq<Vec<Float32>>,
    n: int,
    k: int,
    threshold: Float32,
)
    requires
        0 <= k < n <= enrolled.len(),
    ensures
        !best_similarity(embedding, enrolled, n).spec_lt(cosine(embedding, enrolled[k]@)),
        threshold.spec_le(cosine(embedding, enrolled[k]@)) ==> threshold.spec_le(
            best_similarity(embedding, enrolled, n),
        ),
{
    let similarity = cosine(embedding, enrolled[k]@);
    if threshold.spec_le(similarity) {
        lemma_reaches(embedding, enrolled, n, k, threshold);
    }
    if similarity.spec_le(similarity) {
        lemma_reaches(embedding, enrolled, n, k, similarity);
    }
}

/// Whether an embedding matches is decided by all enrolled ones alike: the highest similarity
/// reaches a threshold exactly if the similarity to one of them does.
pub proof fn any_embedding_can_match(
    embedding: Seq<Float32>,
    enrolled: Seq<Vec<Float32>>,
    threshold: Float32,
)
    requires
        enrolled.len() > 0,
    ensures
        threshold.spec_le(best_similarity(embedding, enrolled, enrolled.len() as int)) <==> exists|
            k: int,
        |
            0 <= k < enrolled.len() && threshold.spec_le(
                #[trigger] cosine(embedding, enrolled[k]@),
            ),
{
    let n = enrolled.len() as int;
    let best = best_similarity(embedding, enrolled, n);
    if threshold.spec_le(best) {
        let k = the_best_similarity_is_one_of_them(embedding, enrolled, n);
        assert(threshold.spec_le(cosine(embedding, enrolled[k]@)));
    }
    assert forall|k: int|
        0 <= k < enrolled.len() && threshold.spec_le(
            #[trigger] cosine(embedding, enrolled[k]@),
        ) implies threshold.spec_le(best) by {
        no_embedding_is_more_similar(embedding, enrolled, n, k, threshold);
    }
}

/// The highest similarity to any enrolled embedding. Fails where nothing is enrolled.
pub fn max_similarity(embedding: &Vec<Float32>, store: &EmbeddingStore) -> (r: Result<
    Float32,
    FaceAuthError,
>)
    ensures
        store.embeddings@.len() == 0 ==> (r matches Err(e) && e is NoEmbeddings),
        store.embeddings@.len() > 0 ==> (r matches Ok(s) && s == best_similarity(
            embedding@,
            store.embeddings@,
            store.embeddings@.len() as int,
        )),
{
    if store.embeddings.len() == 0 {
        return Err(FaceAuthError::NoEmbeddings);
    }
    let mut best = cosine_similarity(embedding, &store.embeddings[0]);
    let mut i: usize = 1;
    while i < store.embeddings.len()
        invariant
            1 <= i <= store.embeddings@.len(),
            best == best_similarity(embedding@, store.embeddings@, i as int),
        decreases store.embeddings@.len() - i,
    {
        best = best.max(cosine_similarity(embedding, &store.embeddings[i]));
        i = i + 1;
    }
    Ok(best)
}

/// Whether a similarity is high enough.
pub fn passes(score: Float32, threshold: Float32) -> (r: bool)
    ensures
        r == threshold.spec_le(score),
{
    threshold.le(score)
}

/// Whether an embedding matches the enrolled ones.
pub fn verify_embedding(
    embedding: &Vec<Float32>,
    store: &EmbeddingStore,
    threshold: Float32,
) -> (r: Result<bool, FaceAuthError>)
    ensures
        store.embeddings@.len() == 0 ==> (r matches Err(e) && e is NoEmbeddings),
        store.embeddings@.len() > 0 ==> (r matches Ok(m) && m == threshold.spec_le(
            best_similarity(embedding@, store.embeddings@, store.embeddings@.len() as int),
        )),
{
    match max_similarity(embedding, store) {
        Ok(score) => Ok(passes(score, threshold)),
        Err(e) => Err(e),
    }
}

} // verus!
