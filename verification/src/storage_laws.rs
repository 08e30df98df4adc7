//! What an embeddings file holds, byte by byte, and which files are refused.
use crate::codec::{u32_at, u32_bytes, written_u32_reads_back};
use crate::error::FaceAuthError;
use crate::float32::Float32;
use crate::storage::{
    embedding_bytes, file_bytes, header_bytes, lemma_embedding_bytes_len, lemma_embeddings_read,
    lemma_header, parsed, parsed_tag, saved_embeddings_load_back,
};
use vstd::prelude::*;
use vstd::utf8::encode_utf8;

verus! {

/// A saved file begins with the number 2, the length of the tag and the tag; the number of
/// embeddings and their dimension follow, and the numbers of all embeddings, each in four bytes
/// with the lowest first.
#[verifier::spinoff_prover]
#[verifier::rlimit(40)]
pub proof fn files_are_laid_out(tag: Seq<char>, embeddings: Seq<Seq<Float32>>)
    requires
        forall|i: int| 0 <= i < embeddings.len() ==> #[trigger] embeddings[i].len() == 512,
        embeddings.len() <= u32::MAX,
        encode_utf8(tag).len() <= u32::MAX,
    ensures
        ({
            let b = file_bytes(tag, embeddings);
            let t = encode_utf8(tag).len() as int;
            &&& b.len() == 16 + t + 2048 * embeddings.len()
            &&& b[0] == 2 && b[1] == 0 && b[2] == 0 && b[3] == 0
            &&& b[4] + 0x100 * b[5] + 0x1_0000 * b[6] + 0x100_0000 * b[7] == t
            &&& b.subrange(8, 8 + t) == encode_utf8(tag)
            &&& b[8 + t] + 0x100 * b[9 + t] + 0x1_0000 * b[10 + t] + 0x100_0000 * b[11 + t]
                == embeddings.len()
            &&& b[12 + t] == 0 && b[13 + t] == 2 && b[14 + t] == 0 && b[15 + t] == 0
            &&& forall|i: int, j: int|
                0 <= i < embeddings.len() && 0 <= j < 512 ==> {
                    let at = 16 + t + 2048 * i + 4 * j;
                    b[at] + 0x100 * b[at + 1] + 0x1_0000 * b[at + 2] + 0x100_0000 * b[at + 3] == (
                    #[trigger] embeddings[i][j]).bits
                }
        }),
{
    let count = embeddings.len();
    let rest = embedding_bytes(embeddings, count as int);
    let b = file_bytes(tag, embeddings);
    let t = encode_utf8(tag).len() as int;
    lemma_header(tag, count, rest);
    lemma_embedding_bytes_len(embeddings, count as int);
    let head = header_bytes(tag, count);
    assert(b.subrange(16 + t, 16 + t + 2048 * count) =~= rest);
    lemma_embeddings_read(b, 16 + t, embeddings);
    assert(b.subrange(8, 8 + t) =~= encode_utf8(tag));
    assert(b.subrange(4, 8) =~= u32_bytes(t as u32));
    written_u32_reads_back(b, 4, t as u32);
    assert(b.subrange(12 + t, 16 + t) =~= u32_bytes(512));
    assert(u32_bytes(512)[0] == 0 && u32_bytes(512)[1] == 2 && u32_bytes(512)[2] == 0
        && u32_bytes(512)[3] == 0);
    assert(b[12 + t] == b.subrange(12 + t, 16 + t)[0]);
    assert(b[13 + t] == b.subrange(12 + t, 16 + t)[1]);
    assert(b[14 + t] == b.subrange(12 + t, 16 + t)[2]);
    assert(b[15 + t] == b.subrange(12 + t, 16 + t)[3]);
    assert(u32_at(b, 8 + t) == count);
}

/// A file without a tag: the number 1, the number of embeddings, their dimension and their
/// numbers.
pub open spec fn untagged_file(embeddings: Seq<Seq<Float32>>) -> Seq<u8> {
    seq![1u8, 0u8, 0u8, 0u8] + u32_bytes(embeddings.len() as u32) + seq![0u8, 2u8, 0u8, 0u8]
        + embedding_bytes(embeddings, embeddings.len() as int)
}

/// Files from before there were tags still load, with all their embeddings.
pub proof fn untagged_files_load(embeddings: Seq<Seq<Float32>>)
    requires
        forall|i: int| 0 <= i < embeddings.len() ==> #[trigger] embeddings[i].len() == 512,
        embeddings.len() <= u32::MAX,
    ensures
        parsed(untagged_file(embeddings)) == Ok::<_, FaceAuthError>(
            (None::<Seq<char>>, embeddings),
        ),
{
    let count = embeddings.len();
    let b = untagged_file(embeddings);
    let rest = embedding_bytes(embeddings, count as int);
    lemma_embedding_bytes_len(embeddings, count as int);
    assert(b.subrange(4, 8) =~= u32_bytes(count as u32));
    written_u32_reads_back(b, 4, count as u32);
    assert(b.subrange(12, 12 + 2048 * count as int) =~= rest);
    lemma_embeddings_read(b, 12, embeddings);
    assert(u32_at(b, 0) == 1);
    assert(b[8] == 0 && b[9] == 2 && b[10] == 0 && b[11] == 0);
    assert(u32_at(b, 8) == 512);
}

/// A saved file that was cut off anywhere is refused.
pub proof fn cut_off_files_are_refused(tag: Seq<char>, embeddings: Seq<Seq<Float32>>, n: int)
    requires
        forall|i: int| 0 <= i < embeddings.len() ==> #[trigger] embeddings[i].len() == 512,
        embeddings.len() <= u32::MAX,
        encode_utf8(tag).len() <= u32::MAX,
        0 <= n < file_bytes(tag, embeddings).len(),
    ensures
        parsed(file_bytes(tag, embeddings).take(n)) == Err::<
            (Option<Seq<char>>, Seq<Seq<Float32>>),
            FaceAuthError,
        >(FaceAuthError::UnexpectedEnd),
{
    let b = file_bytes(tag, embeddings);
    let count = embeddings.len();
    let rest = embedding_bytes(embeddings, count as int);
    lemma_header(tag, count, rest);
    lemma_embedding_bytes_len(embeddings, count as int);
    saved_embeddings_load_back(tag, embeddings);
    lemma_cut_off(b, n);
}

/// A file that ends before its last embedding does is refused.
#[verifier::spinoff_prover]
#[verifier::rlimit(40)]
proof fn lemma_cut_off(bytes: Seq<u8>, n: int)
    requires
        parsed(bytes) is Ok,
        0 <= n < parsed_tag(bytes)->Ok_0.1 + 8 + 2048 * parsed(bytes)->Ok_0.1.len(),
        n <= bytes.len(),
    ensures
        parsed(bytes.take(n)) == Err::<(Option<Seq<char>>, Seq<Seq<Float32>>), FaceAuthError>(
            FaceAuthError::UnexpectedEnd,
        ),
{
    let c = bytes.take(n);
    let at = parsed_tag(bytes)->Ok_0.1;
    if n >= 4 {
        assert(u32_at(c, 0) == u32_at(bytes, 0));
    }
    if n >= 8 {
        assert(u32_at(c, 4) == u32_at(bytes, 4));
    }
    if n >= at {
        if u32_at(bytes, 0) == 2 {
            assert(c.subrange(8, at) =~= bytes.subrange(8, at));
        }
        assert(parsed_tag(c) == parsed_tag(bytes));
    } else {
        assert(parsed_tag(c) == Err::<(Option<Seq<char>>, int), FaceAuthError>(
            FaceAuthError::UnexpectedEnd,
        ));
    }
    if n >= at + 8 {
        assert(u32_at(c, at) == u32_at(bytes, at));
        assert(u32_at(c, at + 4) == u32_at(bytes, at + 4));
    }
}

/// A file of another version, or with embeddings of another dimension, is refused as malformed;
/// one too short for its version is refused as incomplete.
pub proof fn foreign_files_are_refused(bytes: Seq<u8>)
    ensures
        bytes.len() < 4 ==> parsed(bytes) == Err::<
            (Option<Seq<char>>, Seq<Seq<Float32>>),
            FaceAuthError,
        >(FaceAuthError::UnexpectedEnd),
        bytes.len() >= 4 && !((bytes[0] == 1 || bytes[0] == 2) && bytes[1] == 0 && bytes[2] == 0
            && bytes[3] == 0) ==> parsed(bytes) == Err::<
            (Option<Seq<char>>, Seq<Seq<Float32>>),
            FaceAuthError,
        >(FaceAuthError::InvalidEmbeddingFormat),
        bytes.len() >= 12 && bytes[0] == 1 && bytes[1] == 0 && bytes[2] == 0 && bytes[3] == 0 && !(
        bytes[8] == 0 && bytes[9] == 2 && bytes[10] == 0 && bytes[11] == 0) ==> parsed(bytes)
            == Err::<(Option<Seq<char>>, Seq<Seq<Float32>>), FaceAuthError>(
            FaceAuthError::InvalidEmbeddingFormat,
        ),
        parsed(bytes) matches Ok(content) ==> forall|i: int|
            0 <= i < content.1.len() ==> #[trigger] content.1[i].len() == 512,
{
}

/// What follows the last embedding of a file does not matter.
pub proof fn surplus_bytes_do_not_matter(bytes: Seq<u8>, rest: Seq<u8>)
    requires
        parsed(bytes) is Ok,
    ensures
        parsed(bytes + rest) == parsed(bytes),
{
    let c = bytes + rest;
    let (tag, at) = parsed_tag(bytes)->Ok_0;
    if u32_at(bytes, 0) == 2 {
        assert(c.subrange(8, at) =~= bytes.subrange(8, at));
    }
    assert(parsed_tag(c) == parsed_tag(bytes));
    assert(u32_at(c, at) == u32_at(bytes, at));
    assert(u32_at(c, at + 4) == u32_at(bytes, at + 4));
    let read = parsed(bytes)->Ok_0.1;
    let read_c = parsed(c)->Ok_0.1;
    assert forall|i: int| 0 <= i < read.len() implies read[i] == read_c[i] by {
        assert(read[i] =~= read_c[i]);
    }
    assert(read =~= read_c);
}

} // verus!
