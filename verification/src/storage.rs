//! Enrolled embeddings and their file format.
//!
//! A file holds a version, the tag of the recognition model (since version 2), the number of
//! embeddings, their dimension and the embeddings. Networks produce incompatible embeddings
//! despite their equal shape, so the tag tells a change of model from a failed match.
use crate::codec::{read_u32, u32_at, u32_bytes, write_u32, written_u32_reads_back};
use crate::error::FaceAuthError;
use crate::float32::Float32;
use crate::paths::{join_path, joined};
use crate::text::{from_utf8, same_text};
use vstd::prelude::*;
use vstd::utf8::{decode_utf8, encode_utf8, encode_utf8_decode_utf8, encode_utf8_valid_utf8, valid_utf8};

verus! {

/// Files without a model tag.
pub const EMBEDDING_VERSION_LEGACY: u32 = 1;

/// Files with a model tag.
pub const EMBEDDING_VERSION: u32 = 2;

pub const EMBEDDING_DIM: u32 = 512;

/// A user's enrolled embeddings.
#[derive(Debug)]
pub struct EmbeddingStore {
    pub embeddings: Vec<Vec<Float32>>,
    /// The recognition model that produced them; unknown for files without a tag.
    pub model_tag: Option<String>,
}

/// The contents of an optional text.
pub open spec fn text_of(s: Option<String>) -> Option<Seq<char>> {
    match s {
        Some(s) => Some(s@),
        None => None,
    }
}

/// The contents of a list of vectors.
pub open spec fn vectors(v: Seq<Vec<Float32>>) -> Seq<Seq<Float32>> {
    Seq::new(v.len(), |i: int| v[i]@)
}

impl View for EmbeddingStore {
    type V = (Option<Seq<char>>, Seq<Seq<Float32>>);

    open spec fn view(&self) -> (Option<Seq<char>>, Seq<Seq<Float32>>) {
        (text_of(self.model_tag), vectors(self.embeddings@))
    }
}

/// The model tag at the start of a file and where it ends.
pub open spec fn parsed_tag(bytes: Seq<u8>) -> Result<(Option<Seq<char>>, int), FaceAuthError> {
    if bytes.len() < 4 {
        Err(FaceAuthError::UnexpectedEnd)
    } else if u32_at(bytes, 0) == EMBEDDING_VERSION_LEGACY {
        Ok((None, 4))
    } else if u32_at(bytes, 0) == EMBEDDING_VERSION {
        if bytes.len() < 8 || bytes.len() < 8 + u32_at(bytes, 4) {
            Err(FaceAuthError::UnexpectedEnd)
        } else {
            let end = 8 + u32_at(bytes, 4);
            let tag = bytes.subrange(8, end);
            if valid_utf8(tag) {
                Ok((Some(decode_utf8(tag)), end))
            } else {
                Err(FaceAuthError::InvalidEmbeddingFormat)
            }
        }
    } else {
        Err(FaceAuthError::InvalidEmbeddingFormat)
    }
}

/// The embedding at `at`.
pub open spec fn embedding_at(bytes: Seq<u8>, at: int) -> Seq<Float32> {
    Seq::new(EMBEDDING_DIM as nat, |j: int| Float32 { bits: u32_at(bytes, at + 4 * j) })
}

/// The contents of a file, or what is wrong with it. Bytes after the last embedding do not
/// matter.
pub open spec fn parsed(bytes: Seq<u8>) -> Result<
    (Option<Seq<char>>, Seq<Seq<Float32>>),
    FaceAuthError,
> {
    match parsed_tag(bytes) {
        Err(e) => Err(e),
        Ok((tag, at)) => {
            if bytes.len() < at + 8 {
                Err(FaceAuthError::UnexpectedEnd)
            } else if u32_at(bytes, at + 4) != EMBEDDING_DIM {
                Err(FaceAuthError::InvalidEmbeddingFormat)
            } else if bytes.len() < at + 8 + 2048 * u32_at(bytes, at) {
                Err(FaceAuthError::UnexpectedEnd)
            } else {
                Ok(
                    (
                        tag,
                        Seq::new(
                            u32_at(bytes, at) as nat,
                            |i: int| embedding_at(bytes, at + 8 + 2048 * i),
                        ),
                    ),
                )
            }
        },
    }
}

/// The bytes of the first `n` numbers.
pub open spec fn number_bytes(x: Seq<Float32>, n: int) -> Seq<u8>
    decreases n,
{
    if n <= 0 {
        Seq::empty()
    } else {
        number_bytes(x, n - 1) + u32_bytes(x[n - 1].bits)
    }
}

/// The bytes of the first `n` embeddings.
pub open spec fn embedding_bytes(x: Seq<Seq<Float32>>, n: int) -> Seq<u8>
    decreases n,
{
    if n <= 0 {
        Seq::empty()
    } else {
        embedding_bytes(x, n - 1) + number_bytes(x[n - 1], x[n - 1].len() as int)
    }
}

/// The header of a file with the given tag and number of embeddings.
pub open spec fn header_bytes(tag: Seq<char>, count: nat) -> Seq<u8> {
    u32_bytes(EMBEDDING_VERSION) + u32_bytes(encode_utf8(tag).len() as u32) + encode_utf8(tag)
        + u32_bytes(count as u32) + u32_bytes(EMBEDDING_DIM)
}

/// The file with the given tag and embeddings.
pub open spec fn file_bytes(tag: Seq<char>, embeddings: Seq<Seq<Float32>>) -> Seq<u8> {
    header_bytes(tag, embeddings.len()) + embedding_bytes(
        embeddings,
        embeddings.len() as int,
    )
}

/// Reads an embedding.
fn read_embedding(bytes: &Vec<u8>, at: usize) -> (r: Option<Vec<Float32>>)
    requires
        at <= bytes@.len(),
    ensures
        at + 2048 <= bytes@.len() ==> (r matches Some(v) && v@ == embedding_at(bytes@, at as int)),
        at + 2048 > bytes@.len() ==> r is None,
{
    let mut embedding: Vec<Float32> = Vec::new();
    let mut j: usize = 0;
    let mut pos: usize = at;
    while j < 512
        invariant
            j <= 512,
            pos == at + 4 * j,
            pos <= bytes@.len(),
            embedding@ == embedding_at(bytes@, at as int).take(j as int),
        decreases 512 - j,
    {
        match read_u32(bytes, pos) {
            Some(bits) => {
                embedding.push(Float32::from_bits(bits));
            },
            None => {
                return None;
            },
        }
        proof {
            assert(bytes.len() <= usize::MAX);
        }
        pos = pos + 4;
        j = j + 1;
        assert(embedding@ =~= embedding_at(bytes@, at as int).take(j as int));
    }
    assert(embedding@ =~= embedding_at(bytes@, at as int));
    Some(embedding)
}

/// Reads the model tag and says where it ends.
fn read_tag(bytes: &Vec<u8>) -> (r: Result<(Option<String>, usize), FaceAuthError>)
    ensures
        match parsed_tag(bytes@) {
            Ok((tag, at)) => r matches Ok((t, a)) && text_of(t) == tag && a == at && at
                <= bytes@.len(),
            Err(e) => r == Err::<(Option<String>, usize), FaceAuthError>(e),
        },
{
    let version: u32 = match read_u32(bytes, 0) {
        Some(v) => v,
        None => {
            return Err(FaceAuthError::UnexpectedEnd);
        },
    };
    if version == EMBEDDING_VERSION_LEGACY {
        return Ok((None, 4));
    }
    if version != EMBEDDING_VERSION {
        return Err(FaceAuthError::InvalidEmbeddingFormat);
    }
    let len: usize = match read_u32(bytes, 4) {
        Some(n) => n as usize,
        None => {
            return Err(FaceAuthError::UnexpectedEnd);
        },
    };
    if bytes.len() - 8 < len {
        return Err(FaceAuthError::UnexpectedEnd);
    }
    let mut tag: Vec<u8> = Vec::new();
    let mut i: usize = 0;
    while i < len
        invariant
            i <= len,
            8 + len <= bytes@.len(),
            tag@ == bytes@.subrange(8, 8 + i),
        decreases len - i,
    {
        proof {
            assert(bytes.len() <= usize::MAX);
        }
        tag.push(bytes[8 + i]);
        i = i + 1;
        assert(tag@ =~= bytes@.subrange(8, 8 + i));
    }
    match from_utf8(tag) {
        Some(text) => Ok((Some(text), 8 + len)),
        None => Err(FaceAuthError::InvalidEmbeddingFormat),
    }
}

/// Where a user's files lie, where the embeddings file lies, and where it is written before it
/// replaces the old one.
pub struct StorePaths {
    pub dir: String,
    pub file: String,
    pub temporary: String,
}

impl EmbeddingStore {
    /// The paths for a user's embeddings.
    pub fn paths(user: &str, embeddings_dir: &str) -> (r: StorePaths)
        ensures
            r.dir@ == joined(embeddings_dir@, user@),
            r.file@ == joined(joined(embeddings_dir@, user@), "embeddings.bin"@),
            r.temporary@ == joined(joined(embeddings_dir@, user@), "embeddings.bin.tmp"@),
    {
        let dir = join_path(embeddings_dir, user);
        let file = join_path(dir.as_str(), "embeddings.bin");
        let temporary = join_path(dir.as_str(), "embeddings.bin.tmp");
        StorePaths { dir, file, temporary }
    }

    /// Whether these embeddings may be compared with those of the model `current_tag`. A
    /// store of unknown origin matches every model.
    pub fn model_tag_matches(&self, current_tag: &str) -> (r: bool)
        ensures
            r == match self@.0 {
                Some(t) => t == current_tag@,
                None => true,
            },
    {
        match &self.model_tag {
            Some(t) => same_text(t.as_str(), current_tag),
            None => true,
        }
    }

    /// Reads a user's embeddings file; `None` stands for a file that does not exist.
    pub fn load(file: Option<&Vec<u8>>) -> (r: Result<EmbeddingStore, FaceAuthError>)
        ensures
            match file {
                None => r matches Err(e) && e is NoEmbeddings,
                Some(bytes) => match parsed(bytes@) {
                    Ok(content) => r matches Ok(s) && s@ == content,
                    Err(e) => r == Err::<EmbeddingStore, FaceAuthError>(e),
                },
            },
    {
        let bytes: &Vec<u8> = match file {
            Some(bytes) => bytes,
            None => {
                return Err(FaceAuthError::NoEmbeddings);
            },
        };
        let (model_tag, at) = match read_tag(bytes) {
            Ok(t) => t,
            Err(e) => {
                return Err(e);
            },
        };
        let count: u32 = match read_u32(bytes, at) {
            Some(n) => n,
            None => {
                return Err(FaceAuthError::UnexpectedEnd);
            },
        };
        proof {
            assert(bytes.len() <= usize::MAX);
        }
        let dim: u32 = match read_u32(bytes, at + 4) {
            Some(n) => n,
            None => {
                return Err(FaceAuthError::UnexpectedEnd);
            },
        };
        if dim != EMBEDDING_DIM {
            return Err(FaceAuthError::InvalidEmbeddingFormat);
        }
        let mut embeddings: Vec<Vec<Float32>> = Vec::new();
        let mut pos: usize = at + 8;
        let mut i: u32 = 0;
        while i < count
            invariant
                i <= count,
                pos == at + 8 + 2048 * i,
                pos <= bytes@.len(),
                parsed_tag(bytes@) matches Ok((t, a)) && t == text_of(model_tag) && a == at,
                count == u32_at(bytes@, at as int),
                u32_at(bytes@, at + 4) == EMBEDDING_DIM,
                file == Some(bytes),
                embeddings@.len() == i,
                forall|j: int|
                    0 <= j < i ==> #[trigger] embeddings@[j]@ == embedding_at(
                        bytes@,
                        at + 8 + 2048 * j,
                    ),
            decreases count - i,
        {
            match read_embedding(bytes, pos) {
                Some(e) => {
                    embeddings.push(e);
                },
                None => {
                    return Err(FaceAuthError::UnexpectedEnd);
                },
            }
            proof {
                assert(bytes.len() <= usize::MAX);
            }
            pos = pos + 2048;
            i = i + 1;
        }
        let store = EmbeddingStore { embeddings, model_tag };
        assert(store@.1 =~= Seq::new(
            count as nat,
            |i: int| embedding_at(bytes@, at + 8 + 2048 * i),
        ));
        Ok(store)
    }

    /// The file for these embeddings and the model that made them.
    pub fn save(&self, model_tag: &str) -> (r: Vec<u8>)
        ensures
            r@ == file_bytes(model_tag@, self@.1),
    {
        let mut out: Vec<u8> = Vec::new();
        write_u32(&mut out, EMBEDDING_VERSION);
        let tag = model_tag.as_bytes();
        write_u32(&mut out, tag.len() as u32);
        let ghost before = out@;
        let mut i: usize = 0;
        while i < tag.len()
            invariant
                i <= tag@.len(),
                out@ == before + tag@.take(i as int),
            decreases tag@.len() - i,
        {
            out.push(tag[i]);
            i = i + 1;
            assert(out@ =~= before + tag@.take(i as int));
        }
        assert(tag@.take(i as int) =~= tag@);
        write_u32(&mut out, self.embeddings.len() as u32);
        write_u32(&mut out, EMBEDDING_DIM);
        let ghost header = out@;
        assert(header =~= header_bytes(model_tag@, self@.1.len()));
        let mut i: usize = 0;
        assert(out@ =~= header + embedding_bytes(self@.1, 0));
        while i < self.embeddings.len()
            invariant
                i <= self.embeddings@.len(),
                out@ == header + embedding_bytes(self@.1, i as int),
            decreases self.embeddings@.len() - i,
        {
            write_numbers(&mut out, &self.embeddings[i]);
            i = i + 1;
            assert(out@ =~= header + embedding_bytes(self@.1, i as int));
        }
        out
    }

    pub fn add_embedding(&mut self, embedding: Vec<Float32>)
        ensures
            final(self)@ == (old(self)@.0, old(self)@.1.push(embedding@)),
            final(self).model_tag == old(self).model_tag,
    {
        let ghost before = vectors(self.embeddings@);
        self.embeddings.push(embedding);
        assert(vectors(self.embeddings@) =~= before.push(embedding@));
    }
}

/// Appends the bytes of all numbers.
fn write_numbers(out: &mut Vec<u8>, numbers: &Vec<Float32>)
    ensures
        final(out)@ == old(out)@ + number_bytes(numbers@, numbers@.len() as int),
{
    let ghost before = out@;
    let mut i: usize = 0;
    assert(out@ =~= before + number_bytes(numbers@, 0));
    while i < numbers.len()
        invariant
            i <= numbers@.len(),
            out@ == before + number_bytes(numbers@, i as int),
        decreases numbers@.len() - i,
    {
        write_u32(out, numbers[i].to_bits());
        i = i + 1;
        assert(out@ =~= before + number_bytes(numbers@, i as int));
    }
}

impl Clone for EmbeddingStore {
    fn clone(&self) -> (r: EmbeddingStore)
        ensures
            r@ == self@,
    {
        let mut embeddings: Vec<Vec<Float32>> = Vec::new();
        let mut i: usize = 0;
        while i < self.embeddings.len()
            invariant
                i <= self.embeddings@.len(),
                embeddings@.len() == i,
                forall|j: int|
                    0 <= j < i ==> #[trigger] embeddings@[j]@ == self.embeddings@[j]@,
            decreases self.embeddings@.len() - i,
        {
            let copy = self.embeddings[i].clone();
            assert(copy@ =~= self.embeddings@[i as int]@);
            embeddings.push(copy);
            i = i + 1;
        }
        assert(vectors(embeddings@) =~= vectors(self.embeddings@));
        let model_tag = match &self.model_tag {
            Some(t) => Some(t.clone()),
            None => None,
        };
        EmbeddingStore { embeddings, model_tag }
    }
}

impl Default for EmbeddingStore {
    /// Nothing enrolled, by no known model.
    fn default() -> (r: EmbeddingStore)
        ensures
            r@ == (None::<Seq<char>>, Seq::<Seq<Float32>>::empty()),
            r.model_tag is None,
    {
        let store = EmbeddingStore { embeddings: Vec::new(), model_tag: None };
        assert(store@.1 =~= Seq::<Seq<Float32>>::empty());
        store
    }
}

proof fn lemma_number_bytes(x: Seq<Float32>, n: int, j: int)
    requires
        0 <= j < n <= x.len(),
    ensures
        number_bytes(x, n).len() == 4 * n,
        number_bytes(x, n).subrange(4 * j, 4 * j + 4) == u32_bytes(x[j].bits),
    decreases n,
{
    lemma_number_bytes_len(x, n);
    lemma_number_bytes_len(x, n - 1);
    if j < n - 1 {
        lemma_number_bytes(x, n - 1, j);
        assert(number_bytes(x, n).subrange(4 * j, 4 * j + 4) =~= number_bytes(
            x,
            n - 1,
        ).subrange(4 * j, 4 * j + 4));
    } else {
        assert(number_bytes(x, n).subrange(4 * j, 4 * j + 4) =~= u32_bytes(x[j].bits));
    }
}

proof fn lemma_number_bytes_len(x: Seq<Float32>, n: int)
    requires
        0 <= n,
    ensures
        number_bytes(x, n).len() == 4 * n,
    decreases n,
{
    if n > 0 {
        lemma_number_bytes_len(x, n - 1);
    }
}

pub proof fn lemma_embedding_bytes_len(x: Seq<Seq<Float32>>, n: int)
    requires
        0 <= n <= x.len(),
        forall|i: int| 0 <= i < x.len() ==> #[trigger] x[i].len() == EMBEDDING_DIM,
    ensures
        embedding_bytes(x, n).len() == 2048 * n,
    decreases n,
{
    if n > 0 {
        lemma_embedding_bytes_len(x, n - 1);
        assert(x[n - 1].len() == EMBEDDING_DIM);
        lemma_number_bytes_len(x[n - 1], EMBEDDING_DIM as int);
    }
}

proof fn lemma_embedding_bytes(x: Seq<Seq<Float32>>, n: int, i: int)
    requires
        0 <= i < n <= x.len(),
        forall|i: int| 0 <= i < x.len() ==> #[trigger] x[i].len() == EMBEDDING_DIM,
    ensures
        2048 * i + 2048 <= embedding_bytes(x, n).len(),
        embedding_bytes(x, n).subrange(2048 * i, 2048 * i + 2048) == number_bytes(
            x[i],
            EMBEDDING_DIM as int,
        ),
    decreases n,
{
    lemma_embedding_bytes_len(x, n);
    lemma_embedding_bytes_len(x, n - 1);
    lemma_number_bytes_len(x[n - 1], EMBEDDING_DIM as int);
    assert(x[n - 1].len() == EMBEDDING_DIM);
    if i < n - 1 {
        lemma_embedding_bytes(x, n - 1, i);
        assert(embedding_bytes(x, n).subrange(2048 * i, 2048 * i + 2048) =~= embedding_bytes(
            x,
            n - 1,
        ).subrange(2048 * i, 2048 * i + 2048));
    } else {
        assert(embedding_bytes(x, n).subrange(2048 * i, 2048 * i + 2048) =~= number_bytes(
            x[i],
            EMBEDDING_DIM as int,
        ));
    }
}

pub proof fn lemma_header(tag: Seq<char>, count: nat, rest: Seq<u8>)
    requires
        encode_utf8(tag).len() <= u32::MAX,
        count <= u32::MAX,
    ensures
        ({
            let bytes = header_bytes(tag, count) + rest;
            let at = 8 + encode_utf8(tag).len() as int;
            &&& parsed_tag(bytes) == Ok::<_, FaceAuthError>((Some(tag), at))
            &&& u32_at(bytes, at) == count
            &&& u32_at(bytes, at + 4) == EMBEDDING_DIM
            &&& header_bytes(tag, count).len() == at + 8
        }),
{
    let t = encode_utf8(tag);
    let n = t.len() as int;
    let bytes = header_bytes(tag, count) + rest;
    assert(bytes.subrange(0, 4) =~= u32_bytes(EMBEDDING_VERSION));
    written_u32_reads_back(bytes, 0, EMBEDDING_VERSION);
    assert(bytes.subrange(4, 8) =~= u32_bytes(n as u32));
    written_u32_reads_back(bytes, 4, n as u32);
    assert(bytes.subrange(8, 8 + n) =~= t);
    encode_utf8_valid_utf8(tag);
    encode_utf8_decode_utf8(tag);
    assert(bytes.subrange(8 + n, 12 + n) =~= u32_bytes(count as u32));
    written_u32_reads_back(bytes, 8 + n, count as u32);
    assert(bytes.subrange(12 + n, 16 + n) =~= u32_bytes(EMBEDDING_DIM));
    written_u32_reads_back(bytes, 12 + n, EMBEDDING_DIM);
}

/// What was saved is loaded: the file of a store holds its embeddings and the tag it was saved
/// under, as long as every embedding has the expected dimension and the counts fit their
/// fields.
pub proof fn saved_embeddings_load_back(tag: Seq<char>, embeddings: Seq<Seq<Float32>>)
    requires
        forall|i: int| 0 <= i < embeddings.len() ==> #[trigger] embeddings[i].len() == EMBEDDING_DIM,
        embeddings.len() <= u32::MAX,
        encode_utf8(tag).len() <= u32::MAX,
    ensures
        parsed(file_bytes(tag, embeddings)) == Ok::<_, FaceAuthError>((Some(tag), embeddings)),
{
    let count = embeddings.len();
    let rest = embedding_bytes(embeddings, count as int);
    let bytes = file_bytes(tag, embeddings);
    let at = 8 + encode_utf8(tag).len() as int;
    lemma_header(tag, count, rest);
    lemma_embedding_bytes_len(embeddings, count as int);
    assert(bytes.subrange(at + 8, at + 8 + 2048 * count) =~= rest);
    lemma_embeddings_read(bytes, at + 8, embeddings);
}

/// Written embeddings are read where they stand.
pub proof fn lemma_embeddings_read(bytes: Seq<u8>, at: int, embeddings: Seq<Seq<Float32>>)
    requires
        0 <= at,
        at + 2048 * embeddings.len() <= bytes.len(),
        forall|i: int| 0 <= i < embeddings.len() ==> #[trigger] embeddings[i].len() == EMBEDDING_DIM,
        bytes.subrange(at, at + 2048 * embeddings.len()) == embedding_bytes(
            embeddings,
            embeddings.len() as int,
        ),
    ensures
        Seq::new(embeddings.len(), |i: int| embedding_at(bytes, at + 2048 * i)) == embeddings,
        forall|i: int, j: int|
            0 <= i < embeddings.len() && 0 <= j < 512 ==> u32_at(bytes, at + 2048 * i + 4 * j)
                == (#[trigger] embeddings[i][j]).bits,
{
    let count = embeddings.len();
    let rest = embedding_bytes(embeddings, count as int);
    lemma_embedding_bytes_len(embeddings, count as int);
    let read = Seq::new(count, |i: int| embedding_at(bytes, at + 2048 * i));
    assert forall|i: int| 0 <= i < count implies read[i] == embeddings[i] by {
        lemma_embedding_bytes(embeddings, count as int, i);
        let start = at + 2048 * i;
        assert(bytes.subrange(start, start + 2048) =~= rest.subrange(
            2048 * i,
            2048 * i + 2048,
        )) by {
            assert(bytes.subrange(start, start + 2048) =~= bytes.subrange(
                at,
                at + 2048 * count,
            ).subrange(2048 * i, 2048 * i + 2048));
        }
        assert(embeddings[i].len() == EMBEDDING_DIM);
        assert forall|j: int| 0 <= j < 512 implies (Float32 {
            bits: u32_at(bytes, start + 4 * j),
        }) == embeddings[i][j] by {
            lemma_number_bytes(embeddings[i], 512, j);
            assert(bytes.subrange(start + 4 * j, start + 4 * j + 4) =~= number_bytes(
                embeddings[i],
                512,
            ).subrange(4 * j, 4 * j + 4)) by {
                assert(bytes.subrange(start + 4 * j, start + 4 * j + 4) =~= bytes.subrange(
                    start,
                    start + 2048,
                ).subrange(4 * j, 4 * j + 4));
            }
            written_u32_reads_back(bytes, start + 4 * j, embeddings[i][j].bits);
        }
        assert(read[i] =~= embeddings[i]);
    }
    assert(read =~= embeddings);
    assert forall|i: int, j: int| 0 <= i < count && 0 <= j < 512 implies u32_at(
        bytes,
        at + 2048 * i + 4 * j,
    ) == (#[trigger] embeddings[i][j]).bits by {
        assert(read[i] == embeddings[i]);
        assert(read[i][j] == (Float32 { bits: u32_at(bytes, at + 2048 * i + 4 * j) }));
    }
}

/// A file from before there were tags is of unknown origin, whatever follows its version.
pub proof fn legacy_files_have_no_tag(bytes: Seq<u8>)
    requires
        bytes.len() >= 4,
        u32_at(bytes, 0) == EMBEDDING_VERSION_LEGACY,
    ensures
        parsed(bytes) matches Ok(content) ==> content.0 is None,
{
}

} // verus!
