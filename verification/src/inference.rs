//! The recognition network's surroundings: which backend runs it, and its normalized output.
use crate::error::FaceAuthError;
use crate::float32::Float32;
use crate::text::same_text;
use vstd::prelude::*;

verus! {

/// What runs the networks.
#[derive(Clone, Copy, Debug, PartialEq, Eq, Structural)]
pub enum Backend {
    /// On the processor.
    Tract,
}

/// The backend of that name: `"openvino"` is not part of this build, every other name means
/// the processor.
pub open spec fn chosen_backend(name: Seq<char>) -> Option<Backend> {
    if name == "openvino"@ {
        None
    } else {
        Some(Backend::Tract)
    }
}

/// The backend of that name.
pub fn choose_backend(name: &str) -> (r: Result<Backend, FaceAuthError>)
    ensures
        match chosen_backend(name@) {
            Some(b) => r == Ok::<Backend, FaceAuthError>(b),
            None => r matches Err(e) && e is BackendUnavailable,
        },
{
    if same_text(name, "openvino") {
        Err(FaceAuthError::BackendUnavailable)
    } else {
        Ok(Backend::Tract)
    }
}

/// The sum of the squares of the first `n` numbers, added up in order.
pub open spec fn sum_of_squares(x: Seq<Float32>, n: int) -> Float32
    decreases n,
{
    if n <= 0 {
        Float32 { bits: 0 }
    } else {
        sum_of_squares(x, n - 1).spec_add(x[n - 1].spec_mul(x[n - 1]))
    }
}

/// The length of a vector.
pub open spec fn norm(x: Seq<Float32>) -> Float32 {
    sum_of_squares(x, x.len() as int).spec_sqrt()
}

/// The vector divided by its length.
pub open spec fn unit_vector(x: Seq<Float32>) -> Seq<Float32> {
    Seq::new(x.len(), |i: int| x[i].spec_div(norm(x)))
}

/// The length of a vector.
pub fn vector_norm(x: &Vec<Float32>) -> (r: Float32)
    ensures
        r == norm(x@),
{
    let mut sum = Float32::from_bits(0);
    let mut i: usize = 0;
    while i < x.len()
        invariant
            i <= x@.len(),
            sum == sum_of_squares(x@, i as int),
        decreases x@.len() - i,
    {
        sum = sum.add(x[i].mul(x[i]));
        i = i + 1;
    }
    sum.sqrt()
}

/// The recognition network, as far as it is decided here.
#[derive(Clone, Copy, Debug, PartialEq, Eq, Structural)]
pub struct FaceEncoder {
    pub backend: Backend,
}

impl FaceEncoder {
    /// An encoder on the backend of that name. Fails for a backend that this build does not
    /// have.
    pub fn new(backend: &str) -> (r: Result<FaceEncoder, FaceAuthError>)
        ensures
            match chosen_backend(backend@) {
                Some(b) => r matches Ok(e) && e.backend == b,
                None => r matches Err(e) && e is BackendUnavailable,
            },
    {
        match choose_backend(backend) {
            Ok(backend) => Ok(FaceEncoder { backend }),
            Err(e) => Err(e),
        }
    }

    /// The embedding for the network's output: the output scaled to unit length.
    pub fn encode(&self, output: &Vec<Float32>) -> (r: Vec<Float32>)
        ensures
            r@ == unit_vector(output@),
    {
        let length = vector_norm(output);
        let mut embedding: Vec<Float32> = Vec::new();
        let mut i: usize = 0;
        while i < output.len()
            invariant
                i <= output@.len(),
                length == norm(output@),
                embedding@ == unit_vector(output@).take(i as int),
            decreases output@.len() - i,
        {
            embedding.push(output[i].div(length));
            i = i + 1;
            assert(embedding@ =~= unit_vector(output@).take(i as int));
        }
        assert(embedding@ =~= unit_vector(output@));
        embedding
    }
}

/// The encoder for a model file on the processor. `exists` says whether the file is there; a
/// missing one is reported with its path.
pub fn load_model(model_path: &str, exists: bool) -> (r: Result<FaceEncoder, FaceAuthError>)
    ensures
        exists ==> (r matches Ok(e) && e.backend == Backend::Tract),
        !exists ==> (r matches Err(FaceAuthError::Inference(text)) && text@ == "Model not found: "@
            + model_path@),
{
    if !exists {
        let mut text = "Model not found: ".to_owned();
        text.append(model_path);
        return Err(FaceAuthError::Inference(text));
    }
    Ok(FaceEncoder { backend: Backend::Tract })
}

} // verus!
