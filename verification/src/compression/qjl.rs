//! One-bit quantized Johnson-Lindenstrauss projections.
//!
//! A vector is projected by a random Gaussian matrix, and of each coordinate of
//! the projection only the sign is kept. The signs correct the bias that the
//! quantization of the vector itself leaves in an inner product.
use crate::compression::bitstream::{
    lemma_bytes_from_stream, lemma_one_bit, lemma_or_shifted_left, lemma_zero_bit, packed_len,
    stream_bit,
};
use crate::scalar::Scalar;
use vstd::prelude::*;

verus! {

/// Packed sign bits, eight to a byte.
#[derive(Clone, Debug)]
pub struct BitVector(pub Vec<u8>);

impl BitVector {
    /// The number of bytes of the packed bits.
    pub fn byte_len(&self) -> (r: usize)
        ensures
            r == self.0@.len(),
    {
        self.0.len()
    }
}

/// A coordinate counts as positive: greater than zero.
pub open spec fn positive(value: Scalar) -> bool {
    value.greater(Scalar { bits: 0 })
}

/// `data` holds one bit for each coordinate, set where it is positive, and clear bits up to
/// the end of the last byte.
pub open spec fn are_signs(data: Seq<u8>, projected: Seq<Scalar>) -> bool {
    &&& data.len() == packed_len(projected.len() as int, 1)
    &&& forall|k: int| #[trigger] stream_bit(data, k) == (0 <= k < projected.len() && positive(projected[k]))
}

/// Packs the signs of a projected vector: a set bit for each coordinate above zero.
pub fn pack_signs(projected: &[Scalar]) -> (r: BitVector)
    requires
        projected@.len() <= usize::MAX - 7,
    ensures
        are_signs(r.0@, projected@),
{
    let num_bytes: usize = (projected.len() + 7) / 8;
    let mut bits: Vec<u8> = vec![0u8; num_bytes];
    let zero = Scalar { bits: 0 };
    let mut i: usize = 0;
    proof {
        assert forall|k: int| !#[trigger] stream_bit(bits@, k) by {
            if 0 <= k < 8 * bits@.len() {
                lemma_zero_bit(k % 8);
            }
        }
    }
    while i < projected.len()
        invariant
            zero == (Scalar { bits: 0 }),
            i <= projected@.len(),
            bits@.len() == packed_len(projected@.len() as int, 1),
            forall|k: int| #[trigger] stream_bit(bits@, k) == (0 <= k < i && positive(projected@[k])),
        decreases projected@.len() - i,
    {
        if projected[i].is_greater(zero) {
            let ghost before = bits@;
            let byte: u8 = bits[i / 8] | (1u8 << ((i % 8) as u8));
            bits.set(i / 8, byte);
            proof {
                assert forall|k: int|
                    #[trigger] stream_bit(bits@, k) == (0 <= k < i + 1 && positive(projected@[k])) by {
                    assert(stream_bit(before, k) == (0 <= k < i && positive(projected@[k])));
                    if 0 <= k < 8 * bits@.len() {
                        let j = k % 8;
                        if k / 8 == i as int / 8 {
                            lemma_or_shifted_left(before[i as int / 8], 1u8, i as int % 8, j);
                            if i as int % 8 <= j {
                                lemma_one_bit(j - i as int % 8);
                            }
                        }
                    }
                }
            }
        } else {
            assert(!positive(projected@[i as int]));
        }
        i = i + 1;
    }
    BitVector(bits)
}

/// The packed signs of a projection are determined by it.
pub proof fn law_signs_unique(a: Seq<u8>, b: Seq<u8>, projected: Seq<Scalar>)
    requires
        are_signs(a, projected),
        are_signs(b, projected),
    ensures
        a == b,
{
    assert forall|k: int| 0 <= k < 8 * a.len() implies #[trigger] stream_bit(a, k) == stream_bit(b, k) by {}
    lemma_bytes_from_stream(a, b);
}

/// Projection and sign extraction for vectors of one dimension.
pub struct QjlCompressor {
    dim: usize,
}

impl QjlCompressor {
    /// The dimension of the vectors.
    pub closed spec fn dimension(&self) -> usize {
        self.dim
    }

    /// A compressor for vectors of `dim` coordinates.
    pub fn new(dim: usize) -> (r: QjlCompressor)
        ensures
            r.dimension() == dim,
    {
        QjlCompressor { dim }
    }

    /// The dimension of the vectors.
    pub fn dim(&self) -> (r: usize)
        ensures
            r == self.dimension(),
    {
        self.dim
    }

    /// The number of bytes of a compressed vector.
    pub fn bytes_per_vector(&self) -> (r: usize)
        requires
            self.dimension() <= usize::MAX - 7,
        ensures
            r == packed_len(self.dimension() as int, 1),
    {
        (self.dim + 7) / 8
    }

    /// The signs of the projection of a vector.
    pub fn compress<F: FnOnce(&[Scalar]) -> Vec<Scalar>>(&self, vector: &[Scalar], project: F) -> (r: BitVector)
        requires
            vector@.len() == self.dimension(),
            self.dimension() <= usize::MAX - 7,
            project.requires((vector,)),
            forall|z: Vec<Scalar>| #[trigger] project.ensures((vector,), z) ==> z@.len() == self.dimension(),
        ensures
            exists|z: Vec<Scalar>| #[trigger] project.ensures((vector,), z) && are_signs(r.0@, z@),
    {
        let projected: Vec<Scalar> = project(vector);
        let ghost z = projected;
        let r = pack_signs(projected.as_slice());
        assert(project.ensures((vector,), z) && are_signs(r.0@, z@));
        r
    }
}

/// Sign extractions for the same dimension are equal.
pub proof fn lemma_same_signer(a: QjlCompressor, b: QjlCompressor)
    requires
        a.dimension() == b.dimension(),
    ensures
        a == b,
{
}

/// The sign bit of a coordinate is set just where its pattern is that of a number above zero.
pub proof fn law_sign_bits(data: Seq<u8>, projected: Seq<Scalar>)
    requires
        are_signs(data, projected),
    ensures
        projected.len() <= 8 * data.len() < projected.len() + 8,
        forall|k: int|
            0 <= k < projected.len() ==> (stream_bit(data, k) <==> 0 < (#[trigger] projected[k]).bits <= 0x7f80_0000),
        forall|k: int| projected.len() <= k ==> !#[trigger] stream_bit(data, k),
{
    assert forall|k: int| 0 <= k < projected.len() implies (stream_bit(data, k) <==> 0 < (
    #[trigger] projected[k]).bits <= 0x7f80_0000) by {
        assert(stream_bit(data, k) == positive(projected[k]));
    }
}

} // verus!
