//! The full compression pipeline.
//!
//! A vector is normalized and rotated, quantized, and corrected by the signs of
//! the projected residual. Quantization is by Lloyd-Max cells
//! (`LloydMaxCompressor`) or in polar form (`TurboQuantCompressor`). Rotation,
//! projection and the other arithmetic on numbers are supplied by the caller.
use crate::compression::bitstream::{bit, packed_len, stream_bit};
use crate::compression::lloyd_max::{
    cell_of, cells, is_packing, law_decompress_after_compress, law_looked_up, law_packing_bits, law_packing_unique,
    LloydMaxQuantizer, ScalarQuantVector,
};
use crate::compression::polarquant::{
    is_pair_held, law_coordinates, law_every_pair_is_held, law_polar_size, pairs, PolarQuantizer, PolarVector,
};
use crate::compression::qjl::{
    are_signs, law_sign_bits, law_signs_unique, lemma_same_signer, BitVector, QjlCompressor,
};
use crate::scalar::Scalar;
use vstd::prelude::*;

verus! {

/// The bit pattern of the residual norm up to which a residual is left uncorrected.
pub const NEGLIGIBLE_NORM_BITS: u32 = 0x2edb_e6ff;

/// A vector compressed in polar form.
#[derive(Clone, Debug)]
pub struct TurboQuantVector {
    /// The polar form of the rotated vector.
    pub polar: PolarVector,
    /// The signs of the projected residual.
    pub residual_signs: BitVector,
    /// The norm of the residual.
    pub residual_norm: Scalar,
    /// The norm of the vector.
    pub original_norm: Scalar,
}

impl TurboQuantVector {
    /// The number of bytes of all parts.
    pub fn byte_size(&self) -> (r: usize)
        requires
            self.polar.angles@.len() + self.polar.radii@.len() + self.residual_signs.0@.len() + 8 <= usize::MAX,
        ensures
            r == self.polar.angles@.len() + self.polar.radii@.len() + self.residual_signs.0@.len() + 8,
    {
        self.polar.byte_size() + self.residual_signs.byte_len() + 8
    }
}

/// A vector compressed by Lloyd-Max cells.
#[derive(Clone, Debug)]
pub struct LloydMaxVector {
    /// The packed cells of the rotated vector.
    pub scalar: ScalarQuantVector,
    /// The signs of the projected residual.
    pub residual_signs: BitVector,
    /// The norm of the residual.
    pub residual_norm: Scalar,
    /// The norm of the vector.
    pub original_norm: Scalar,
}

impl LloydMaxVector {
    /// The number of bytes of all parts.
    pub open spec fn size(&self) -> nat {
        self.scalar.data@.len() + self.residual_signs.0@.len() + 8
    }

    /// The number of bytes of all parts.
    pub fn byte_size(&self) -> (r: usize)
        requires
            self.size() <= usize::MAX,
        ensures
            r == self.size(),
    {
        self.scalar.byte_size() + self.residual_signs.byte_len() + 8
    }
}

/// What is computed once for a query: its rotation, and the projection of that.
pub struct PreparedQuery {
    /// The rotated query.
    pub rotated: Vec<Scalar>,
    /// The projection of the rotated query.
    pub qjl_projected: Vec<Scalar>,
}

/// `sums` starts at zero, and each further element is what `step` gave for the one before,
/// whether the next sign bit is set, and the next projected coordinate.
pub open spec fn is_sign_fold<F: Fn(Scalar, bool, Scalar) -> Scalar>(
    signs: Seq<u8>,
    projected: Seq<Scalar>,
    dim: int,
    step: F,
    sums: Seq<Scalar>,
) -> bool {
    &&& sums.len() == dim + 1
    &&& sums[0] == (Scalar { bits: 0 })
    &&& forall|i: int|
        0 <= i < dim ==> step.ensures((#[trigger] sums[i], stream_bit(signs, i), projected[i]), sums[i + 1])
}

/// `r` corrects for the residual: zero where its norm is negligible, and else what `scale`
/// gave for the norm and the signed sum of the projected coordinates.
pub open spec fn is_correction<F: Fn(Scalar, bool, Scalar) -> Scalar, G: Fn(Scalar, Scalar) -> Scalar>(
    signs: Seq<u8>,
    norm: Scalar,
    projected: Seq<Scalar>,
    dim: int,
    step: F,
    scale: G,
    r: Scalar,
) -> bool {
    if norm.greater(Scalar { bits: NEGLIGIBLE_NORM_BITS }) {
        exists|sums: Seq<Scalar>| #[trigger]
            is_sign_fold(signs, projected, dim, step, sums) && scale.ensures((norm, sums.last()), r)
    } else {
        r == (Scalar { bits: 0 })
    }
}

/// The correction for the residual of a compressed vector.
pub fn residual_correction<F: Fn(Scalar, bool, Scalar) -> Scalar, G: Fn(Scalar, Scalar) -> Scalar>(
    signs: &BitVector,
    norm: Scalar,
    projected: &[Scalar],
    dim: usize,
    step: &F,
    scale: &G,
) -> (r: Scalar)
    requires
        dim <= 8 * signs.0@.len(),
        dim <= projected@.len(),
        forall|s: Scalar, b: bool, p: Scalar| #[trigger] step.requires((s, b, p)),
        forall|s: Scalar| #[trigger] scale.requires((norm, s)),
    ensures
        is_correction(signs.0@, norm, projected@, dim as int, *step, *scale, r),
{
    let zero = Scalar { bits: 0 };
    if norm.is_greater(Scalar { bits: NEGLIGIBLE_NORM_BITS }) {
        let mut dot: Scalar = zero;
        let ghost mut sums: Seq<Scalar> = seq![dot];
        let mut i: usize = 0;
        while i < dim
            invariant
                i <= dim,
                dim <= 8 * signs.0@.len(),
                dim <= projected@.len(),
                forall|s: Scalar, b: bool, p: Scalar| #[trigger] step.requires((s, b, p)),
                sums.len() == i + 1,
                sums[0] == (Scalar { bits: 0 }),
                sums.last() == dot,
                forall|k: int|
                    0 <= k < i ==> step.ensures(
                        (#[trigger] sums[k], stream_bit(signs.0@, k), projected@[k]),
                        sums[k + 1],
                    ),
            decreases dim - i,
        {
            let set: bool = (signs.0[i / 8] >> ((i % 8) as u8)) & 1 == 1;
            assert(set == stream_bit(signs.0@, i as int));
            let next: Scalar = step(dot, set, projected[i]);
            proof {
                let before = sums;
                sums = sums.push(next);
                assert forall|k: int| 0 <= k < i + 1 implies step.ensures(
                    (#[trigger] sums[k], stream_bit(signs.0@, k), projected@[k]),
                    sums[k + 1],
                ) by {
                    assert(sums[k] == before[k]);
                    if k < i {
                        assert(sums[k + 1] == before[k + 1]);
                    }
                }
            }
            dot = next;
            i = i + 1;
        }
        assert(is_sign_fold(signs.0@, projected@, dim as int, *step, sums));
        scale(norm, dot)
    } else {
        zero
    }
}

/// Compression by Lloyd-Max cells for vectors of one dimension.
pub struct LloydMaxCompressor {
    lloyd_max: LloydMaxQuantizer,
    qjl: QjlCompressor,
    dim: usize,
}

impl LloydMaxCompressor {
    /// The quantizer of rotated vectors.
    pub closed spec fn quantizer(&self) -> LloydMaxQuantizer {
        self.lloyd_max
    }

    /// The extraction of signs.
    pub closed spec fn signer(&self) -> QjlCompressor {
        self.qjl
    }

    /// The dimension of the vectors.
    pub closed spec fn dimension(&self) -> usize {
        self.dim
    }

    /// The parts are for the same dimension.
    pub open spec fn wf(&self) -> bool {
        &&& self.quantizer().wf()
        &&& self.quantizer().dimension() == self.dimension()
        &&& self.signer().dimension() == self.dimension()
        &&& self.dimension() <= usize::MAX - 7
    }

    /// A compressor around a quantizer.
    pub fn new(lloyd_max: LloydMaxQuantizer) -> (r: LloydMaxCompressor)
        ensures
            r.quantizer() == lloyd_max,
            r.dimension() == lloyd_max.dimension(),
            r.signer().dimension() == lloyd_max.dimension(),
    {
        let dim: usize = lloyd_max.dim();
        LloydMaxCompressor { lloyd_max, qjl: QjlCompressor::new(dim), dim }
    }

    /// The dimension of the vectors.
    pub fn dim(&self) -> (r: usize)
        ensures
            r == self.dimension(),
    {
        self.dim
    }

    /// The quantizer of rotated vectors.
    pub fn lloyd_max(&self) -> (r: &LloydMaxQuantizer)
        ensures
            *r == self.quantizer(),
    {
        &self.lloyd_max
    }

    /// The number of bytes of a compressed vector.
    pub open spec fn vector_size(&self) -> int {
        packed_len(self.dimension() as int, self.quantizer().width() as int) + packed_len(
            self.dimension() as int,
            1,
        ) + 8
    }

    /// The number of bytes of a compressed vector.
    pub fn bytes_per_vector(&self) -> (r: usize)
        requires
            self.wf(),
        ensures
            r == self.vector_size(),
    {
        self.lloyd_max.bytes_per_vector() + self.qjl.bytes_per_vector() + 8
    }

    /// `r` is the compressed form of `vector`, with the given results of the steps: `y` the
    /// rotated coordinates and the norm, `b` the decompressed coordinates, `d` the residual
    /// and its norm, and `z` the projected residual.
    pub open spec fn compressed_by<
        R: FnOnce(&[Scalar]) -> (Vec<Scalar>, Scalar),
        D: FnOnce(&[Scalar], &[Scalar]) -> (Vec<Scalar>, Scalar),
        P: FnOnce(&[Scalar]) -> Vec<Scalar>,
    >(
        &self,
        vector: &[Scalar],
        rotate: R,
        residual: D,
        project: P,
        r: LloydMaxVector,
        y: (Vec<Scalar>, Scalar),
        b: &[Scalar],
        d: (Vec<Scalar>, Scalar),
        z: Vec<Scalar>,
    ) -> bool {
        &&& rotate.ensures((vector,), y)
        &&& r.original_norm == y.1
        &&& r.scalar.dim == self.dimension()
        &&& r.scalar.bits == self.quantizer().width()
        &&& is_packing(r.scalar.data@, cells(self.quantizer().limits(), y.0@), self.quantizer().width() as int)
        &&& self.quantizer().looked_up(r.scalar, b@)
        &&& exists|a: &[Scalar]| a@ == y.0@ && #[trigger] residual.ensures((a, b), d)
        &&& r.residual_norm == d.1
        &&& exists|c: &[Scalar]| c@ == d.0@ && #[trigger] project.ensures((c,), z)
        &&& are_signs(r.residual_signs.0@, z@)
    }

    /// Compresses a vector.
    ///
    /// `rotate` gives the coordinates of the normalized vector after rotation, and the norm.
    /// `residual` gives the difference between rotated and decompressed coordinates, and its
    /// norm, and `project` the projection of the difference.
    pub fn compress<
        R: FnOnce(&[Scalar]) -> (Vec<Scalar>, Scalar),
        D: FnOnce(&[Scalar], &[Scalar]) -> (Vec<Scalar>, Scalar),
        P: FnOnce(&[Scalar]) -> Vec<Scalar>,
    >(&self, vector: &[Scalar], rotate: R, residual: D, project: P) -> (r: LloydMaxVector)
        requires
            self.wf(),
            vector@.len() == self.dimension(),
            rotate.requires((vector,)),
            forall|y: (Vec<Scalar>, Scalar)| #[trigger] rotate.ensures((vector,), y) ==> y.0@.len() == self.dimension(),
            forall|a: &[Scalar], b: &[Scalar]| #[trigger] residual.requires((a, b)),
            forall|a: &[Scalar], b: &[Scalar], d: (Vec<Scalar>, Scalar)| #[trigger]
                residual.ensures((a, b), d) && a@.len() == self.dimension() ==> d.0@.len() == self.dimension(),
            forall|c: &[Scalar]| #[trigger] project.requires((c,)),
            forall|c: &[Scalar], z: Vec<Scalar>| #[trigger]
                project.ensures((c,), z) && c@.len() == self.dimension() ==> z@.len() == self.dimension(),
        ensures
            exists|y: (Vec<Scalar>, Scalar), b: &[Scalar], d: (Vec<Scalar>, Scalar), z: Vec<Scalar>| #[trigger]
                self.compressed_by(vector, rotate, residual, project, r, y, b, d, z),
            r.size() == self.vector_size(),
    {
        let y: (Vec<Scalar>, Scalar) = rotate(vector);
        let rotated: &[Scalar] = y.0.as_slice();
        let scalar = self.lloyd_max.compress(rotated);
        proof {
            law_decompress_after_compress(self.lloyd_max, rotated@, scalar);
        }
        let reconstructed: Vec<Scalar> = self.lloyd_max.decompress(&scalar);
        let approximation: &[Scalar] = reconstructed.as_slice();
        let d: (Vec<Scalar>, Scalar) = residual(rotated, approximation);
        assert(residual.ensures((rotated, approximation), d));
        let difference: &[Scalar] = d.0.as_slice();
        let z: Vec<Scalar> = project(difference);
        assert(project.ensures((difference,), z));
        let residual_signs = crate::compression::qjl::pack_signs(z.as_slice());
        let r = LloydMaxVector { scalar, residual_signs, residual_norm: d.1, original_norm: y.1 };
        assert(self.compressed_by(vector, rotate, residual, project, r, y, approximation, d, z));
        r
    }

    /// Decompresses a vector. `restore` takes rotated coordinates back by the inverse
    /// rotation and scales them by the norm. The signs of the residual are not used.
    pub fn decompress<F: FnOnce(&[Scalar], Scalar) -> Vec<Scalar>>(&self, lv: &LloydMaxVector, restore: F) -> (r: Vec<
        Scalar,
    >)
        requires
            self.quantizer().readable(lv.scalar),
            forall|y: &[Scalar]| #[trigger] restore.requires((y, lv.original_norm)),
        ensures
            exists|y: &[Scalar]|
                self.quantizer().looked_up(lv.scalar, y@) && #[trigger] restore.ensures((y, lv.original_norm), r),
    {
        let rotated: Vec<Scalar> = self.lloyd_max.decompress(&lv.scalar);
        let coordinates: &[Scalar] = rotated.as_slice();
        let r: Vec<Scalar> = restore(coordinates, lv.original_norm);
        assert(restore.ensures((coordinates, lv.original_norm), r));
        r
    }

    /// `r` holds the rotated query and its projection.
    pub open spec fn prepared<R: FnOnce(&[Scalar]) -> Vec<Scalar>, P: FnOnce(&[Scalar]) -> Vec<Scalar>>(
        &self,
        query: &[Scalar],
        rotate: R,
        project: P,
        r: PreparedQuery,
    ) -> bool {
        &&& rotate.ensures((query,), r.rotated)
        &&& exists|a: &[Scalar]| a@ == r.rotated@ && #[trigger] project.ensures((a,), r.qjl_projected)
    }

    /// What a search computes once for its query.
    pub fn prepare_query<R: FnOnce(&[Scalar]) -> Vec<Scalar>, P: FnOnce(&[Scalar]) -> Vec<Scalar>>(
        &self,
        query: &[Scalar],
        rotate: R,
        project: P,
    ) -> (r: PreparedQuery)
        requires
            query@.len() == self.dimension(),
            rotate.requires((query,)),
            forall|a: &[Scalar]| #[trigger] project.requires((a,)),
        ensures
            self.prepared(query, rotate, project, r),
    {
        let rotated: Vec<Scalar> = rotate(query);
        let coordinates: &[Scalar] = rotated.as_slice();
        let qjl_projected: Vec<Scalar> = project(coordinates);
        let ghost a = coordinates;
        let r = PreparedQuery { rotated, qjl_projected };
        assert(a@ == r.rotated@ && project.ensures((a,), r.qjl_projected));
        r
    }

    /// `r` is the similarity, with the given results of the steps: `rotated` the query's
    /// rotated coordinates, `sim` their dot product with the decompressed coordinates, and
    /// `correction` that for the residual.
    pub open spec fn estimated_by<
        T: Fn(&[Scalar], &[Scalar]) -> Scalar,
        F: Fn(Scalar, bool, Scalar) -> Scalar,
        G: Fn(Scalar, Scalar) -> Scalar,
        H: Fn(Scalar, Scalar, Scalar) -> Scalar,
    >(
        &self,
        prepared: PreparedQuery,
        compressed: LloydMaxVector,
        dot: T,
        step: F,
        scale: G,
        finish: H,
        r: Scalar,
        rotated: &[Scalar],
        sim: Scalar,
        correction: Scalar,
    ) -> bool {
        &&& rotated@ == prepared.rotated@
        &&& exists|y: &[Scalar]|
            self.quantizer().looked_up(compressed.scalar, y@) && #[trigger] dot.ensures((rotated, y), sim)
        &&& is_correction(
            compressed.residual_signs.0@,
            compressed.residual_norm,
            prepared.qjl_projected@,
            self.dimension() as int,
            step,
            scale,
            correction,
        )
        &&& finish.ensures((compressed.original_norm, sim, correction), r)
    }

    /// The estimated dot product of a query with a compressed vector.
    ///
    /// `dot` gives the dot product of rotated and decompressed coordinates, `step` adds a
    /// projected coordinate with its sign to the sum so far, `scale` gives the correction for
    /// the residual's norm and that sum, and `finish` scales both by the vector's norm.
    pub fn similarity_prepared<
        T: Fn(&[Scalar], &[Scalar]) -> Scalar,
        F: Fn(Scalar, bool, Scalar) -> Scalar,
        G: Fn(Scalar, Scalar) -> Scalar,
        H: Fn(Scalar, Scalar, Scalar) -> Scalar,
    >(&self, prepared: &PreparedQuery, compressed: &LloydMaxVector, dot: &T, step: &F, scale: &G, finish: &H) -> (r: Scalar)
        requires
            self.quantizer().readable(compressed.scalar),
            self.dimension() <= 8 * compressed.residual_signs.0@.len(),
            self.dimension() <= prepared.qjl_projected@.len(),
            forall|x: &[Scalar], y: &[Scalar]| #[trigger] dot.requires((x, y)),
            forall|s: Scalar, b: bool, p: Scalar| #[trigger] step.requires((s, b, p)),
            forall|n: Scalar, s: Scalar| #[trigger] scale.requires((n, s)),
            forall|n: Scalar, s: Scalar, c: Scalar| #[trigger] finish.requires((n, s, c)),
        ensures
            exists|rotated: &[Scalar], sim: Scalar, correction: Scalar| #[trigger]
                self.estimated_by(
                    *prepared,
                    *compressed,
                    *dot,
                    *step,
                    *scale,
                    *finish,
                    r,
                    rotated,
                    sim,
                    correction,
                ),
    {
        let rotated: &[Scalar] = prepared.rotated.as_slice();
        let sim: Scalar = self.lloyd_max.similarity_raw(rotated, &compressed.scalar, dot);
        let correction: Scalar = residual_correction(
            &compressed.residual_signs,
            compressed.residual_norm,
            prepared.qjl_projected.as_slice(),
            self.dim,
            step,
            scale,
        );
        let r: Scalar = finish(compressed.original_norm, sim, correction);
        assert(self.estimated_by(*prepared, *compressed, *dot, *step, *scale, *finish, r, rotated, sim, correction));
        r
    }

    /// The estimated dot product of a query that was not prepared.
    pub fn similarity_raw<
        R: FnOnce(&[Scalar]) -> Vec<Scalar>,
        P: FnOnce(&[Scalar]) -> Vec<Scalar>,
        T: Fn(&[Scalar], &[Scalar]) -> Scalar,
        F: Fn(Scalar, bool, Scalar) -> Scalar,
        G: Fn(Scalar, Scalar) -> Scalar,
        H: Fn(Scalar, Scalar, Scalar) -> Scalar,
    >(
        &self,
        query: &[Scalar],
        compressed: &LloydMaxVector,
        rotate: R,
        project: P,
        dot: &T,
        step: &F,
        scale: &G,
        finish: &H,
    ) -> (r: Scalar)
        requires
            query@.len() == self.dimension(),
            self.quantizer().readable(compressed.scalar),
            self.dimension() <= 8 * compressed.residual_signs.0@.len(),
            rotate.requires((query,)),
            forall|a: &[Scalar]| #[trigger] project.requires((a,)),
            forall|a: &[Scalar], z: Vec<Scalar>| #[trigger] project.ensures((a,), z) ==> z@.len() == self.dimension(),
            forall|x: &[Scalar], y: &[Scalar]| #[trigger] dot.requires((x, y)),
            forall|s: Scalar, b: bool, p: Scalar| #[trigger] step.requires((s, b, p)),
            forall|n: Scalar, s: Scalar| #[trigger] scale.requires((n, s)),
            forall|n: Scalar, s: Scalar, c: Scalar| #[trigger] finish.requires((n, s, c)),
        ensures
            exists|q: PreparedQuery, rotated: &[Scalar], sim: Scalar, correction: Scalar|
                #![trigger self.estimated_by(q, *compressed, *dot, *step, *scale, *finish, r, rotated, sim, correction)]
                self.prepared(query, rotate, project, q) && self.estimated_by(
                    q,
                    *compressed,
                    *dot,
                    *step,
                    *scale,
                    *finish,
                    r,
                    rotated,
                    sim,
                    correction,
                ),
    {
        let prepared = self.prepare_query(query, rotate, project);
        self.similarity_prepared(&prepared, compressed, dot, step, scale, finish)
    }
}

/// The result of a step depends on the coordinates it is given alone.
pub open spec fn is_one_residual<D: FnOnce(&[Scalar], &[Scalar]) -> (Vec<Scalar>, Scalar)>(residual: D) -> bool {
    forall|
        a: &[Scalar],
        b: &[Scalar],
        d: (Vec<Scalar>, Scalar),
        other_a: &[Scalar],
        other_b: &[Scalar],
        other_d: (Vec<Scalar>, Scalar),
    |
        a@ == other_a@ && b@ == other_b@ && #[trigger] residual.ensures((a, b), d) && #[trigger] residual.ensures(
            (other_a, other_b),
            other_d,
        ) ==> d.0@ == other_d.0@ && d.1 == other_d.1
}

/// The result of a projection depends on the coordinates it is given alone.
pub open spec fn is_one_projection<P: FnOnce(&[Scalar]) -> Vec<Scalar>>(project: P) -> bool {
    forall|c: &[Scalar], z: Vec<Scalar>, other_c: &[Scalar], other_z: Vec<Scalar>|
        c@ == other_c@ && #[trigger] project.ensures((c,), z) && #[trigger] project.ensures((other_c,), other_z)
            ==> z@ == other_z@
}

/// Only the direction of a vector is quantized. Two vectors whose rotated unit vectors are the
/// same, such as one and its double, are compressed to the same indices, signs and norm of the
/// residual; what differs is the norm that the rotation gave.
pub proof fn law_direction_is_quantized<
    R: FnOnce(&[Scalar]) -> (Vec<Scalar>, Scalar),
    D: FnOnce(&[Scalar], &[Scalar]) -> (Vec<Scalar>, Scalar),
    P: FnOnce(&[Scalar]) -> Vec<Scalar>,
>(
    compressor: LloydMaxCompressor,
    vector: &[Scalar],
    other: &[Scalar],
    rotate: R,
    residual: D,
    project: P,
    r: LloydMaxVector,
    s: LloydMaxVector,
    y: (Vec<Scalar>, Scalar),
    b: &[Scalar],
    d: (Vec<Scalar>, Scalar),
    z: Vec<Scalar>,
    other_y: (Vec<Scalar>, Scalar),
    other_b: &[Scalar],
    other_d: (Vec<Scalar>, Scalar),
    other_z: Vec<Scalar>,
)
    requires
        compressor.wf(),
        compressor.compressed_by(vector, rotate, residual, project, r, y, b, d, z),
        compressor.compressed_by(other, rotate, residual, project, s, other_y, other_b, other_d, other_z),
        y.0@ == other_y.0@,
        y.0@.len() == compressor.dimension(),
        is_one_residual(residual),
        is_one_projection(project),
    ensures
        r.scalar.data@ == s.scalar.data@,
        r.residual_signs.0@ == s.residual_signs.0@,
        r.residual_norm == s.residual_norm,
        r.original_norm == y.1,
        s.original_norm == other_y.1,
{
    let q = compressor.quantizer();
    law_packing_unique(r.scalar.data@, s.scalar.data@, cells(q.limits(), y.0@), q.width() as int);
    law_decompress_after_compress(q, y.0@, r.scalar);
    law_decompress_after_compress(q, y.0@, s.scalar);
    assert(b@ == other_b@);
    let a = choose|a: &[Scalar]| a@ == y.0@ && #[trigger] residual.ensures((a, b), d);
    let other_a = choose|a: &[Scalar]| a@ == other_y.0@ && #[trigger] residual.ensures((a, other_b), other_d);
    assert(d.0@ == other_d.0@ && d.1 == other_d.1);
    let c = choose|c: &[Scalar]| c@ == d.0@ && #[trigger] project.ensures((c,), z);
    let other_c = choose|c: &[Scalar]| c@ == other_d.0@ && #[trigger] project.ensures((c,), other_z);
    assert(z@ == other_z@);
    law_signs_unique(r.residual_signs.0@, s.residual_signs.0@, z@);
}

/// Compressors with equal parts are equal.
pub proof fn lemma_same_compressor(a: LloydMaxCompressor, b: LloydMaxCompressor)
    requires
        a.quantizer() == b.quantizer(),
        a.signer().dimension() == b.signer().dimension(),
        a.dimension() == b.dimension(),
    ensures
        a == b,
{
    lemma_same_signer(a.signer(), b.signer());
}

/// Compression in polar form for vectors of one dimension.
pub struct TurboQuantCompressor {
    polar: PolarQuantizer,
    qjl: QjlCompressor,
    dim: usize,
}

impl TurboQuantCompressor {
    /// The quantizer of rotated vectors.
    pub closed spec fn quantizer(&self) -> PolarQuantizer {
        self.polar
    }

    /// The extraction of signs.
    pub closed spec fn signer(&self) -> QjlCompressor {
        self.qjl
    }

    /// The dimension of the vectors.
    pub closed spec fn dimension(&self) -> usize {
        self.dim
    }

    /// The parts are for the same dimension.
    pub open spec fn wf(&self) -> bool {
        &&& self.quantizer().countable()
        &&& self.quantizer().dimension() == self.dimension()
        &&& self.signer().dimension() == self.dimension()
        &&& self.dimension() <= usize::MAX / 2
    }

    /// A compressor around a quantizer.
    pub fn new(polar: PolarQuantizer) -> (r: TurboQuantCompressor)
        ensures
            r.quantizer() == polar,
            r.dimension() == polar.dimension(),
            r.signer().dimension() == polar.dimension(),
    {
        let dim: usize = polar.dim();
        TurboQuantCompressor { polar, qjl: QjlCompressor::new(dim), dim }
    }

    /// The dimension of the vectors.
    pub fn dim(&self) -> (r: usize)
        ensures
            r == self.dimension(),
    {
        self.dim
    }

    /// The quantizer of rotated vectors.
    pub fn polar(&self) -> (r: &PolarQuantizer)
        ensures
            *r == self.quantizer(),
    {
        &self.polar
    }

    /// The number of bytes of a compressed vector.
    pub open spec fn vector_size(&self) -> int {
        self.quantizer().angle_size() + pairs(self.dimension() as int) + packed_len(
            self.dimension() as int,
            1,
        ) + 8
    }

    /// The number of bytes of a compressed vector.
    pub fn bytes_per_vector(&self) -> (r: usize)
        requires
            self.wf(),
        ensures
            r == self.vector_size(),
    {
        self.polar.bytes_per_vector() + self.qjl.bytes_per_vector() + 8
    }

    /// `r` is the compressed form of `vector`, with the given results of the steps: `y` the
    /// rotated coordinates and the norm, `b` the decompressed coordinates, `d` the residual
    /// and its norm, and `z` the projected residual.
    pub open spec fn compressed_by<
        R: FnOnce(&[Scalar]) -> (Vec<Scalar>, Scalar),
        Q: Fn(Scalar, Scalar, u32, u32) -> (u32, u8),
        E: Fn(u8, u8, u32, u32) -> (Scalar, Scalar),
        D: FnOnce(&[Scalar], &[Scalar]) -> (Vec<Scalar>, Scalar),
        P: FnOnce(&[Scalar]) -> Vec<Scalar>,
    >(
        &self,
        vector: &[Scalar],
        rotate: R,
        quantize: Q,
        expand: E,
        residual: D,
        project: P,
        r: TurboQuantVector,
        y: (Vec<Scalar>, Scalar),
        b: &[Scalar],
        d: (Vec<Scalar>, Scalar),
        z: Vec<Scalar>,
    ) -> bool {
        &&& rotate.ensures((vector,), y)
        &&& r.original_norm == y.1
        &&& exists|steps: Seq<(u32, u8)>| #[trigger]
            self.quantizer().quantized(y.0@, quantize, steps) && self.quantizer().holds_steps(r.polar, steps)
        &&& exists|points: Seq<(Scalar, Scalar)>| #[trigger]
            self.quantizer().expanded(r.polar, expand, points) && b@ == self.quantizer().coordinates(points)
        &&& exists|a: &[Scalar]| a@ == y.0@ && #[trigger] residual.ensures((a, b), d)
        &&& r.residual_norm == d.1
        &&& exists|c: &[Scalar]| c@ == d.0@ && #[trigger] project.ensures((c,), z)
        &&& are_signs(r.residual_signs.0@, z@)
    }

    /// Compresses a vector.
    ///
    /// `rotate` gives the coordinates of the normalized vector after rotation, and the norm.
    /// `quantize` and `expand` are those of the polar quantizer.
    /// `residual` gives the difference between rotated and decompressed coordinates, and its
    /// norm, and `project` the projection of the difference.
    pub fn compress<
        R: FnOnce(&[Scalar]) -> (Vec<Scalar>, Scalar),
        Q: Fn(Scalar, Scalar, u32, u32) -> (u32, u8),
        E: Fn(u8, u8, u32, u32) -> (Scalar, Scalar),
        D: FnOnce(&[Scalar], &[Scalar]) -> (Vec<Scalar>, Scalar),
        P: FnOnce(&[Scalar]) -> Vec<Scalar>,
    >(&self, vector: &[Scalar], rotate: R, quantize: Q, expand: E, residual: D, project: P) -> (r: TurboQuantVector)
        requires
            self.wf(),
            vector@.len() == self.dimension(),
            rotate.requires((vector,)),
            forall|y: (Vec<Scalar>, Scalar)| #[trigger] rotate.ensures((vector,), y) ==> y.0@.len() == self.dimension(),
            forall|y0: Scalar, y1: Scalar| #[trigger]
                quantize.requires((y0, y1, self.quantizer().turn(), self.quantizer().top_radius())),
            forall|a: u8, b: u8| #[trigger]
                expand.requires((a, b, self.quantizer().turn(), self.quantizer().top_radius())),
            forall|a: &[Scalar], b: &[Scalar]| #[trigger] residual.requires((a, b)),
            forall|a: &[Scalar], b: &[Scalar], d: (Vec<Scalar>, Scalar)| #[trigger]
                residual.ensures((a, b), d) && a@.len() == self.dimension() ==> d.0@.len() == self.dimension(),
            forall|c: &[Scalar]| #[trigger] project.requires((c,)),
            forall|c: &[Scalar], z: Vec<Scalar>| #[trigger]
                project.ensures((c,), z) && c@.len() == self.dimension() ==> z@.len() == self.dimension(),
        ensures
            exists|y: (Vec<Scalar>, Scalar), b: &[Scalar], d: (Vec<Scalar>, Scalar), z: Vec<Scalar>| #[trigger]
                self.compressed_by(vector, rotate, quantize, expand, residual, project, r, y, b, d, z),
            r.polar.angles@.len() + r.polar.radii@.len() + r.residual_signs.0@.len() + 8 == self.vector_size(),
    {
        let y: (Vec<Scalar>, Scalar) = rotate(vector);
        let rotated: &[Scalar] = y.0.as_slice();
        let polar = self.polar.compress(rotated, quantize);
        proof {
            let steps = choose|steps: Seq<(u32, u8)>| #[trigger]
                self.polar.quantized(rotated@, quantize, steps) && self.polar.holds_steps(polar, steps);
            law_polar_size(self.polar, polar, steps);
            assert(self.quantizer().quantized(y.0@, quantize, steps) && self.quantizer().holds_steps(polar, steps));
        }
        let reconstructed: Vec<Scalar> = self.polar.decompress(&polar, &expand);
        let approximation: &[Scalar] = reconstructed.as_slice();
        proof {
            let points = choose|points: Seq<(Scalar, Scalar)>| #[trigger]
                self.polar.expanded(polar, expand, points) && reconstructed@ == self.polar.coordinates(points);
            assert(self.quantizer().expanded(polar, expand, points) && approximation@ == self.quantizer().coordinates(
                points,
            ));
        }
        let d: (Vec<Scalar>, Scalar) = residual(rotated, approximation);
        assert(residual.ensures((rotated, approximation), d));
        let difference: &[Scalar] = d.0.as_slice();
        let z: Vec<Scalar> = project(difference);
        assert(project.ensures((difference,), z));
        let residual_signs = crate::compression::qjl::pack_signs(z.as_slice());
        let r = TurboQuantVector { polar, residual_signs, residual_norm: d.1, original_norm: y.1 };
        assert(exists|steps: Seq<(u32, u8)>| #[trigger]
            self.quantizer().quantized(y.0@, quantize, steps) && self.quantizer().holds_steps(r.polar, steps));
        assert(exists|points: Seq<(Scalar, Scalar)>| #[trigger]
            self.quantizer().expanded(r.polar, expand, points) && approximation@ == self.quantizer().coordinates(points));
        assert(exists|a: &[Scalar]| a@ == y.0@ && #[trigger] residual.ensures((a, approximation), d));
        assert(exists|c: &[Scalar]| c@ == d.0@ && #[trigger] project.ensures((c,), z));
        assert(self.compressed_by(vector, rotate, quantize, expand, residual, project, r, y, approximation, d, z));
        r
    }

    /// Decompresses a vector. `restore` takes rotated coordinates back by the inverse
    /// rotation and scales them by the norm. The signs of the residual are not used.
    pub fn decompress<E: Fn(u8, u8, u32, u32) -> (Scalar, Scalar), F: FnOnce(&[Scalar], Scalar) -> Vec<Scalar>>(&self, tv: &TurboQuantVector, expand: E, restore: F) -> (r: Vec<
        Scalar,
    >)
        requires
            self.quantizer().countable(),
            tv.polar.dim == self.quantizer().dimension(),
            tv.polar.complete(),
            forall|a: u8, b: u8| #[trigger]
                expand.requires((a, b, self.quantizer().turn(), self.quantizer().top_radius())),
            forall|y: &[Scalar]| #[trigger] restore.requires((y, tv.original_norm)),
        ensures
            exists|y: &[Scalar]|
                (exists|points: Seq<(Scalar, Scalar)>| #[trigger]
                    self.quantizer().expanded(tv.polar, expand, points) && y@ == self.quantizer().coordinates(points)) && #[trigger] restore.ensures((y, tv.original_norm), r),
    {
        let rotated: Vec<Scalar> = self.polar.decompress(&tv.polar, &expand);
        let coordinates: &[Scalar] = rotated.as_slice();
        let r: Vec<Scalar> = restore(coordinates, tv.original_norm);
        assert(restore.ensures((coordinates, tv.original_norm), r));
        r
    }

    /// `r` holds the rotated query and its projection.
    pub open spec fn prepared<R: FnOnce(&[Scalar]) -> Vec<Scalar>, P: FnOnce(&[Scalar]) -> Vec<Scalar>>(
        &self,
        query: &[Scalar],
        rotate: R,
        project: P,
        r: PreparedQuery,
    ) -> bool {
        &&& rotate.ensures((query,), r.rotated)
        &&& exists|a: &[Scalar]| a@ == r.rotated@ && #[trigger] project.ensures((a,), r.qjl_projected)
    }

    /// What a search computes once for its query.
    pub fn prepare_query<R: FnOnce(&[Scalar]) -> Vec<Scalar>, P: FnOnce(&[Scalar]) -> Vec<Scalar>>(
        &self,
        query: &[Scalar],
        rotate: R,
        project: P,
    ) -> (r: PreparedQuery)
        requires
            query@.len() == self.dimension(),
            rotate.requires((query,)),
            forall|a: &[Scalar]| #[trigger] project.requires((a,)),
        ensures
            self.prepared(query, rotate, project, r),
    {
        let rotated: Vec<Scalar> = rotate(query);
        let coordinates: &[Scalar] = rotated.as_slice();
        let qjl_projected: Vec<Scalar> = project(coordinates);
        let ghost a = coordinates;
        let r = PreparedQuery { rotated, qjl_projected };
        assert(a@ == r.rotated@ && project.ensures((a,), r.qjl_projected));
        r
    }

    /// `r` is the similarity, with the given results of the steps: `rotated` the query's
    /// rotated coordinates, `sim` their dot product with the decompressed coordinates, and
    /// `correction` that for the residual.
    pub open spec fn estimated_by<
        E: Fn(u8, u8, u32, u32) -> (Scalar, Scalar),
        T: Fn(&[Scalar], &[Scalar]) -> Scalar,
        F: Fn(Scalar, bool, Scalar) -> Scalar,
        G: Fn(Scalar, Scalar) -> Scalar,
        H: Fn(Scalar, Scalar, Scalar) -> Scalar,
    >(
        &self,
        prepared: PreparedQuery,
        compressed: TurboQuantVector,
        expand: E,
        dot: T,
        step: F,
        scale: G,
        finish: H,
        r: Scalar,
        rotated: &[Scalar],
        sim: Scalar,
        correction: Scalar,
    ) -> bool {
        &&& rotated@ == prepared.rotated@
        &&& exists|points: Seq<(Scalar, Scalar)>, y: &[Scalar]|
            #![trigger self.quantizer().expanded(compressed.polar, expand, points), dot.ensures((rotated, y), sim)]
            self.quantizer().expanded(compressed.polar, expand, points) && y@ == self.quantizer().coordinates(points)
                && dot.ensures((rotated, y), sim)
        &&& is_correction(
            compressed.residual_signs.0@,
            compressed.residual_norm,
            prepared.qjl_projected@,
            self.dimension() as int,
            step,
            scale,
            correction,
        )
        &&& finish.ensures((compressed.original_norm, sim, correction), r)
    }

    /// The estimated dot product of a query with a compressed vector.
    ///
    /// `dot` gives the dot product of rotated and decompressed coordinates, `step` adds a
    /// projected coordinate with its sign to the sum so far, `scale` gives the correction for
    /// the residual's norm and that sum, and `finish` scales both by the vector's norm.
    pub fn similarity_prepared<
        E: Fn(u8, u8, u32, u32) -> (Scalar, Scalar),
        T: Fn(&[Scalar], &[Scalar]) -> Scalar,
        F: Fn(Scalar, bool, Scalar) -> Scalar,
        G: Fn(Scalar, Scalar) -> Scalar,
        H: Fn(Scalar, Scalar, Scalar) -> Scalar,
    >(&self, prepared: &PreparedQuery, compressed: &TurboQuantVector, expand: &E, dot: &T, step: &F, scale: &G, finish: &H) -> (r: Scalar)
        requires
            self.quantizer().countable(),
            compressed.polar.dim == self.quantizer().dimension(),
            compressed.polar.complete(),
            forall|a: u8, b: u8| #[trigger]
                expand.requires((a, b, self.quantizer().turn(), self.quantizer().top_radius())),
            self.dimension() <= 8 * compressed.residual_signs.0@.len(),
            self.dimension() <= prepared.qjl_projected@.len(),
            forall|x: &[Scalar], y: &[Scalar]| #[trigger] dot.requires((x, y)),
            forall|s: Scalar, b: bool, p: Scalar| #[trigger] step.requires((s, b, p)),
            forall|n: Scalar, s: Scalar| #[trigger] scale.requires((n, s)),
            forall|n: Scalar, s: Scalar, c: Scalar| #[trigger] finish.requires((n, s, c)),
        ensures
            exists|rotated: &[Scalar], sim: Scalar, correction: Scalar| #[trigger]
                self.estimated_by(
                    *prepared,
                    *compressed,
                    *expand,
                    *dot,
                    *step,
                    *scale,
                    *finish,
                    r,
                    rotated,
                    sim,
                    correction,
                ),
    {
        let rotated: &[Scalar] = prepared.rotated.as_slice();
        let sim: Scalar = self.polar.similarity_raw(rotated, &compressed.polar, expand, dot);
        let correction: Scalar = residual_correction(
            &compressed.residual_signs,
            compressed.residual_norm,
            prepared.qjl_projected.as_slice(),
            self.dim,
            step,
            scale,
        );
        let r: Scalar = finish(compressed.original_norm, sim, correction);
        assert(self.estimated_by(*prepared, *compressed, *expand, *dot, *step, *scale, *finish, r, rotated, sim, correction));
        r
    }

    /// The estimated dot product of a query that was not prepared.
    pub fn similarity_raw<
        R: FnOnce(&[Scalar]) -> Vec<Scalar>,
        P: FnOnce(&[Scalar]) -> Vec<Scalar>,
        E: Fn(u8, u8, u32, u32) -> (Scalar, Scalar),
        T: Fn(&[Scalar], &[Scalar]) -> Scalar,
        F: Fn(Scalar, bool, Scalar) -> Scalar,
        G: Fn(Scalar, Scalar) -> Scalar,
        H: Fn(Scalar, Scalar, Scalar) -> Scalar,
    >(
        &self,
        query: &[Scalar],
        compressed: &TurboQuantVector,
        rotate: R,
        project: P,
        expand: &E,
        dot: &T,
        step: &F,
        scale: &G,
        finish: &H,
    ) -> (r: Scalar)
        requires
            query@.len() == self.dimension(),
            self.quantizer().countable(),
            compressed.polar.dim == self.quantizer().dimension(),
            compressed.polar.complete(),
            forall|a: u8, b: u8| #[trigger]
                expand.requires((a, b, self.quantizer().turn(), self.quantizer().top_radius())),
            self.dimension() <= 8 * compressed.residual_signs.0@.len(),
            rotate.requires((query,)),
            forall|a: &[Scalar]| #[trigger] project.requires((a,)),
            forall|a: &[Scalar], z: Vec<Scalar>| #[trigger] project.ensures((a,), z) ==> z@.len() == self.dimension(),
            forall|x: &[Scalar], y: &[Scalar]| #[trigger] dot.requires((x, y)),
            forall|s: Scalar, b: bool, p: Scalar| #[trigger] step.requires((s, b, p)),
            forall|n: Scalar, s: Scalar| #[trigger] scale.requires((n, s)),
            forall|n: Scalar, s: Scalar, c: Scalar| #[trigger] finish.requires((n, s, c)),
        ensures
            exists|q: PreparedQuery, rotated: &[Scalar], sim: Scalar, correction: Scalar|
                #![trigger self.estimated_by(q, *compressed, *expand, *dot, *step, *scale, *finish, r, rotated, sim, correction)]
                self.prepared(query, rotate, project, q) && self.estimated_by(
                    q,
                    *compressed,
                    *expand,
                    *dot,
                    *step,
                    *scale,
                    *finish,
                    r,
                    rotated,
                    sim,
                    correction,
                ),
    {
        let prepared = self.prepare_query(query, rotate, project);
        self.similarity_prepared(&prepared, compressed, expand, dot, step, scale, finish)
    }
}

/// The correction for a residual: none where its norm is no more than 1e-10 or no number, and else
/// what `scale` gives for the norm and the sum, from zero on, of all projected coordinates with
/// the signs of the bits at their places.
pub proof fn law_correction<F: Fn(Scalar, bool, Scalar) -> Scalar, G: Fn(Scalar, Scalar) -> Scalar>(
    signs: Seq<u8>,
    norm: Scalar,
    projected: Seq<Scalar>,
    dim: int,
    step: F,
    scale: G,
    r: Scalar,
)
    requires
        is_correction(signs, norm, projected, dim, step, scale, r),
    ensures
        norm.bits <= 0x2edb_e6ff || norm.bits > 0x7f80_0000 ==> r == (Scalar { bits: 0 }),
        0x2edb_e6ff < norm.bits <= 0x7f80_0000 ==> exists|sums: Seq<Scalar>|
            {
                &&& #[trigger] sums.len() == dim + 1
                &&& sums[0] == (Scalar { bits: 0 })
                &&& forall|i: int|
                    0 <= i < dim ==> step.ensures(
                        (#[trigger] sums[i], stream_bit(signs, i), projected[i]),
                        sums[i + 1],
                    )
                &&& scale.ensures((norm, sums[dim]), r)
            },
{
    if 0x2edb_e6ff < norm.bits <= 0x7f80_0000 {
        let sums = choose|sums: Seq<Scalar>| #[trigger]
            is_sign_fold(signs, projected, dim, step, sums) && scale.ensures((norm, sums.last()), r);
        assert(sums.len() == dim + 1);
    }
}

/// A compressed vector holds its norm and that of its residual, for every rotated coordinate the
/// index of its cell, and for every projected coordinate of the residual its sign.
pub proof fn law_compressed<
    R: FnOnce(&[Scalar]) -> (Vec<Scalar>, Scalar),
    D: FnOnce(&[Scalar], &[Scalar]) -> (Vec<Scalar>, Scalar),
    P: FnOnce(&[Scalar]) -> Vec<Scalar>,
>(
    c: LloydMaxCompressor,
    vector: &[Scalar],
    rotate: R,
    residual: D,
    project: P,
    r: LloydMaxVector,
    y: (Vec<Scalar>, Scalar),
    b: &[Scalar],
    d: (Vec<Scalar>, Scalar),
    z: Vec<Scalar>,
)
    requires
        c.wf(),
        c.compressed_by(vector, rotate, residual, project, r, y, b, d, z),
    ensures
        rotate.ensures((vector,), y),
        r.original_norm == y.1,
        r.residual_norm == d.1,
        exists|a: &[Scalar]| a@ == y.0@ && #[trigger] residual.ensures((a, b), d),
        exists|a: &[Scalar]| a@ == d.0@ && #[trigger] project.ensures((a,), z),
        forall|i: int, j: int|
            0 <= i < y.0@.len() && 0 <= j < c.quantizer().width() ==> stream_bit(
                r.scalar.data@,
                i * c.quantizer().width() + j,
            ) == #[trigger] bit(cell_of(c.quantizer().limits(), y.0@[i]) as u8, j),
        forall|k: int|
            0 <= k < z@.len() ==> (stream_bit(r.residual_signs.0@, k) <==> 0 < (#[trigger] z@[k]).bits <= 0x7f80_0000),
{
    let packed = cells(c.quantizer().limits(), y.0@);
    law_packing_bits(r.scalar.data@, packed, c.quantizer().width() as int);
    law_sign_bits(r.residual_signs.0@, z@);
    assert forall|i: int, j: int|
        0 <= i < y.0@.len() && 0 <= j < c.quantizer().width() implies stream_bit(
        r.scalar.data@,
        i * c.quantizer().width() + j,
    ) == #[trigger] bit(cell_of(c.quantizer().limits(), y.0@[i]) as u8, j) by {
        assert(packed[i] == cell_of(c.quantizer().limits(), y.0@[i]) as u8);
        assert(stream_bit(r.scalar.data@, i * c.quantizer().width() + j) == bit(packed[i], j));
    }
}

/// The similarity of a query to a compressed vector is what `finish` makes of the vector's norm,
/// the dot product of the rotated query with the vector's centroids, and the correction for the
/// residual over all dimensions.
pub proof fn law_estimated<
    T: Fn(&[Scalar], &[Scalar]) -> Scalar,
    F: Fn(Scalar, bool, Scalar) -> Scalar,
    G: Fn(Scalar, Scalar) -> Scalar,
    H: Fn(Scalar, Scalar, Scalar) -> Scalar,
>(
    c: LloydMaxCompressor,
    prepared: PreparedQuery,
    compressed: LloydMaxVector,
    dot: T,
    step: F,
    scale: G,
    finish: H,
    r: Scalar,
    rotated: &[Scalar],
    sim: Scalar,
    correction: Scalar,
)
    requires
        c.estimated_by(prepared, compressed, dot, step, scale, finish, r, rotated, sim, correction),
    ensures
        rotated@ == prepared.rotated@,
        finish.ensures((compressed.original_norm, sim, correction), r),
        exists|y: &[Scalar]|
            {
                &&& #[trigger] dot.ensures((rotated, y), sim)
                &&& y@.len() == compressed.scalar.dim
                &&& forall|i: int, v: u8|
                    0 <= i < y@.len() && (forall|j: int|
                        0 <= j < 8 ==> #[trigger] bit(v, j) == (j < compressed.scalar.bits && stream_bit(
                            compressed.scalar.data@,
                            i * compressed.scalar.bits + j,
                        ))) ==> #[trigger] y@[i] == #[trigger] c.quantizer().centers()[v as int]
            },
        compressed.residual_norm.bits <= 0x2edb_e6ff ==> correction == (Scalar { bits: 0 }),
        0x2edb_e6ff < compressed.residual_norm.bits <= 0x7f80_0000 ==> exists|sums: Seq<Scalar>|
            {
                &&& #[trigger] sums.len() == c.dimension() + 1
                &&& sums[0] == (Scalar { bits: 0 })
                &&& forall|i: int|
                    0 <= i < c.dimension() ==> step.ensures(
                        (#[trigger] sums[i], stream_bit(compressed.residual_signs.0@, i), prepared.qjl_projected@[i]),
                        sums[i + 1],
                    )
                &&& scale.ensures((compressed.residual_norm, sums[c.dimension() as int]), correction)
            },
{
    let y = choose|y: &[Scalar]|
        c.quantizer().looked_up(compressed.scalar, y@) && #[trigger] dot.ensures((rotated, y), sim);
    law_looked_up(c.quantizer(), compressed.scalar, y@);
    law_correction(
        compressed.residual_signs.0@,
        compressed.residual_norm,
        prepared.qjl_projected@,
        c.dimension() as int,
        step,
        scale,
        correction,
    );
}

/// A vector compressed in polar form holds its norm and that of its residual, every pair of its
/// rotated coordinates, and for every projected coordinate of the residual its sign.
pub proof fn law_polar_compressed<
    R: FnOnce(&[Scalar]) -> (Vec<Scalar>, Scalar),
    Q: Fn(Scalar, Scalar, u32, u32) -> (u32, u8),
    E: Fn(u8, u8, u32, u32) -> (Scalar, Scalar),
    D: FnOnce(&[Scalar], &[Scalar]) -> (Vec<Scalar>, Scalar),
    P: FnOnce(&[Scalar]) -> Vec<Scalar>,
>(
    c: TurboQuantCompressor,
    vector: &[Scalar],
    rotate: R,
    quantize: Q,
    expand: E,
    residual: D,
    project: P,
    r: TurboQuantVector,
    y: (Vec<Scalar>, Scalar),
    b: &[Scalar],
    d: (Vec<Scalar>, Scalar),
    z: Vec<Scalar>,
)
    requires
        c.wf(),
        y.0@.len() == c.dimension(),
        c.compressed_by(vector, rotate, quantize, expand, residual, project, r, y, b, d, z),
    ensures
        rotate.ensures((vector,), y),
        r.original_norm == y.1,
        r.residual_norm == d.1,
        exists|a: &[Scalar]| a@ == y.0@ && #[trigger] residual.ensures((a, b), d),
        exists|a: &[Scalar]| a@ == d.0@ && #[trigger] project.ensures((a,), z),
        2 * r.polar.radii@.len() == c.dimension() || 2 * r.polar.radii@.len() == c.dimension() + 1,
        forall|i: int|
            0 <= i < r.polar.radii@.len() ==> is_pair_held(c.quantizer(), y.0@, quantize, r.polar, i),
        forall|k: int|
            0 <= k < z@.len() ==> (stream_bit(r.residual_signs.0@, k) <==> 0 < (#[trigger] z@[k]).bits <= 0x7f80_0000),
{
    let steps = choose|steps: Seq<(u32, u8)>| #[trigger]
        c.quantizer().quantized(y.0@, quantize, steps) && c.quantizer().holds_steps(r.polar, steps);
    law_every_pair_is_held(c.quantizer(), y.0@, quantize, steps, r.polar);
    law_sign_bits(r.residual_signs.0@, z@);
}

/// The similarity of a query to a vector compressed in polar form is what `finish` makes of the
/// vector's norm, the dot product of the rotated query with the coordinates of the vector's
/// points, and the correction for the residual over all dimensions.
pub proof fn law_polar_estimated<
    E: Fn(u8, u8, u32, u32) -> (Scalar, Scalar),
    T: Fn(&[Scalar], &[Scalar]) -> Scalar,
    F: Fn(Scalar, bool, Scalar) -> Scalar,
    G: Fn(Scalar, Scalar) -> Scalar,
    H: Fn(Scalar, Scalar, Scalar) -> Scalar,
>(
    c: TurboQuantCompressor,
    prepared: PreparedQuery,
    compressed: TurboQuantVector,
    expand: E,
    dot: T,
    step: F,
    scale: G,
    finish: H,
    r: Scalar,
    rotated: &[Scalar],
    sim: Scalar,
    correction: Scalar,
)
    requires
        c.quantizer().dimension() == c.dimension(),
        c.estimated_by(prepared, compressed, expand, dot, step, scale, finish, r, rotated, sim, correction),
    ensures
        rotated@ == prepared.rotated@,
        finish.ensures((compressed.original_norm, sim, correction), r),
        exists|y: &[Scalar], points: Seq<(Scalar, Scalar)>|
            {
                &&& #[trigger] dot.ensures((rotated, y), sim)
                &&& #[trigger] c.quantizer().expanded(compressed.polar, expand, points)
                &&& y@.len() == c.dimension()
                &&& forall|i: int|
                    0 <= i < points.len() ==> y@[2 * i] == (#[trigger] points[i]).0 && (2 * i + 1 < c.dimension()
                        ==> y@[2 * i + 1] == points[i].1)
            },
        compressed.residual_norm.bits <= 0x2edb_e6ff ==> correction == (Scalar { bits: 0 }),
        0x2edb_e6ff < compressed.residual_norm.bits <= 0x7f80_0000 ==> exists|sums: Seq<Scalar>|
            {
                &&& #[trigger] sums.len() == c.dimension() + 1
                &&& sums[0] == (Scalar { bits: 0 })
                &&& forall|i: int|
                    0 <= i < c.dimension() ==> step.ensures(
                        (#[trigger] sums[i], stream_bit(compressed.residual_signs.0@, i), prepared.qjl_projected@[i]),
                        sums[i + 1],
                    )
                &&& scale.ensures((compressed.residual_norm, sums[c.dimension() as int]), correction)
            },
{
    let (points, y) = choose|points: Seq<(Scalar, Scalar)>, y: &[Scalar]|
        #![trigger c.quantizer().expanded(compressed.polar, expand, points), dot.ensures((rotated, y), sim)]
        c.quantizer().expanded(compressed.polar, expand, points) && y@ == c.quantizer().coordinates(points)
            && dot.ensures((rotated, y), sim);
    law_coordinates(c.quantizer(), points);
    law_correction(
        compressed.residual_signs.0@,
        compressed.residual_norm,
        prepared.qjl_projected@,
        c.dimension() as int,
        step,
        scale,
        correction,
    );
}

} // verus!
