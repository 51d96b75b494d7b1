//! Scalar quantization of a rotated unit vector by a fixed codebook.
//!
//! The vector is normalized and rotated, each coordinate is quantized by the
//! codebook for the standard normal distribution, scaled to the dimension, and
//! the norm is kept beside the packed indices.
use crate::compression::bitstream::{
    bit, field_is, fits, lemma_field_unique, lemma_fits_iff_below, lemma_zero_bit, pack_bits, packed_len, stream_bit,
    unpack_bits,
};
use crate::compression::lloyd_max::{holds_fields, is_packing, law_unpack_after_pack, lemma_within};
use crate::folding::{fold, folds_to};
use crate::scalar::Scalar;
use vstd::prelude::*;

verus! {

/// Packed codebook indices and the norm of the vector.
#[derive(Clone, Debug)]
pub struct TqMseVector {
    /// The packed indices.
    pub data: Vec<u8>,
    /// The norm of the vector before normalization.
    pub norm: Scalar,
    /// The number of coordinates.
    pub dim: usize,
    /// The number of bits of an index.
    pub bits: u8,
}

impl TqMseVector {
    /// The number of bytes of the norm and the indices.
    pub fn byte_size(&self) -> (r: usize)
        requires
            self.data@.len() <= usize::MAX - 4,
        ensures
            r == 4 + self.data@.len(),
    {
        4 + self.data.len()
    }

    /// The number of bytes of the packed indices of `dim` coordinates.
    pub fn index_bytes(dim: usize, bits: u8) -> (r: usize)
        requires
            dim * bits <= usize::MAX - 7,
        ensures
            r == packed_len(dim as int, bits as int),
    {
        (dim * bits as usize + 7) / 8
    }
}

/// The centroids for the standard normal distribution, as bit patterns.
pub open spec fn standard_centroids(bits: u8) -> Seq<u32> {
    if bits == 2 {
        seq![0xbfc1_54ca, 0xbee7_d567, 0x3ee7_d567, 0x3fc1_54ca]
    } else if bits == 3 {
        seq![
            0xc009_ba5e,
            0xbfac_0831,
            0xbf41_8937,
            0xbe7a_fb7f,
            0x3e7a_fb7f,
            0x3f41_8937,
            0x3fac_0831,
            0x4009_ba5e,
        ]
    } else {
        seq![
            0xc02e_e2eb,
            0xc004_6a7f,
            0xbfcf_1aa0,
            0xbfa0_cb29,
            0xbf71_4120,
            0xbf28_240b,
            0xbec6_b50b,
            0xbe03_7b4a,
            0x3e03_7b4a,
            0x3ec6_b50b,
            0x3f28_240b,
            0x3f71_4120,
            0x3fa0_cb29,
            0x3fcf_1aa0,
            0x4004_6a7f,
            0x402e_e2eb,
        ]
    }
}

/// The boundaries between the centroids, as bit patterns.
pub open spec fn standard_boundaries(bits: u8) -> Seq<u32> {
    if bits == 2 {
        seq![0xbf7b_4a23, 0x0000_0000, 0x3f7b_4a23]
    } else if bits == 3 {
        seq![0xbfdf_be77, 0xbf86_6666, 0xbf00_2752, 0x0000_0000, 0x3f00_2752, 0x3f86_6666, 0x3fdf_be77]
    } else {
        seq![
            0xc019_a6b5,
            0xbfeb_f7cf,
            0xbfb7_f2e5,
            0xbf8c_b5dd,
            0xbf4c_b296,
            0xbf05_bc02,
            0xbe84_32ca,
            0x0000_0000,
            0x3e84_32ca,
            0x3f05_bc02,
            0x3f4c_b296,
            0x3f8c_b5dd,
            0x3fb7_f2e5,
            0x3feb_f7cf,
            0x4019_a6b5,
        ]
    }
}

/// Centroids in ascending order and the boundaries between them, as bit patterns.
pub struct Codebook {
    pub centroids: Vec<u32>,
    pub boundaries: Vec<u32>,
}

/// The codebook of two, three or four bits for the standard normal distribution.
pub fn get_codebook(bits: u8) -> (r: Codebook)
    requires
        2 <= bits <= 4,
    ensures
        r.centroids@ == standard_centroids(bits),
        r.boundaries@ == standard_boundaries(bits),
{
    if bits == 2 {
        Codebook {
            centroids: vec![0xbfc1_54ca, 0xbee7_d567, 0x3ee7_d567, 0x3fc1_54ca],
            boundaries: vec![0xbf7b_4a23, 0x0000_0000, 0x3f7b_4a23],
        }
    } else if bits == 3 {
        Codebook {
            centroids: vec![
                0xc009_ba5e,
                0xbfac_0831,
                0xbf41_8937,
                0xbe7a_fb7f,
                0x3e7a_fb7f,
                0x3f41_8937,
                0x3fac_0831,
                0x4009_ba5e,
            ],
            boundaries: vec![
                0xbfdf_be77,
                0xbf86_6666,
                0xbf00_2752,
                0x0000_0000,
                0x3f00_2752,
                0x3f86_6666,
                0x3fdf_be77,
            ],
        }
    } else {
        Codebook {
            centroids: vec![
                0xc02e_e2eb,
                0xc004_6a7f,
                0xbfcf_1aa0,
                0xbfa0_cb29,
                0xbf71_4120,
                0xbf28_240b,
                0xbec6_b50b,
                0xbe03_7b4a,
                0x3e03_7b4a,
                0x3ec6_b50b,
                0x3f28_240b,
                0x3f71_4120,
                0x3fa0_cb29,
                0x3fcf_1aa0,
                0x4004_6a7f,
                0x402e_e2eb,
            ],
            boundaries: vec![
                0xc019_a6b5,
                0xbfeb_f7cf,
                0xbfb7_f2e5,
                0xbf8c_b5dd,
                0xbf4c_b296,
                0xbf05_bc02,
                0xbe84_32ca,
                0x0000_0000,
                0x3e84_32ca,
                0x3f05_bc02,
                0x3f4c_b296,
                0x3f8c_b5dd,
                0x3fb7_f2e5,
                0x3feb_f7cf,
                0x4019_a6b5,
            ],
        }
    }
}

/// The index of the codebook cell that a value falls in: the number of leading boundaries
/// that it reaches.
pub open spec fn level_of(boundaries: Seq<Scalar>, value: Scalar) -> int
    decreases boundaries.len(),
{
    if boundaries.len() > 0 && value.at_least(boundaries[0]) {
        1 + level_of(boundaries.drop_first(), value)
    } else {
        0
    }
}

/// The codebook cells that the coordinates fall in.
pub open spec fn levels(boundaries: Seq<Scalar>, rotated: Seq<Scalar>) -> Seq<u8> {
    rotated.map_values(|v: Scalar| level_of(boundaries, v) as u8)
}

proof fn lemma_level_bound(boundaries: Seq<Scalar>, value: Scalar)
    ensures
        0 <= level_of(boundaries, value) <= boundaries.len(),
    decreases boundaries.len(),
{
    if boundaries.len() > 0 && value.at_least(boundaries[0]) {
        lemma_level_bound(boundaries.drop_first(), value);
    }
}

proof fn lemma_level_passes(boundaries: Seq<Scalar>, value: Scalar, n: int)
    requires
        0 <= n <= boundaries.len(),
        forall|k: int| 0 <= k < n ==> value.at_least(#[trigger] boundaries[k]),
    ensures
        level_of(boundaries, value) == n + level_of(boundaries.skip(n), value),
    decreases n,
{
    if n == 0 {
        assert(boundaries.skip(0) =~= boundaries);
    } else {
        let rest = boundaries.drop_first();
        assert forall|k: int| 0 <= k < n - 1 implies value.at_least(#[trigger] rest[k]) by {
            assert(rest[k] == boundaries[k + 1]);
        }
        lemma_level_passes(rest, value, n - 1);
        assert(rest.skip(n - 1) =~= boundaries.skip(n));
        assert(value.at_least(boundaries[0]));
    }
}

/// `scaled` holds what `scale` gave for each of the numbers with the given patterns.
pub open spec fn are_scaled<F: Fn(Scalar) -> Scalar>(patterns: Seq<u32>, scale: F, scaled: Seq<Scalar>) -> bool {
    &&& scaled.len() == patterns.len()
    &&& forall|i: int|
        0 <= i < scaled.len() ==> scale.ensures(((Scalar { bits: patterns[i] }),), #[trigger] scaled[i])
}

fn scale_all<F: Fn(Scalar) -> Scalar>(patterns: &Vec<u32>, scale: &F) -> (r: Vec<Scalar>)
    requires
        forall|c: Scalar| #[trigger] scale.requires((c,)),
    ensures
        are_scaled(patterns@, *scale, r@),
{
    let mut r: Vec<Scalar> = Vec::with_capacity(patterns.len());
    let mut i: usize = 0;
    while i < patterns.len()
        invariant
            i <= patterns@.len(),
            r@.len() == i,
            forall|c: Scalar| #[trigger] scale.requires((c,)),
            forall|k: int|
                0 <= k < i ==> scale.ensures(((Scalar { bits: patterns@[k] }),), #[trigger] r@[k]),
        decreases patterns@.len() - i,
    {
        r.push(scale(Scalar { bits: patterns[i] }));
        i = i + 1;
    }
    r
}

/// Quantization by a scaled codebook for vectors of one dimension.
pub struct TqMseCompressor {
    scaled_centroids: Vec<Scalar>,
    scaled_boundaries: Vec<Scalar>,
    dim: usize,
    bits: u8,
}

impl TqMseCompressor {
    /// The scaled centroids.
    pub closed spec fn centers(&self) -> Seq<Scalar> {
        self.scaled_centroids@
    }

    /// The scaled boundaries.
    pub closed spec fn limits(&self) -> Seq<Scalar> {
        self.scaled_boundaries@
    }

    /// The dimension of the vectors.
    pub closed spec fn dimension(&self) -> usize {
        self.dim
    }

    /// The number of bits of an index.
    pub closed spec fn width(&self) -> u8 {
        self.bits
    }

    /// There is a centroid for every index of the width, and a boundary between every two
    /// neighbours. The size of a packed vector is a number.
    pub open spec fn wf(&self) -> bool {
        &&& 2 <= self.width() <= 4
        &&& self.centers().len() == 1u8 << self.width()
        &&& self.limits().len() + 1 == self.centers().len()
        &&& self.dimension() * self.width() <= usize::MAX - 7
    }

    /// A compressor of two, three or four bits. `scale` takes a number of the standard
    /// codebook to the spread that coordinates have in the dimension.
    pub fn new<F: Fn(Scalar) -> Scalar>(dim: usize, bits: u8, scale: F) -> (r: TqMseCompressor)
        requires
            2 <= bits <= 4,
            dim * bits <= usize::MAX - 7,
            forall|c: Scalar| #[trigger] scale.requires((c,)),
        ensures
            r.wf(),
            r.dimension() == dim,
            r.width() == bits,
            are_scaled(standard_centroids(bits), scale, r.centers()),
            are_scaled(standard_boundaries(bits), scale, r.limits()),
    {
        let codebook = get_codebook(bits);
        let scaled_centroids: Vec<Scalar> = scale_all(&codebook.centroids, &scale);
        let scaled_boundaries: Vec<Scalar> = scale_all(&codebook.boundaries, &scale);
        assert(1u8 << 2u8 == 4 && 1u8 << 3u8 == 8 && 1u8 << 4u8 == 16) by (bit_vector);
        TqMseCompressor { scaled_centroids, scaled_boundaries, dim, bits }
    }

    /// The dimension of the vectors.
    pub fn dim(&self) -> (r: usize)
        ensures
            r == self.dimension(),
    {
        self.dim
    }

    /// The number of bits of an index.
    pub fn bits(&self) -> (r: u8)
        ensures
            r == self.width(),
    {
        self.bits
    }

    /// The number of bytes of a compressed vector: four for the norm, and the indices.
    pub fn bytes_per_vector(&self) -> (r: usize)
        requires
            self.wf(),
        ensures
            r == 4 + packed_len(self.dimension() as int, self.width() as int),
    {
        4 + TqMseVector::index_bytes(self.dim, self.bits)
    }

    /// The codebook index of one coordinate.
    pub fn quantize_scalar(&self, val: Scalar) -> (r: u8)
        requires
            self.wf(),
        ensures
            r == level_of(self.limits(), val),
            r < self.centers().len(),
    {
        let ghost w = self.bits;
        assert(1u8 << w <= 16) by (bit_vector)
            requires
                2 <= w <= 4,
        ;
        let mut idx: usize = 0;
        while idx < self.scaled_boundaries.len() && val.is_at_least(self.scaled_boundaries[idx])
            invariant
                idx <= self.scaled_boundaries@.len(),
                forall|k: int| 0 <= k < idx ==> val.at_least(#[trigger] self.scaled_boundaries@[k]),
            decreases self.scaled_boundaries@.len() - idx,
        {
            idx = idx + 1;
        }
        proof {
            lemma_level_passes(self.scaled_boundaries@, val, idx as int);
            let rest = self.scaled_boundaries@.skip(idx as int);
            if rest.len() > 0 {
                assert(rest[0] == self.scaled_boundaries@[idx as int]);
            }
        }
        idx as u8
    }

    /// `r` holds the norm and the packed codebook cells of the rotated coordinates.
    pub open spec fn holds_rotated(&self, r: TqMseVector, rotated: Seq<Scalar>, norm: Scalar) -> bool {
        &&& r.dim == self.dimension()
        &&& r.bits == self.width()
        &&& r.norm == norm
        &&& is_packing(r.data@, levels(self.limits(), rotated), self.width() as int)
    }

    /// Compresses a vector. `rotate` gives the coordinates of the normalized vector after
    /// rotation, and the norm.
    pub fn compress<F: FnOnce(&[Scalar]) -> (Vec<Scalar>, Scalar)>(&self, vector: &[Scalar], rotate: F) -> (r: TqMseVector)
        requires
            self.wf(),
            vector@.len() == self.dimension(),
            rotate.requires((vector,)),
            forall|y: (Vec<Scalar>, Scalar)| #[trigger] rotate.ensures((vector,), y) ==> y.0@.len() == self.dimension(),
        ensures
            exists|y: (Vec<Scalar>, Scalar)| #[trigger]
                rotate.ensures((vector,), y) && self.holds_rotated(r, y.0@, y.1),
    {
        let y: (Vec<Scalar>, Scalar) = rotate(vector);
        let data: Vec<u8> = self.pack_rotated(y.0.as_slice());
        let r = TqMseVector { data, norm: y.1, dim: self.dim, bits: self.bits };
        assert(rotate.ensures((vector,), y) && self.holds_rotated(r, y.0@, y.1));
        r
    }

    fn pack_rotated(&self, y: &[Scalar]) -> (r: Vec<u8>)
        requires
            self.wf(),
            y@.len() == self.dimension(),
        ensures
            is_packing(r@, levels(self.limits(), y@), self.width() as int),
    {
        let num_bytes: usize = TqMseVector::index_bytes(self.dim, self.bits);
        let mut data: Vec<u8> = vec![0u8; num_bytes];
        let mut bit_offset: usize = 0;
        let mut j: usize = 0;
        let ghost bits = self.bits as int;
        let ghost indices = levels(self.scaled_boundaries@, y@);
        proof {
            assert forall|k: int| !#[trigger] stream_bit(data@, k) by {
                if 0 <= k < 8 * data@.len() {
                    lemma_zero_bit(k % 8);
                }
            }
        }
        while j < self.dim
            invariant
                self.wf(),
                y@.len() == self.dim,
                bits == self.bits,
                2 <= bits <= 4,
                indices == levels(self.scaled_boundaries@, y@),
                j <= self.dim,
                bit_offset == j * bits,
                data@.len() == packed_len(self.dim as int, bits),
                forall|x: int| 0 <= x < j ==> field_is(data@, x * bits, bits, #[trigger] indices[x]),
                forall|k: int| j * bits <= k ==> !#[trigger] stream_bit(data@, k),
            decreases self.dim - j,
        {
            let idx: u8 = self.quantize_scalar(y[j]);
            proof {
                lemma_within(j as int, self.dim as int, bits);
                lemma_fits_iff_below(idx, bits);
                assert(indices[j as int] == idx);
            }
            let ghost before = data@;
            pack_bits(&mut data, bit_offset, idx, self.bits);
            proof {
                assert forall|x: int| 0 <= x < j + 1 implies field_is(data@, x * bits, bits, #[trigger] indices[x]) by {
                    lemma_within(x, j + 1, bits);
                    assert forall|q: int| 0 <= q < 8 implies #[trigger] bit(indices[x], q) == (q < bits && stream_bit(
                        data@,
                        x * bits + q,
                    )) by {
                        let k = x * bits + q;
                        if x < j {
                            lemma_within(x, j as int, bits);
                            assert(field_is(before, x * bits, bits, indices[x]));
                            assert(bit(indices[x], q) == (q < bits && stream_bit(before, k)));
                        } else {
                            assert(k - bit_offset == q);
                            assert(!stream_bit(before, k));
                            if q >= bits {
                                assert(fits(indices[x], bits));
                            }
                        }
                    }
                }
                assert forall|k: int| (j + 1) * bits <= k implies !#[trigger] stream_bit(data@, k) by {
                    assert(!stream_bit(before, k));
                }
            }
            bit_offset = bit_offset + self.bits as usize;
            j = j + 1;
        }
        data
    }

    /// The vector's indices can be read, and each names a centroid.
    pub open spec fn readable(&self, tv: TqMseVector) -> bool {
        &&& tv.dim == self.dimension()
        &&& tv.bits < 16
        &&& tv.dim > 0 ==> ((tv.dim - 1) * tv.bits) / 8 < tv.data@.len()
        &&& tv.dim * tv.bits <= usize::MAX
        &&& forall|i: int, v: u8|
            0 <= i < tv.dim && #[trigger] field_is(tv.data@, i * tv.bits, tv.bits as int, v) ==> v < self.centers().len()
    }

    /// `y` holds the centroid that each index of the vector names.
    pub open spec fn looked_up(&self, tv: TqMseVector, y: Seq<Scalar>) -> bool {
        exists|indices: Seq<u8>| #[trigger]
            holds_fields(tv.data@, tv.bits as int, indices) && indices.len() == tv.dim && y == Seq::new(
                indices.len(),
                |i: int| self.centers()[indices[i] as int],
            )
    }

    fn look_up(&self, tv: &TqMseVector) -> (r: Vec<Scalar>)
        requires
            self.readable(*tv),
        ensures
            self.looked_up(*tv, r@),
            r@.len() == self.dimension(),
    {
        let mut y: Vec<Scalar> = Vec::with_capacity(self.dim);
        let ghost mut indices: Seq<u8> = Seq::empty();
        let mut bit_offset: usize = 0;
        let mut j: usize = 0;
        while j < self.dim
            invariant
                self.readable(*tv),
                j <= self.dim,
                bit_offset == j * tv.bits,
                indices.len() == j,
                holds_fields(tv.data@, tv.bits as int, indices),
                y@ =~= Seq::new(j as nat, |i: int| self.scaled_centroids@[indices[i] as int]),
            decreases self.dim - j,
        {
            proof {
                let (n, b) = (tv.dim as int, tv.bits as int);
                assert(j * b <= (n - 1) * b && j * b + b == (j + 1) * b && (j + 1) * b <= n * b) by (nonlinear_arith)
                    requires
                        0 <= j < n,
                        0 <= b,
                ;
            }
            let idx: u8 = unpack_bits(tv.data.as_slice(), bit_offset, tv.bits);
            y.push(self.scaled_centroids[idx as usize]);
            proof {
                let before = indices;
                indices = indices.push(idx);
                assert forall|i: int| 0 <= i < indices.len() implies field_is(
                    tv.data@,
                    i * tv.bits,
                    tv.bits as int,
                    #[trigger] indices[i],
                ) by {
                    if i < j {
                        assert(before[i] == indices[i]);
                    }
                }
            }
            bit_offset = bit_offset + tv.bits as usize;
            j = j + 1;
        }
        y
    }

    /// Decompresses a vector. `restore` takes rotated coordinates back by the inverse
    /// rotation and scales them by the norm.
    pub fn decompress<F: FnOnce(&[Scalar], Scalar) -> Vec<Scalar>>(&self, tv: &TqMseVector, restore: F) -> (r: Vec<
        Scalar,
    >)
        requires
            self.readable(*tv),
            forall|y: &[Scalar]| #[trigger] restore.requires((y, tv.norm)),
        ensures
            exists|y: &[Scalar]| self.looked_up(*tv, y@) && #[trigger] restore.ensures((y, tv.norm), r),
    {
        let y: Vec<Scalar> = self.look_up(tv);
        restore(y.as_slice(), tv.norm)
    }

    /// The dot product of two compressed vectors: the products of their centroids, summed in
    /// order by `step`, and scaled by both norms by `finish`.
    pub fn similarity<F: Fn(Scalar, Scalar, Scalar) -> Scalar, G: FnOnce(Scalar, Scalar, Scalar) -> Scalar>(
        &self,
        a: &TqMseVector,
        b: &TqMseVector,
        step: F,
        finish: G,
    ) -> (r: Scalar)
        requires
            self.readable(*a),
            self.readable(*b),
            forall|s: Scalar, x: Scalar, y: Scalar| #[trigger] step.requires((s, x, y)),
            forall|s: Scalar| #[trigger] finish.requires((s, a.norm, b.norm)),
        ensures
            exists|x: Seq<Scalar>, y: Seq<Scalar>, dot: Scalar|
                #![trigger self.looked_up(*a, x), self.looked_up(*b, y), finish.ensures((dot, a.norm, b.norm), r)]
                self.looked_up(*a, x) && self.looked_up(*b, y) && folds_to(x, y, step, dot) && finish.ensures(
                    (dot, a.norm, b.norm),
                    r,
                ),
    {
        let x: Vec<Scalar> = self.look_up(a);
        let y: Vec<Scalar> = self.look_up(b);
        let dot: Scalar = fold(x.as_slice(), y.as_slice(), &step);
        let r: Scalar = finish(dot, a.norm, b.norm);
        assert(self.looked_up(*a, x@) && self.looked_up(*b, y@) && finish.ensures((dot, a.norm, b.norm), r));
        r
    }

    /// The dot product of a query with a compressed vector: the products of the query's
    /// coordinates, rotated by `rotate`, with the centroids, summed in order by `step`, and
    /// scaled by the norm by `finish`.
    pub fn similarity_raw<
        R: FnOnce(&[Scalar]) -> Vec<Scalar>,
        F: Fn(Scalar, Scalar, Scalar) -> Scalar,
        G: FnOnce(Scalar, Scalar) -> Scalar,
    >(&self, query: &[Scalar], compressed: &TqMseVector, rotate: R, step: F, finish: G) -> (r: Scalar)
        requires
            query@.len() == self.dimension(),
            self.readable(*compressed),
            rotate.requires((query,)),
            forall|q: Vec<Scalar>| #[trigger] rotate.ensures((query,), q) ==> q@.len() == self.dimension(),
            forall|s: Scalar, x: Scalar, y: Scalar| #[trigger] step.requires((s, x, y)),
            forall|s: Scalar| #[trigger] finish.requires((s, compressed.norm)),
        ensures
            exists|q: Vec<Scalar>, y: Seq<Scalar>, dot: Scalar|
                #![trigger rotate.ensures((query,), q), self.looked_up(*compressed, y), finish.ensures((dot, compressed.norm), r)]
                rotate.ensures((query,), q) && self.looked_up(*compressed, y) && folds_to(q@, y, step, dot)
                    && finish.ensures((dot, compressed.norm), r),
    {
        let q: Vec<Scalar> = rotate(query);
        let y: Vec<Scalar> = self.look_up(compressed);
        let dot: Scalar = fold(q.as_slice(), y.as_slice(), &step);
        let r: Scalar = finish(dot, compressed.norm);
        assert(rotate.ensures((query,), q) && self.looked_up(*compressed, y@) && finish.ensures((dot, compressed.norm), r));
        r
    }
}

/// A compressed vector can be read, and every rotated coordinate comes back as the centroid
/// of its codebook cell.
pub proof fn law_look_up_after_compress(c: TqMseCompressor, rotated: Seq<Scalar>, norm: Scalar, tv: TqMseVector)
    requires
        c.wf(),
        rotated.len() == c.dimension(),
        c.holds_rotated(tv, rotated, norm),
    ensures
        c.readable(tv),
        forall|y: Seq<Scalar>| #[trigger]
            c.looked_up(tv, y) ==> y == rotated.map_values(|v: Scalar| c.centers()[level_of(c.limits(), v)]),
{
    let bits = c.width() as int;
    let w = c.width();
    let packed = levels(c.limits(), rotated);
    assert(1u8 << w <= 16) by (bit_vector)
        requires
            2 <= w <= 4,
    ;
    assert forall|i: int| 0 <= i < rotated.len() implies (#[trigger] packed[i]) as int == level_of(
        c.limits(),
        rotated[i],
    ) by {
        lemma_level_bound(c.limits(), rotated[i]);
    }
    assert forall|i: int, v: u8| 0 <= i < tv.dim && #[trigger] field_is(tv.data@, i * tv.bits, bits, v) implies v
        < c.centers().len() by {
        assert(field_is(tv.data@, i * bits, bits, packed[i]));
        crate::compression::bitstream::lemma_field_unique(tv.data@, i * bits, bits, v, packed[i]);
        lemma_level_bound(c.limits(), rotated[i]);
    }
    if tv.dim > 0 {
        lemma_within(tv.dim - 1, tv.dim as int, bits);
    }
    assert forall|y: Seq<Scalar>| #[trigger] c.looked_up(tv, y) implies y == rotated.map_values(
        |v: Scalar| c.centers()[level_of(c.limits(), v)],
    ) by {
        let indices = choose|indices: Seq<u8>| #[trigger]
            holds_fields(tv.data@, tv.bits as int, indices) && indices.len() == tv.dim && y == Seq::new(
                indices.len(),
                |i: int| c.centers()[indices[i] as int],
            );
        law_unpack_after_pack(tv.data@, packed, indices, bits);
        assert forall|i: int| 0 <= i < y.len() implies #[trigger] y[i] == c.centers()[level_of(
            c.limits(),
            rotated[i],
        )] by {
            assert(packed[i] as int == level_of(c.limits(), rotated[i]));
        }
        assert(y =~= rotated.map_values(|v: Scalar| c.centers()[level_of(c.limits(), v)]));
    }
}

/// The level of a value: the value reaches every boundary below the level and not the one above it.
pub proof fn law_level(boundaries: Seq<Scalar>, value: Scalar)
    ensures
        0 <= level_of(boundaries, value) <= boundaries.len(),
        forall|k: int| 0 <= k < level_of(boundaries, value) ==> value.at_least(#[trigger] boundaries[k]),
        level_of(boundaries, value) < boundaries.len() ==> !value.at_least(boundaries[level_of(boundaries, value)]),
    decreases boundaries.len(),
{
    if boundaries.len() > 0 && value.at_least(boundaries[0]) {
        let rest = boundaries.drop_first();
        law_level(rest, value);
        let n = level_of(rest, value);
        assert forall|k: int| 0 <= k < level_of(boundaries, value) implies value.at_least(#[trigger] boundaries[k]) by {
            if k > 0 {
                assert(rest[k - 1] == boundaries[k]);
            }
        }
        if n < rest.len() {
            assert(rest[n] == boundaries[n + 1]);
        }
    }
}

/// The standard codebook of a width has a centroid for every index and a boundary between every
/// two neighbours. Both are symmetric about zero, and every boundary lies between its neighbours,
/// so that the centroids ascend.
pub proof fn law_standard_codebook(bits: u8)
    requires
        2 <= bits <= 4,
    ensures
        ({
            let (c, b) = (standard_centroids(bits), standard_boundaries(bits));
            let n = c.len();
            &&& n == if bits == 2 {
                4nat
            } else if bits == 3 {
                8
            } else {
                16
            }
            &&& b.len() == n - 1
            &&& forall|i: int| 0 <= i < n && i < n / 2 ==> #[trigger] c[i] == c[n - 1 - i] + 0x8000_0000
            &&& forall|i: int| 0 <= i < b.len() && i < n / 2 - 1 ==> #[trigger] b[i] == b[n - 2 - i] + 0x8000_0000
            &&& b[n / 2 - 1] == 0
            &&& forall|i: int|
                0 <= i < b.len() ==> (Scalar { bits: #[trigger] b[i] }).greater(Scalar { bits: c[i] }) && (Scalar {
                    bits: c[i + 1],
                }).greater(Scalar { bits: b[i] })
        }),
{
}

/// Every coordinate of a compressed vector is read as the centroid that its index names.
pub proof fn law_mse_looked_up(c: TqMseCompressor, tv: TqMseVector, y: Seq<Scalar>)
    requires
        c.looked_up(tv, y),
    ensures
        y.len() == tv.dim,
        forall|i: int, v: u8|
            0 <= i < y.len() && (forall|j: int|
                0 <= j < 8 ==> #[trigger] bit(v, j) == (j < tv.bits && stream_bit(tv.data@, i * tv.bits + j)))
                ==> #[trigger] y[i] == #[trigger] c.centers()[v as int],
{
    let indices = choose|indices: Seq<u8>| #[trigger]
        holds_fields(tv.data@, tv.bits as int, indices) && indices.len() == tv.dim && y == Seq::new(
            indices.len(),
            |i: int| c.centers()[indices[i] as int],
        );
    assert forall|i: int, v: u8|
        0 <= i < y.len() && (forall|j: int|
            0 <= j < 8 ==> #[trigger] bit(v, j) == (j < tv.bits && stream_bit(tv.data@, i * tv.bits + j)))
        implies #[trigger] y[i] == #[trigger] c.centers()[v as int] by {
        assert(field_is(tv.data@, i * tv.bits, tv.bits as int, v));
        assert(field_is(tv.data@, i * tv.bits, tv.bits as int, indices[i]));
        lemma_field_unique(tv.data@, i * tv.bits, tv.bits as int, v, indices[i]);
    }
}

} // verus!
