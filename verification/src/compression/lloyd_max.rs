//! Lloyd-Max scalar quantization.
//!
//! After rotation every coordinate follows one distribution, and a quantizer
//! maps each coordinate to the index of its cell. The cells are separated by
//! boundaries, and each cell has a centroid that stands for its coordinates.
//! Indices are packed with the same number of bits each.
use crate::compression::bitstream::{
    bit, field_is, fits, lemma_bytes_from_stream, lemma_field_unique, lemma_fits_iff_below, lemma_masked,
    lemma_or_shifted_left, lemma_zero_bit, pack_bits, packed_len, stream_bit,
};
use crate::compression::centroids::{
    are_boundaries, compute_boundaries, compute_lloyd_max_centroids, is_ascending, is_course,
};
use crate::scalar::Scalar;
use vstd::prelude::*;

verus! {

/// Packed quantization indices, one per dimension.
#[derive(Clone, Debug)]
pub struct ScalarQuantVector {
    /// The packed indices.
    pub data: Vec<u8>,
    /// The number of coordinates.
    pub dim: usize,
    /// The width of an index in bits.
    pub bits: u8,
}

impl ScalarQuantVector {
    /// The number of bytes of the packed indices.
    pub fn byte_size(&self) -> (r: usize)
        ensures
            r == self.data@.len(),
    {
        self.data.len()
    }
}

/// The byte with the lowest `bits` bits set, all of them from a width of eight on.
pub fn bit_mask(bits: u8) -> (r: u8)
    ensures
        forall|j: int| 0 <= j < 8 ==> #[trigger] bit(r, j) == (j < bits),
        bits < 8 ==> r == (1u8 << bits) - 1,
        bits >= 8 ==> r == 255,
{
    if bits >= 8 {
        proof {
            assert forall|j: int| 0 <= j < 8 implies #[trigger] bit(255u8, j) by {
                lemma_full_bit(j);
            }
        }
        0xFF
    } else {
        proof {
            lemma_masked(255u8, bits as int, 0);
            let m = ((1u8 << bits) - 1) as u8;
            assert(255u8 & m == m) by (bit_vector);
            assert forall|j: int| 0 <= j < 8 implies #[trigger] bit(m, j) == (j < bits) by {
                lemma_masked(255u8, bits as int, j);
                lemma_full_bit(j);
            }
        }
        (1u8 << bits) - 1
    }
}

proof fn lemma_full_bit(j: int)
    requires
        0 <= j < 8,
    ensures
        bit(255u8, j),
{
    let q = j as u8;
    assert((255u8 >> q) & 1u8 == 1u8) by (bit_vector)
        requires
            q < 8,
    ;
}

/// The values that fit in `bits` bits are those up to the mask of that width.
pub proof fn law_mask_bounds(value: u8, mask: u8, bits: u8)
    requires
        1 <= bits <= 8,
        bits < 8 ==> mask == (1u8 << bits) - 1,
        bits >= 8 ==> mask == 255,
    ensures
        value <= mask <==> fits(value, bits as int),
{
    if bits < 8 {
        lemma_fits_iff_below(value, bits as int);
    }
}

/// `data` is the packing of `indices`: field after field of `bits` bits, then clear bits up
/// to the end of the last byte.
pub open spec fn is_packing(data: Seq<u8>, indices: Seq<u8>, bits: int) -> bool {
    &&& data.len() == packed_len(indices.len() as int, bits)
    &&& forall|i: int| 0 <= i < indices.len() ==> field_is(data, i * bits, bits, #[trigger] indices[i])
    &&& forall|k: int| indices.len() * bits <= k ==> !#[trigger] stream_bit(data, k)
}

/// Field `i` of `n` lies within the packed bytes.
pub proof fn lemma_within(i: int, n: int, bits: int)
    requires
        0 <= i < n,
        1 <= bits <= 8,
    ensures
        0 <= i * bits,
        i * bits + bits == (i + 1) * bits,
        (i + 1) * bits <= n * bits,
        n * bits <= 8 * packed_len(n, bits),
        i * bits + bits <= 8 * packed_len(n, bits),
        (i * bits) / 8 < packed_len(n, bits),
{
    assert(0 <= i * bits && i * bits + bits == (i + 1) * bits && (i + 1) * bits <= n * bits) by (nonlinear_arith)
        requires
            0 <= i < n,
            1 <= bits <= 8,
    ;
}

/// Packs indices of `bits` bits each.
pub fn pack_indices(indices: &[u8], bits: u8) -> (r: Vec<u8>)
    requires
        1 <= bits <= 8,
        forall|i: int| 0 <= i < indices@.len() ==> fits(#[trigger] indices@[i], bits as int),
        indices@.len() * bits <= usize::MAX - 7,
    ensures
        is_packing(r@, indices@, bits as int),
{
    let n: usize = indices.len();
    if bits == 8 {
        let mut copy: Vec<u8> = Vec::with_capacity(n);
        let mut i: usize = 0;
        while i < n
            invariant
                n == indices@.len(),
                i <= n,
                copy@ =~= indices@.take(i as int),
            decreases n - i,
        {
            copy.push(indices[i]);
            i = i + 1;
        }
        proof {
            assert(copy@ =~= indices@);
            assert forall|i: int| 0 <= i < indices@.len() implies field_is(copy@, i * 8, 8, #[trigger] indices@[i]) by {
                assert forall|j: int| 0 <= j < 8 implies #[trigger] bit(indices@[i], j) == (j < 8 && stream_bit(
                    copy@,
                    i * 8 + j,
                )) by {
                    let k = i * 8 + j;
                    assert(k / 8 == i && k % 8 == j);
                }
            }
        }
        return copy;
    }
    let total_bits: usize = n * bits as usize;
    let num_bytes: usize = (total_bits + 7) / 8;
    let mut packed: Vec<u8> = vec![0u8; num_bytes];
    let mut bit_offset: usize = 0;
    let mut i: usize = 0;
    proof {
        assert forall|k: int| !#[trigger] stream_bit(packed@, k) by {
            if 0 <= k < 8 * packed@.len() {
                lemma_zero_bit(k % 8);
            }
        }
    }
    while i < n
        invariant
            1 <= bits < 8,
            n == indices@.len(),
            i <= n,
            n * bits <= usize::MAX - 7,
            bit_offset == i * bits,
            packed@.len() == packed_len(n as int, bits as int),
            forall|x: int| 0 <= x < indices@.len() ==> fits(#[trigger] indices@[x], bits as int),
            forall|x: int| 0 <= x < i ==> field_is(packed@, x * bits, bits as int, #[trigger] indices@[x]),
            forall|k: int| i * bits <= k ==> !#[trigger] stream_bit(packed@, k),
        decreases n - i,
    {
        proof {
            lemma_within(i as int, n as int, bits as int);
        }
        let ghost before = packed@;
        pack_bits(&mut packed, bit_offset, indices[i], bits);
        proof {
            assert forall|x: int| 0 <= x < i + 1 implies field_is(
                packed@,
                x * bits,
                bits as int,
                #[trigger] indices@[x],
            ) by {
                lemma_within(x, i + 1, bits as int);
                assert forall|j: int| 0 <= j < 8 implies #[trigger] bit(indices@[x], j) == (j < bits && stream_bit(
                    packed@,
                    x * bits + j,
                )) by {
                    let k = x * bits + j;
                    if x < i {
                        lemma_within(x, i as int, bits as int);
                        assert(field_is(before, x * bits, bits as int, indices@[x]));
                        assert(bit(indices@[x], j) == (j < bits && stream_bit(before, k)));
                        assert(j < bits ==> k < bit_offset);
                    } else {
                        assert(k - bit_offset == j);
                        assert(!stream_bit(before, k));
                        if j >= bits {
                            assert(fits(indices@[x], bits as int));
                        }
                    }
                }
            }
            assert forall|k: int| (i + 1) * bits <= k implies !#[trigger] stream_bit(packed@, k) by {
                assert(!stream_bit(before, k));
            }
        }
        bit_offset = bit_offset + bits as usize;
        i = i + 1;
    }
    packed
}

/// Reads `count` indices of `bits` bits each. Bits beyond the last byte read as clear.
pub fn unpack_indices(packed: &[u8], count: usize, bits: u8) -> (r: Vec<u8>)
    requires
        1 <= bits <= 8,
        count > 0 ==> ((count - 1) * bits) / 8 < packed@.len(),
        count * bits <= usize::MAX,
    ensures
        r@.len() == count,
        forall|i: int| 0 <= i < count ==> field_is(packed@, i * bits, bits as int, #[trigger] r@[i]),
{
    let mut indices: Vec<u8> = Vec::with_capacity(count);
    if bits == 8 {
        let mut i: usize = 0;
        while i < count
            invariant
                i <= count <= packed@.len(),
                indices@ =~= packed@.take(i as int),
            decreases count - i,
        {
            indices.push(packed[i]);
            i = i + 1;
        }
        proof {
            assert forall|i: int| 0 <= i < count implies field_is(packed@, i * 8, 8, #[trigger] indices@[i]) by {
                assert forall|j: int| 0 <= j < 8 implies #[trigger] bit(indices@[i], j) == (j < 8 && stream_bit(
                    packed@,
                    i * 8 + j,
                )) by {
                    let k = i * 8 + j;
                    assert(k / 8 == i && k % 8 == j);
                }
            }
        }
        return indices;
    }
    let mask: u8 = bit_mask(bits);
    let mut bit_offset: usize = 0;
    let mut i: usize = 0;
    while i < count
        invariant
            1 <= bits < 8,
            i <= count,
            count > 0 ==> ((count - 1) * bits) / 8 < packed@.len(),
            count * bits <= usize::MAX,
            bit_offset == i * bits,
            mask == (1u8 << bits) - 1,
            indices@.len() == i,
            forall|x: int| 0 <= x < i ==> field_is(packed@, x * bits, bits as int, #[trigger] indices@[x]),
        decreases count - i,
    {
        let byte_pos: usize = bit_offset / 8;
        let bit_pos: usize = bit_offset % 8;
        proof {
            lemma_within(i as int, count as int, bits as int);
            assert(i * bits <= (count - 1) * bits) by (nonlinear_arith)
                requires
                    0 <= i <= count - 1,
                    1 <= bits,
            ;
        }
        let first: u8 = packed[byte_pos] >> (bit_pos as u8);
        let val: u8 = if bit_pos + bits as usize > 8 && byte_pos + 1 < packed.len() {
            first | (packed[byte_pos + 1] << ((8 - bit_pos) as u8))
        } else {
            first
        };
        indices.push(val & mask);
        proof {
            lemma_read_field(packed@, bit_offset as int, bits as int, first, val);
        }
        bit_offset = bit_offset + bits as usize;
        i = i + 1;
    }
    indices
}

proof fn lemma_read_field(packed: Seq<u8>, offset: int, bits: int, first: u8, val: u8)
    requires
        0 <= offset,
        1 <= bits < 8,
        offset / 8 < packed.len(),
        first == packed[offset / 8] >> ((offset % 8) as u8),
        val == if offset % 8 + bits > 8 && offset / 8 + 1 < packed.len() {
            first | (packed[offset / 8 + 1] << ((8 - offset % 8) as u8))
        } else {
            first
        },
    ensures
        field_is(packed, offset, bits, val & ((1u8 << (bits as u8)) - 1) as u8),
{
    let byte_pos = offset / 8;
    let bit_pos = offset % 8;
    let mask = ((1u8 << (bits as u8)) - 1) as u8;
    assert forall|j: int| 0 <= j < 8 implies #[trigger] bit(val & mask, j) == (j < bits && stream_bit(
        packed,
        offset + j,
    )) by {
        lemma_masked(val, bits, j);
        if j < bits {
            let k = offset + j;
            crate::compression::bitstream::lemma_or_shifted_right(0u8, packed[byte_pos], bit_pos, j);
            lemma_zero_bit(j);
            let shifted = packed[byte_pos] >> (bit_pos as u8);
            assert(0u8 | shifted == shifted) by (bit_vector);
            if bit_pos + bits > 8 && byte_pos + 1 < packed.len() {
                lemma_or_shifted_left(first, packed[byte_pos + 1], 8 - bit_pos, j);
            }
            if bit_pos + j < 8 {
                assert(k / 8 == byte_pos && k % 8 == bit_pos + j);
            } else {
                assert(k / 8 == byte_pos + 1 && k % 8 == bit_pos + j - 8);
            }
        }
    }
}

/// Unpacking gives back what was packed: the fields of a packing are the packed indices.
pub proof fn law_unpack_after_pack(data: Seq<u8>, indices: Seq<u8>, read: Seq<u8>, bits: int)
    requires
        is_packing(data, indices, bits),
        read.len() == indices.len(),
        forall|i: int| 0 <= i < read.len() ==> field_is(data, i * bits, bits, #[trigger] read[i]),
    ensures
        read == indices,
{
    assert forall|i: int| 0 <= i < read.len() implies read[i] == indices[i] by {
        assert(field_is(data, i * bits, bits, indices[i]));
        lemma_field_unique(data, i * bits, bits, read[i], indices[i]);
    }
    assert(read =~= indices);
}

/// A list of indices has one packing.
pub proof fn law_packing_unique(a: Seq<u8>, b: Seq<u8>, indices: Seq<u8>, bits: int)
    requires
        1 <= bits <= 8,
        is_packing(a, indices, bits),
        is_packing(b, indices, bits),
    ensures
        a == b,
{
    assert forall|k: int| 0 <= k < 8 * a.len() implies #[trigger] stream_bit(a, k) == stream_bit(b, k) by {
        if k < indices.len() * bits {
            let i = k / bits;
            let j = k % bits;
            assert(k == i * bits + j && 0 <= j < bits && 0 <= i) by (nonlinear_arith)
                requires
                    0 <= k,
                    1 <= bits,
                    i == k / bits,
                    j == k % bits,
            ;
            assert(i < indices.len()) by (nonlinear_arith)
                requires
                    i * bits <= k < indices.len() * bits,
                    1 <= bits,
            ;
            assert(field_is(a, i * bits, bits, indices[i]));
            assert(field_is(b, i * bits, bits, indices[i]));
            assert(bit(indices[i], j) == stream_bit(a, k));
            assert(bit(indices[i], j) == stream_bit(b, k));
        }
    }
    lemma_bytes_from_stream(a, b);
}

/// Unpacking loses nothing: where fields fill the bytes, each is one of `bits` bits, and
/// packing them gives the bytes back.
pub proof fn law_pack_after_unpack(packed: Seq<u8>, read: Seq<u8>, again: Seq<u8>, bits: int)
    requires
        1 <= bits <= 8,
        read.len() * bits == 8 * packed.len(),
        forall|i: int| 0 <= i < read.len() ==> field_is(packed, i * bits, bits, #[trigger] read[i]),
        is_packing(again, read, bits),
    ensures
        again == packed,
        forall|i: int| 0 <= i < read.len() ==> fits(#[trigger] read[i], bits),
{
    assert(is_packing(packed, read, bits));
    law_packing_unique(packed, again, read, bits);
    assert forall|i: int| 0 <= i < read.len() implies fits(#[trigger] read[i], bits) by {
        assert(field_is(packed, i * bits, bits, read[i]));
    }
}

/// `indices` are the values of the first fields of the stream.
pub open spec fn holds_fields(data: Seq<u8>, bits: int, indices: Seq<u8>) -> bool {
    forall|i: int| 0 <= i < indices.len() ==> field_is(data, i * bits, bits, #[trigger] indices[i])
}

/// The cell that a value falls in: the number of leading boundaries that it exceeds.
pub open spec fn cell_of(boundaries: Seq<Scalar>, value: Scalar) -> int
    decreases boundaries.len(),
{
    if boundaries.len() > 0 && value.greater(boundaries[0]) {
        1 + cell_of(boundaries.drop_first(), value)
    } else {
        0
    }
}

/// The cells that the coordinates fall in.
pub open spec fn cells(boundaries: Seq<Scalar>, rotated: Seq<Scalar>) -> Seq<u8> {
    rotated.map_values(|v: Scalar| cell_of(boundaries, v) as u8)
}

/// A cell lies at or below the number of boundaries.
pub proof fn lemma_cell_bound(boundaries: Seq<Scalar>, value: Scalar)
    ensures
        0 <= cell_of(boundaries, value) <= boundaries.len(),
    decreases boundaries.len(),
{
    if boundaries.len() > 0 && value.greater(boundaries[0]) {
        lemma_cell_bound(boundaries.drop_first(), value);
    }
}

proof fn lemma_cell_passes(boundaries: Seq<Scalar>, value: Scalar, n: int)
    requires
        0 <= n <= boundaries.len(),
        forall|k: int| 0 <= k < n ==> value.greater(#[trigger] boundaries[k]),
    ensures
        cell_of(boundaries, value) == n + cell_of(boundaries.skip(n), value),
    decreases n,
{
    if n == 0 {
        assert(boundaries.skip(0) =~= boundaries);
    } else {
        let rest = boundaries.drop_first();
        assert forall|k: int| 0 <= k < n - 1 implies value.greater(#[trigger] rest[k]) by {
            assert(rest[k] == boundaries[k + 1]);
        }
        lemma_cell_passes(rest, value, n - 1);
        assert(rest.skip(n - 1) =~= boundaries.skip(n));
        assert(value.greater(boundaries[0]));
    }
}

fn find_cell(boundaries: &Vec<Scalar>, value: Scalar) -> (r: usize)
    ensures
        r == cell_of(boundaries@, value),
{
    let mut idx: usize = 0;
    while idx < boundaries.len() && value.is_greater(boundaries[idx])
        invariant
            idx <= boundaries@.len(),
            forall|k: int| 0 <= k < idx ==> value.greater(#[trigger] boundaries@[k]),
        decreases boundaries@.len() - idx,
    {
        idx = idx + 1;
    }
    proof {
        lemma_cell_passes(boundaries@, value, idx as int);
        let rest = boundaries@.skip(idx as int);
        if rest.len() > 0 {
            assert(rest[0] == boundaries@[idx as int]);
        }
    }
    idx
}

/// Lloyd-Max scalar quantization of rotated vectors of one dimension.
pub struct LloydMaxQuantizer {
    centroids: Vec<Scalar>,
    boundaries: Vec<Scalar>,
    bits: u8,
    dim: usize,
}

impl LloydMaxQuantizer {
    /// The centroid of each cell, in ascending order.
    pub closed spec fn centers(&self) -> Seq<Scalar> {
        self.centroids@
    }

    /// What separates each cell from the next.
    pub closed spec fn limits(&self) -> Seq<Scalar> {
        self.boundaries@
    }

    /// The number of bits of an index.
    pub closed spec fn width(&self) -> u8 {
        self.bits
    }

    /// The dimension of the vectors.
    pub closed spec fn dimension(&self) -> usize {
        self.dim
    }

    /// There is a centroid for every index of the width, and a boundary between every two
    /// neighbours. The size of a packed vector is a number.
    pub open spec fn wf(&self) -> bool {
        &&& 1 <= self.width() <= 8
        &&& self.centers().len() == 1usize << self.width()
        &&& self.limits().len() + 1 == self.centers().len()
        &&& self.dimension() * self.width() <= usize::MAX - 7
    }

    /// A quantizer with the centroids that the Lloyd-Max iteration ends with, and the
    /// boundaries between them.
    ///
    /// `lowest` and `highest` bound the outermost cells. The other arguments are those of
    /// `compute_lloyd_max_centroids`.
    pub fn new<
        I: Fn(usize, usize) -> Scalar,
        M: Fn(Scalar, Scalar) -> Scalar,
        C: Fn(Scalar, Scalar) -> Option<Scalar>,
        D: Fn(Scalar, Scalar, Scalar) -> Scalar,
    >(
        dim: usize,
        bits: u8,
        lowest: Scalar,
        highest: Scalar,
        initial: I,
        midpoint: M,
        mean: C,
        widen: D,
    ) -> (r: LloydMaxQuantizer)
        requires
            1 <= bits <= 8,
            dim * bits <= usize::MAX - 7,
            forall|i: usize, n: usize| #[trigger] initial.requires((i, n)),
            forall|a: Scalar, b: Scalar| #[trigger] midpoint.requires((a, b)),
            forall|a: Scalar, b: Scalar| #[trigger] mean.requires((a, b)),
            forall|a: Scalar, b: Scalar, c: Scalar| #[trigger] widen.requires((a, b, c)),
            forall|i: usize, n: usize, c: Scalar| #[trigger] initial.ensures((i, n), c) ==> !c.nan(),
            forall|a: Scalar, b: Scalar, c: Scalar| #[trigger] mean.ensures((a, b), Some(c)) ==> !c.nan(),
        ensures
            r.wf(),
            r.dimension() == dim,
            r.width() == bits,
            exists|rounds: Seq<Seq<Scalar>>, movements: Seq<Scalar>| #[trigger]
                is_course(1usize << bits, lowest, highest, initial, midpoint, mean, widen, rounds, movements)
                    && is_ascending(rounds.last(), r.centers()),
            are_boundaries(r.centers(), midpoint, r.limits()),
    {
        proof {
            lemma_level_count(bits);
        }
        let centroids: Vec<Scalar> = compute_lloyd_max_centroids(
            bits,
            lowest,
            highest,
            &initial,
            &midpoint,
            &mean,
            &widen,
        );
        let boundaries: Vec<Scalar> = compute_boundaries(&centroids, &midpoint);
        LloydMaxQuantizer { centroids, boundaries, bits, dim }
    }

    /// The dimension of the vectors.
    pub fn dim(&self) -> (r: usize)
        ensures
            r == self.dimension(),
    {
        self.dim
    }

    /// The number of bits of an index.
    pub fn bits(&self) -> (r: u8)
        ensures
            r == self.width(),
    {
        self.bits
    }

    /// The centroid of each cell.
    pub fn centroids(&self) -> (r: &[Scalar])
        ensures
            r@ == self.centers(),
    {
        self.centroids.as_slice()
    }

    /// The number of bytes of a compressed vector.
    pub fn bytes_per_vector(&self) -> (r: usize)
        requires
            self.dimension() * self.width() <= usize::MAX - 7,
        ensures
            r == packed_len(self.dimension() as int, self.width() as int),
    {
        let total_bits: usize = self.dim * self.bits as usize;
        (total_bits + 7) / 8
    }

    /// Compresses a rotated vector: the cell of each coordinate, packed.
    pub fn compress(&self, rotated: &[Scalar]) -> (r: ScalarQuantVector)
        requires
            self.wf(),
            rotated@.len() == self.dimension(),
        ensures
            r.dim == self.dimension(),
            r.bits == self.width(),
            is_packing(r.data@, cells(self.limits(), rotated@), self.width() as int),
    {
        let n_levels: usize = self.centroids.len();
        let mut indices: Vec<u8> = Vec::with_capacity(self.dim);
        let mut i: usize = 0;
        let ghost w = self.bits;
        proof {
            lemma_level_count(w);
        }
        while i < rotated.len()
            invariant
                i <= rotated@.len(),
                self.wf(),
                w == self.bits,
                n_levels == self.centroids@.len(),
                n_levels <= 256,
                forall|v: u8| v < n_levels ==> #[trigger] fits(v, w as int),
                indices@ =~= cells(self.boundaries@, rotated@.take(i as int)),
                forall|k: int| 0 <= k < i ==> fits(#[trigger] indices@[k], w as int),
            decreases rotated@.len() - i,
        {
            let idx: usize = find_cell(&self.boundaries, rotated[i]);
            proof {
                lemma_cell_bound(self.boundaries@, rotated@[i as int]);
                assert(fits(idx as u8, w as int));
                assert(rotated@.take(i + 1) =~= rotated@.take(i as int).push(rotated@[i as int]));
            }
            let clamped: usize = if idx < n_levels - 1 {
                idx
            } else {
                n_levels - 1
            };
            indices.push(clamped as u8);
            i = i + 1;
        }
        assert(rotated@.take(i as int) =~= rotated@);
        let data: Vec<u8> = pack_indices(indices.as_slice(), self.bits);
        ScalarQuantVector { data, dim: self.dim, bits: self.bits }
    }

    /// The vector's indices can be read, and each names a centroid.
    pub open spec fn readable(&self, sqv: ScalarQuantVector) -> bool {
        &&& sqv.dim == self.dimension()
        &&& 1 <= sqv.bits <= 8
        &&& sqv.dim > 0 ==> ((sqv.dim - 1) * sqv.bits) / 8 < sqv.data@.len()
        &&& sqv.dim * sqv.bits <= usize::MAX
        &&& forall|i: int, v: u8|
            0 <= i < sqv.dim && #[trigger] field_is(sqv.data@, i * sqv.bits, sqv.bits as int, v) ==> v
                < self.centers().len()
    }

    /// `r` holds the centroid that each index of the vector names.
    pub open spec fn looked_up(&self, sqv: ScalarQuantVector, r: Seq<Scalar>) -> bool {
        exists|indices: Seq<u8>| #[trigger]
            holds_fields(sqv.data@, sqv.bits as int, indices) && indices.len() == sqv.dim && r == Seq::new(
                indices.len(),
                |i: int| self.centers()[indices[i] as int],
            )
    }

    /// Whether the vector's indices can be read, and each names a centroid.
    pub fn can_decompress(&self, sqv: &ScalarQuantVector) -> (r: bool)
        ensures
            r == self.readable(*sqv),
    {
        proof {
            let (d, b) = (sqv.dim as int, sqv.bits as int);
            assert(0 <= d * b <= 0xffff_ffff_ffff_ffff * 255) by (nonlinear_arith)
                requires
                    0 <= d <= 0xffff_ffff_ffff_ffff,
                    0 <= b <= 255,
            ;
            assert((d - 1) * b == d * b - b) by (nonlinear_arith);
        }
        let total: u128 = sqv.dim as u128 * sqv.bits as u128;
        let most: u128 = usize::MAX as u128;
        if sqv.dim != self.dim || sqv.bits < 1 || sqv.bits > 8 || total > most {
            return false;
        }
        if sqv.dim > 0 && (total as usize - sqv.bits as usize) / 8 >= sqv.data.len() {
            return false;
        }
        let indices: Vec<u8> = unpack_indices(sqv.data.as_slice(), self.dim, sqv.bits);
        let mut i: usize = 0;
        while i < indices.len()
            invariant
                i <= indices@.len(),
                holds_fields(sqv.data@, sqv.bits as int, indices@),
                indices@.len() == sqv.dim,
                forall|k: int| 0 <= k < i ==> #[trigger] indices@[k] < self.centers().len(),
            decreases indices@.len() - i,
        {
            assert(field_is(sqv.data@, i * sqv.bits, sqv.bits as int, indices@[i as int]));
            if indices[i] as usize >= self.centroids.len() {
                return false;
            }
            i = i + 1;
        }
        proof {
            assert forall|k: int, v: u8|
                0 <= k < sqv.dim && #[trigger] field_is(sqv.data@, k * sqv.bits, sqv.bits as int, v) implies v
                < self.centers().len() by {
                assert(indices@[k] < self.centers().len());
                lemma_field_unique(sqv.data@, k * sqv.bits, sqv.bits as int, v, indices@[k]);
            }
        }
        true
    }

    /// Decompresses to rotated coordinates: the centroid of each index.
    pub fn decompress(&self, sqv: &ScalarQuantVector) -> (r: Vec<Scalar>)
        requires
            self.readable(*sqv),
        ensures
            self.looked_up(*sqv, r@),
    {
        let indices: Vec<u8> = unpack_indices(sqv.data.as_slice(), self.dim, sqv.bits);
        let mut r: Vec<Scalar> = Vec::with_capacity(self.dim);
        let mut i: usize = 0;
        while i < indices.len()
            invariant
                self.readable(*sqv),
                indices@.len() == self.dim,
                i <= indices@.len(),
                holds_fields(sqv.data@, sqv.bits as int, indices@),
                r@ =~= Seq::new(i as nat, |k: int| self.centroids@[indices@[k] as int]),
            decreases indices@.len() - i,
        {
            assert(field_is(sqv.data@, i * sqv.bits, sqv.bits as int, indices@[i as int]));
            r.push(self.centroids[indices[i] as usize]);
            i = i + 1;
        }
        proof {
            assert(holds_fields(sqv.data@, sqv.bits as int, indices@));
        }
        r
    }

    /// The dot product of a rotated query with a compressed vector: that of the query with
    /// the decompressed coordinates.
    pub fn similarity_raw<F: Fn(&[Scalar], &[Scalar]) -> Scalar>(
        &self,
        rotated_query: &[Scalar],
        compressed: &ScalarQuantVector,
        dot: &F,
    ) -> (r: Scalar)
        requires
            self.readable(*compressed),
            forall|y: &[Scalar]| #[trigger] dot.requires((rotated_query, y)),
        ensures
            exists|y: &[Scalar]| self.looked_up(*compressed, y@) && #[trigger] dot.ensures((rotated_query, y), r),
    {
        let reconstructed: Vec<Scalar> = self.decompress(compressed);
        dot(rotated_query, reconstructed.as_slice())
    }
}

proof fn lemma_level_count(bits: u8)
    requires
        1 <= bits <= 8,
    ensures
        2 <= 1usize << bits <= 256,
        forall|v: u8| v < 1usize << bits ==> #[trigger] fits(v, bits as int),
{
    assert(2 <= 1usize << bits <= 256) by (bit_vector)
        requires
            1 <= bits <= 8,
    ;
    assert forall|v: u8| v < 1usize << bits implies #[trigger] fits(v, bits as int) by {
        if bits < 8 {
            assert(1u8 << bits == 1usize << bits) by (bit_vector)
                requires
                    bits < 8,
            ;
            lemma_fits_iff_below(v, bits as int);
        }
    }
}

/// A compressed vector can be decompressed, and every coordinate comes back as the centroid
/// of its cell.
pub proof fn law_decompress_after_compress(q: LloydMaxQuantizer, rotated: Seq<Scalar>, sqv: ScalarQuantVector)
    requires
        q.wf(),
        rotated.len() == q.dimension(),
        sqv.dim == q.dimension(),
        sqv.bits == q.width(),
        is_packing(sqv.data@, cells(q.limits(), rotated), q.width() as int),
    ensures
        q.readable(sqv),
        forall|r: Seq<Scalar>| #[trigger]
            q.looked_up(sqv, r) ==> r == rotated.map_values(|v: Scalar| q.centers()[cell_of(q.limits(), v)]),
{
    let bits = q.width() as int;
    let packed = cells(q.limits(), rotated);
    lemma_level_count(q.width());
    assert forall|i: int| 0 <= i < rotated.len() implies (#[trigger] packed[i]) as int == cell_of(
        q.limits(),
        rotated[i],
    ) by {
        lemma_cell_bound(q.limits(), rotated[i]);
    }
    assert forall|i: int, v: u8| 0 <= i < sqv.dim && #[trigger] field_is(sqv.data@, i * sqv.bits, bits, v) implies v
        < q.centers().len() by {
        assert(field_is(sqv.data@, i * bits, bits, packed[i]));
        lemma_field_unique(sqv.data@, i * bits, bits, v, packed[i]);
        lemma_cell_bound(q.limits(), rotated[i]);
    }
    if sqv.dim > 0 {
        lemma_within(sqv.dim - 1, sqv.dim as int, bits);
    }
    assert forall|r: Seq<Scalar>| #[trigger] q.looked_up(sqv, r) implies r == rotated.map_values(
        |v: Scalar| q.centers()[cell_of(q.limits(), v)],
    ) by {
        let indices = choose|indices: Seq<u8>| #[trigger]
            holds_fields(sqv.data@, bits, indices) && indices.len() == sqv.dim && r == Seq::new(
                indices.len(),
                |i: int| q.centers()[indices[i] as int],
            );
        law_unpack_after_pack(sqv.data@, packed, indices, bits);
        assert forall|i: int| 0 <= i < r.len() implies #[trigger] r[i] == q.centers()[cell_of(
            q.limits(),
            rotated[i],
        )] by {
            assert(packed[i] as int == cell_of(q.limits(), rotated[i]));
        }
        assert(r =~= rotated.map_values(|v: Scalar| q.centers()[cell_of(q.limits(), v)]));
    }
}

/// The value exceeds the boundaries below its cell and not the one above.
proof fn lemma_cell_limits(boundaries: Seq<Scalar>, value: Scalar)
    ensures
        0 <= cell_of(boundaries, value) <= boundaries.len(),
        forall|k: int| 0 <= k < cell_of(boundaries, value) ==> value.greater(#[trigger] boundaries[k]),
        cell_of(boundaries, value) < boundaries.len() ==> !value.greater(boundaries[cell_of(boundaries, value)]),
    decreases boundaries.len(),
{
    if boundaries.len() > 0 && value.greater(boundaries[0]) {
        let rest = boundaries.drop_first();
        lemma_cell_limits(rest, value);
        assert forall|k: int| 0 <= k < cell_of(boundaries, value) implies value.greater(#[trigger] boundaries[k]) by {
            if k > 0 {
                assert(boundaries[k] == rest[k - 1]);
            }
        }
    }
}

/// How far two numbers lie apart.
pub open spec fn apart(a: int, b: int) -> int {
    if a < b {
        b - a
    } else {
        a - b
    }
}

/// Compression takes the nearest centroid: in a measure that orders the coordinates and the
/// boundaries as numbers do, in which the centroids ascend and each boundary lies midway between
/// its neighbours, no centroid is nearer to a coordinate than the one it is decompressed to.
pub proof fn law_nearest_centroid(
    q: LloydMaxQuantizer,
    rotated: Seq<Scalar>,
    sqv: ScalarQuantVector,
    decompressed: Seq<Scalar>,
    measure: spec_fn(Scalar) -> int,
)
    requires
        q.wf(),
        rotated.len() == q.dimension(),
        sqv.dim == q.dimension(),
        sqv.bits == q.width(),
        is_packing(sqv.data@, cells(q.limits(), rotated), q.width() as int),
        q.looked_up(sqv, decompressed),
        forall|i: int, k: int|
            #![trigger rotated[i], q.limits()[k]]
            0 <= i < rotated.len() && 0 <= k < q.limits().len() ==> rotated[i].greater(q.limits()[k]) == (measure(
                rotated[i],
            ) > measure(q.limits()[k])),
        forall|k: int|
            0 <= k < q.limits().len() ==> 2 * measure(#[trigger] q.limits()[k]) == measure(q.centers()[k]) + measure(
                q.centers()[k + 1],
            ),
        forall|j: int, k: int|
            0 <= j < k < q.centers().len() ==> measure(#[trigger] q.centers()[j]) <= measure(#[trigger] q.centers()[k]),
    ensures
        decompressed.len() == rotated.len(),
        forall|i: int, j: int|
            #![trigger decompressed[i], q.centers()[j]]
            0 <= i < rotated.len() && 0 <= j < q.centers().len() ==> apart(measure(rotated[i]), measure(decompressed[i]))
                <= apart(measure(rotated[i]), measure(q.centers()[j])),
{
    law_decompress_after_compress(q, rotated, sqv);
    assert forall|i: int, j: int|
        #![trigger decompressed[i], q.centers()[j]]
        0 <= i < rotated.len() && 0 <= j < q.centers().len() implies apart(measure(rotated[i]), measure(decompressed[i]))
        <= apart(measure(rotated[i]), measure(q.centers()[j])) by {
        let cell = cell_of(q.limits(), rotated[i]);
        lemma_cell_limits(q.limits(), rotated[i]);
        assert(decompressed[i] == q.centers()[cell]);
        if j < cell {
            let limit = q.limits()[cell - 1];
            assert(rotated[i].greater(limit));
            assert(measure(q.centers()[j]) <= measure(q.centers()[cell - 1]));
        } else if cell < j {
            let limit = q.limits()[cell];
            assert(!rotated[i].greater(limit));
            assert(measure(q.centers()[cell + 1]) <= measure(q.centers()[j]));
        }
    }
}

/// The cell of a value: the value exceeds every boundary below the cell and not the one above it.
pub proof fn law_cell(boundaries: Seq<Scalar>, value: Scalar)
    ensures
        0 <= cell_of(boundaries, value) <= boundaries.len(),
        forall|k: int| 0 <= k < cell_of(boundaries, value) ==> value.greater(#[trigger] boundaries[k]),
        cell_of(boundaries, value) < boundaries.len() ==> !value.greater(boundaries[cell_of(boundaries, value)]),
    decreases boundaries.len(),
{
    if boundaries.len() > 0 && value.greater(boundaries[0]) {
        let rest = boundaries.drop_first();
        law_cell(rest, value);
        let n = cell_of(rest, value);
        assert forall|k: int| 0 <= k < cell_of(boundaries, value) implies value.greater(#[trigger] boundaries[k]) by {
            if k > 0 {
                assert(rest[k - 1] == boundaries[k]);
            }
        }
        if n < rest.len() {
            assert(rest[n] == boundaries[n + 1]);
        }
    }
}

/// Every bit of an index stands in its place in the packed bytes, and the bits behind the last
/// index are clear. There are as many bytes as that takes.
pub proof fn law_packing_bits(data: Seq<u8>, indices: Seq<u8>, bits: int)
    requires
        1 <= bits <= 8,
        is_packing(data, indices, bits),
    ensures
        indices.len() * bits <= 8 * data.len() < indices.len() * bits + 8,
        forall|i: int, j: int|
            0 <= i < indices.len() && 0 <= j < bits ==> stream_bit(data, i * bits + j) == #[trigger] bit(indices[i], j),
        forall|k: int| indices.len() * bits <= k ==> !#[trigger] stream_bit(data, k),
{
    assert forall|i: int, j: int| 0 <= i < indices.len() && 0 <= j < bits implies stream_bit(data, i * bits + j)
        == #[trigger] bit(indices[i], j) by {
        assert(field_is(data, i * bits, bits, indices[i]));
    }
}

/// Every coordinate of a compressed vector is read as the centroid that its index names.
pub proof fn law_looked_up(q: LloydMaxQuantizer, sqv: ScalarQuantVector, r: Seq<Scalar>)
    requires
        q.looked_up(sqv, r),
    ensures
        r.len() == sqv.dim,
        forall|i: int, v: u8|
            0 <= i < r.len() && (forall|j: int|
                0 <= j < 8 ==> #[trigger] bit(v, j) == (j < sqv.bits && stream_bit(sqv.data@, i * sqv.bits + j)))
                ==> #[trigger] r[i] == #[trigger] q.centers()[v as int],
{
    let indices = choose|indices: Seq<u8>| #[trigger]
        holds_fields(sqv.data@, sqv.bits as int, indices) && indices.len() == sqv.dim && r == Seq::new(
            indices.len(),
            |i: int| q.centers()[indices[i] as int],
        );
    assert forall|i: int, v: u8|
        0 <= i < r.len() && (forall|j: int|
            0 <= j < 8 ==> #[trigger] bit(v, j) == (j < sqv.bits && stream_bit(sqv.data@, i * sqv.bits + j)))
        implies #[trigger] r[i] == #[trigger] q.centers()[v as int] by {
        assert(field_is(sqv.data@, i * sqv.bits, sqv.bits as int, v));
        assert(field_is(sqv.data@, i * sqv.bits, sqv.bits as int, indices[i]));
        lemma_field_unique(sqv.data@, i * sqv.bits, sqv.bits as int, v, indices[i]);
    }
}

} // verus!
