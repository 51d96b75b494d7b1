//! Polar quantization of rotated vectors.
//!
//! Pairs of coordinates are turned into an angle and a radius, and each is
//! quantized on its own. Angles of four bits are packed two to a byte.
use crate::compression::bitstream::{
    bit, field_is, lemma_fits_iff_below, lemma_or_shifted_left, lemma_zero_bit, stream_bit,
};
use crate::compression::lloyd_max::{is_packing, law_packing_unique};
use crate::scalar::Scalar;
use vstd::prelude::*;

verus! {

/// The quantized polar form of a rotated vector.
#[derive(Clone, Debug)]
pub struct PolarVector {
    /// The angle levels: two to a byte where an angle has four bits, else one.
    pub angles: Vec<u8>,
    /// The radius levels, one for each pair of coordinates.
    pub radii: Vec<u8>,
    /// The number of coordinates.
    pub dim: usize,
    /// The number of bits of an angle level.
    pub angle_bits: u8,
}

/// The number of pairs that `dim` coordinates form, the last one padded where `dim` is odd.
pub open spec fn pairs(dim: int) -> int {
    (dim + 1) / 2
}

impl PolarVector {
    /// The number of pairs of coordinates.
    pub fn num_pairs(&self) -> (r: usize)
        requires
            self.dim < usize::MAX,
        ensures
            r == pairs(self.dim as int),
    {
        (self.dim + 1) / 2
    }

    /// The number of bytes of angles and radii.
    pub fn byte_size(&self) -> (r: usize)
        requires
            self.angles@.len() + self.radii@.len() <= usize::MAX,
        ensures
            r == self.angles@.len() + self.radii@.len(),
    {
        self.angles.len() + self.radii.len()
    }

    /// The angle levels, one for each pair.
    pub open spec fn angle_levels(&self) -> Seq<u8> {
        if self.angle_bits == 4 {
            low_and_high(self.angles@, pairs(self.dim as int))
        } else {
            self.angles@
        }
    }

    /// There is an angle level and a radius level for each pair.
    pub open spec fn complete(&self) -> bool {
        &&& self.dim < usize::MAX
        &&& self.radii@.len() >= pairs(self.dim as int)
        &&& if self.angle_bits == 4 {
            2 * self.angles@.len() >= pairs(self.dim as int)
        } else {
            self.angles@.len() >= pairs(self.dim as int)
        }
    }
}

/// The value at `i`, or zero beyond the end.
pub open spec fn value_or_zero(values: Seq<u8>, i: int) -> u8 {
    if 0 <= i < values.len() {
        values[i]
    } else {
        0
    }
}

/// Values reduced to four bits and put two to a byte, the earlier one in the lower half.
pub open spec fn in_halves(values: Seq<u8>) -> Seq<u8> {
    Seq::new(
        ((values.len() + 1) / 2) as nat,
        |i: int| (value_or_zero(values, 2 * i) % 16 + 16 * (value_or_zero(values, 2 * i + 1) % 16)) as u8,
    )
}

/// The first `count` half bytes, the lower half of each byte first.
pub open spec fn low_and_high(packed: Seq<u8>, count: int) -> Seq<u8> {
    Seq::new(
        count as nat,
        |i: int|
            if i % 2 == 0 {
                packed[i / 2] % 16
            } else {
                packed[i / 2] / 16
            },
    )
}

/// Packs values of four bits two to a byte. Higher bits of a value are dropped.
pub fn pack_nibbles(values: &[u8]) -> (r: Vec<u8>)
    requires
        values@.len() < usize::MAX,
    ensures
        r@ == in_halves(values@),
{
    let num_bytes: usize = (values.len() + 1) / 2;
    let mut packed: Vec<u8> = vec![0u8; num_bytes];
    let mut i: usize = 0;
    while i < values.len()
        invariant
            i <= values@.len() < usize::MAX,
            packed@.len() == (values@.len() + 1) / 2,
            packed@ =~= in_halves(values@.take(i as int)) + Seq::new(
                (packed@.len() - (i + 1) / 2) as nat,
                |k: int| 0u8,
            ),
        decreases values@.len() - i,
    {
        let ghost before = packed@;
        let byte: u8 = packed[i / 2];
        let v: u8 = values[i];
        if i % 2 == 0 {
            assert(byte == 0);
            assert(byte | (v & 0x0F) == v % 16) by (bit_vector)
                requires
                    byte == 0,
            ;
            packed.set(i / 2, byte | (v & 0x0F));
        } else {
            assert(byte < 16);
            assert(byte | ((v & 0x0F) << 4u8) == byte + 16 * (v % 16)) by (bit_vector)
                requires
                    byte < 16,
            ;
            packed.set(i / 2, byte | ((v & 0x0F) << 4u8));
        }
        i = i + 1;
        proof {
            let done = in_halves(values@.take(i as int));
            assert forall|k: int| 0 <= k < packed@.len() implies #[trigger] packed@[k] == (if k < done.len() {
                done[k]
            } else {
                0u8
            }) by {
                assert(before[k] == before[k]);
            }
        }
    }
    assert(values@.take(values@.len() as int) =~= values@);
    packed
}

/// The first `count` values of four bits, two from each byte.
pub fn unpack_nibbles(packed: &[u8], count: usize) -> (r: Vec<u8>)
    requires
        count <= 2 * packed@.len(),
    ensures
        r@ == low_and_high(packed@, count as int),
{
    let mut values: Vec<u8> = Vec::with_capacity(count);
    let mut i: usize = 0;
    while i < count
        invariant
            i <= count <= 2 * packed@.len(),
            values@ =~= low_and_high(packed@, i as int),
        decreases count - i,
    {
        let byte: u8 = packed[i / 2];
        assert(byte & 0x0F == byte % 16 && (byte >> 4u8) & 0x0F == byte / 16) by (bit_vector);
        let nibble: u8 = if i % 2 == 0 {
            byte & 0x0F
        } else {
            (byte >> 4u8) & 0x0F
        };
        values.push(nibble);
        i = i + 1;
    }
    values
}

/// Unpacking gives back the lowest four bits of each value: the value itself where it has no
/// others.
pub proof fn law_nibbles_come_back(values: Seq<u8>)
    ensures
        low_and_high(in_halves(values), values.len() as int) == values.map_values(|v: u8| (v % 16) as u8),
        (forall|i: int| 0 <= i < values.len() ==> #[trigger] values[i] < 16) ==> low_and_high(
            in_halves(values),
            values.len() as int,
        ) == values,
{
    let packed = in_halves(values);
    let read = low_and_high(packed, values.len() as int);
    assert forall|i: int| 0 <= i < values.len() implies #[trigger] read[i] == values[i] % 16 by {
        let k = i / 2;
        let lo = value_or_zero(values, 2 * k);
        let hi = value_or_zero(values, 2 * k + 1);
        lemma_halves(lo, hi);
        assert(packed[k] == (lo % 16 + 16 * (hi % 16)) as u8);
        if i % 2 == 0 {
            assert(i == 2 * k);
        } else {
            assert(i == 2 * k + 1);
        }
    }
    assert(read =~= values.map_values(|v: u8| (v % 16) as u8));
    if forall|i: int| 0 <= i < values.len() ==> #[trigger] values[i] < 16 {
        assert(read =~= values);
    }
}

proof fn lemma_halves(lo: u8, hi: u8)
    ensures
        ((lo % 16 + 16 * (hi % 16)) as u8) % 16 == lo % 16,
        ((lo % 16 + 16 * (hi % 16)) as u8) / 16 == hi % 16,
{
}

proof fn lemma_half_bits(lo: u8, hi: u8, j: int)
    requires
        lo < 16,
        hi < 16,
        0 <= j < 8,
    ensures
        bit((lo % 16 + 16 * (hi % 16)) as u8, j) == (if j < 4 {
            bit(lo, j)
        } else {
            bit(hi, j - 4)
        }),
{
    let byte = (lo % 16 + 16 * (hi % 16)) as u8;
    assert(byte == lo | (hi << 4u8)) by (bit_vector)
        requires
            lo < 16,
            hi < 16,
            byte == lo + 16 * hi,
    ;
    assert(1u8 << 4u8 == 16) by (bit_vector);
    lemma_fits_iff_below(lo, 4);
    lemma_or_shifted_left(lo, hi, 4, j);
}

/// Packing values of four bits two to a byte is packing them as indices of that width.
pub proof fn law_nibbles_are_indices(values: Seq<u8>, packed: Seq<u8>)
    requires
        forall|i: int| 0 <= i < values.len() ==> #[trigger] values[i] < 16,
        is_packing(packed, values, 4),
    ensures
        packed == in_halves(values),
        packed.len() == (values.len() + 1) / 2,
{
    let halves = in_halves(values);
    assert(1u8 << 4u8 == 16) by (bit_vector);
    assert forall|k: int| 0 <= k < 8 * halves.len() implies #[trigger] stream_bit(halves, k) == bit(
        value_or_zero(values, k / 4),
        k % 4,
    ) by {
        let n = k / 8;
        let lo = value_or_zero(values, 2 * n);
        let hi = value_or_zero(values, 2 * n + 1);
        lemma_half_bits(lo, hi, k % 8);
        if k % 8 < 4 {
            assert(k / 4 == 2 * n && k % 4 == k % 8);
        } else {
            assert(k / 4 == 2 * n + 1 && k % 4 == k % 8 - 4);
        }
    }
    assert forall|i: int| 0 <= i < values.len() implies field_is(halves, i * 4, 4, #[trigger] values[i]) by {
        lemma_fits_iff_below(values[i], 4);
        assert forall|j: int| 0 <= j < 8 implies #[trigger] bit(values[i], j) == (j < 4 && stream_bit(
            halves,
            i * 4 + j,
        )) by {
            if j < 4 {
                let k = i * 4 + j;
                assert(k / 4 == i && k % 4 == j);
                assert(stream_bit(halves, k) == bit(value_or_zero(values, k / 4), k % 4));
            }
        }
    }
    assert forall|k: int| values.len() * 4 <= k implies !#[trigger] stream_bit(halves, k) by {
        if k < 8 * halves.len() {
            assert(k / 4 >= values.len());
            lemma_zero_bit(k % 4);
        }
    }
    assert(is_packing(halves, values, 4));
    law_packing_unique(packed, halves, values, 4);
}

/// The first coordinate of pair `i`.
pub open spec fn first_of(rotated: Seq<Scalar>, i: int) -> Scalar {
    rotated[2 * i]
}

/// The second coordinate of pair `i`, zero where the last pair has only one.
pub open spec fn second_of(rotated: Seq<Scalar>, i: int) -> Scalar {
    if 2 * i + 1 < rotated.len() {
        rotated[2 * i + 1]
    } else {
        Scalar { bits: 0 }
    }
}

/// The angle levels of rounded angle steps: each reduced to a full turn, as a byte.
pub open spec fn reduced_angles(steps: Seq<(u32, u8)>, levels: int) -> Seq<u8> {
    Seq::new(steps.len(), |i: int| (steps[i].0 as int % levels % 256) as u8)
}

/// Polar quantization of rotated vectors of one dimension.
pub struct PolarQuantizer {
    angle_bits: u8,
    radius_bits: u8,
    dim: usize,
    max_radius: Scalar,
}

impl PolarQuantizer {
    /// The dimension of the vectors.
    pub closed spec fn dimension(&self) -> usize {
        self.dim
    }

    /// The number of bits of an angle level.
    pub closed spec fn angle_width(&self) -> u8 {
        self.angle_bits
    }

    /// The number of bits of a radius level.
    pub closed spec fn radius_width(&self) -> u8 {
        self.radius_bits
    }

    /// The radius that the highest level stands for.
    pub closed spec fn radius_limit(&self) -> Scalar {
        self.max_radius
    }

    /// The number of steps of a full turn.
    pub open spec fn turn(&self) -> u32 {
        1u32 << self.angle_width()
    }

    /// The highest radius level.
    pub open spec fn top_radius(&self) -> u32 {
        ((1u32 << self.radius_width()) - 1) as u32
    }

    /// The widths and the dimension are such that levels and pairs can be counted.
    pub open spec fn countable(&self) -> bool {
        self.angle_width() < 32 && self.radius_width() < 32 && self.dimension() < usize::MAX
    }

    /// A quantizer for rotated vectors of `dim` coordinates. `max_radius` is the radius that
    /// the highest level stands for, four standard deviations of a pair's radius.
    pub fn new(dim: usize, angle_bits: u8, radius_bits: u8, max_radius: Scalar) -> (r: PolarQuantizer)
        ensures
            r.dimension() == dim,
            r.angle_width() == angle_bits,
            r.radius_width() == radius_bits,
            r.radius_limit() == max_radius,
    {
        PolarQuantizer { angle_bits, radius_bits, dim, max_radius }
    }

    /// The dimension of the vectors.
    pub fn dim(&self) -> (r: usize)
        ensures
            r == self.dimension(),
    {
        self.dim
    }

    /// The number of bits of an angle level.
    pub fn angle_bits(&self) -> (r: u8)
        ensures
            r == self.angle_width(),
    {
        self.angle_bits
    }

    /// The number of bits of a radius level.
    pub fn radius_bits(&self) -> (r: u8)
        ensures
            r == self.radius_width(),
    {
        self.radius_bits
    }

    /// The radius that the highest level stands for.
    pub fn max_radius(&self) -> (r: Scalar)
        ensures
            r == self.radius_limit(),
    {
        self.max_radius
    }

    /// The number of bytes of the angles of a vector.
    pub open spec fn angle_size(&self) -> int {
        if self.angle_width() == 4 {
            (pairs(self.dimension() as int) + 1) / 2
        } else {
            pairs(self.dimension() as int)
        }
    }

    /// The number of bytes of the angles of a vector.
    pub fn angle_bytes(&self) -> (r: usize)
        requires
            self.dimension() < usize::MAX,
        ensures
            r == self.angle_size(),
    {
        let num_pairs: usize = (self.dim + 1) / 2;
        if self.angle_bits == 4 {
            (num_pairs + 1) / 2
        } else {
            num_pairs
        }
    }

    /// The number of bytes of the radii of a vector.
    pub fn radii_bytes(&self) -> (r: usize)
        requires
            self.dimension() < usize::MAX,
        ensures
            r == pairs(self.dimension() as int),
    {
        (self.dim + 1) / 2
    }

    /// The number of bytes of a compressed vector.
    pub fn bytes_per_vector(&self) -> (r: usize)
        requires
            self.dimension() < usize::MAX,
        ensures
            r == self.angle_size() + pairs(self.dimension() as int),
    {
        self.angle_bytes() + self.radii_bytes()
    }

    fn level_counts(&self) -> (r: (u32, u32))
        requires
            self.countable(),
        ensures
            r.0 == self.turn(),
            r.0 > 0,
            r.1 == self.top_radius(),
    {
        let a: u8 = self.angle_bits;
        let b: u8 = self.radius_bits;
        assert(1u32 << a > 0 && 1u32 << b > 0) by (bit_vector)
            requires
                a < 32,
                b < 32,
        ;
        (1u32 << a, (1u32 << b) - 1)
    }

    /// `steps` holds what `quantize` gave for each pair of the rotated vector, in order.
    pub open spec fn quantized<F: Fn(Scalar, Scalar, u32, u32) -> (u32, u8)>(
        &self,
        rotated: Seq<Scalar>,
        quantize: F,
        steps: Seq<(u32, u8)>,
    ) -> bool {
        &&& steps.len() == pairs(self.dimension() as int)
        &&& forall|i: int|
            0 <= i < steps.len() ==> quantize.ensures(
                (first_of(rotated, i), second_of(rotated, i), self.turn(), self.top_radius()),
                #[trigger] steps[i],
            )
    }

    /// `vector` is the polar form with the given rounded angles and radius levels.
    pub open spec fn holds_steps(&self, vector: PolarVector, steps: Seq<(u32, u8)>) -> bool {
        let levels = reduced_angles(steps, self.turn() as int);
        &&& vector.dim == self.dimension()
        &&& vector.angle_bits == self.angle_width()
        &&& vector.radii@ == steps.map_values(|s: (u32, u8)| s.1)
        &&& vector.angles@ == if self.angle_width() == 4 {
            in_halves(levels)
        } else {
            levels
        }
    }

    /// Compresses a rotated vector. For a pair of coordinates, the number of steps of a full
    /// turn and the highest radius level, `quantize` gives the rounded angle, counted in
    /// steps, and the radius level.
    pub fn compress<F: Fn(Scalar, Scalar, u32, u32) -> (u32, u8)>(&self, rotated: &[Scalar], quantize: F) -> (r: PolarVector)
        requires
            self.countable(),
            rotated@.len() == self.dimension(),
            forall|y0: Scalar, y1: Scalar| #[trigger]
                quantize.requires((y0, y1, self.turn(), self.top_radius())),
        ensures
            exists|steps: Seq<(u32, u8)>| #[trigger]
                self.quantized(rotated@, quantize, steps) && self.holds_steps(r, steps),
            r.complete(),
    {
        let num_pairs: usize = (self.dim + 1) / 2;
        let (angle_levels, radius_levels) = self.level_counts();
        let mut raw_angles: Vec<u8> = Vec::with_capacity(num_pairs);
        let mut radii: Vec<u8> = Vec::with_capacity(num_pairs);
        let ghost mut steps: Seq<(u32, u8)> = Seq::empty();
        let mut i: usize = 0;
        while i < num_pairs
            invariant
                i <= num_pairs,
                num_pairs == pairs(self.dim as int),
                self.dim < usize::MAX,
                rotated@.len() == self.dim,
                angle_levels == self.turn(),
                angle_levels > 0,
                radius_levels == self.top_radius(),
                forall|y0: Scalar, y1: Scalar| #[trigger]
                    quantize.requires((y0, y1, self.turn(), self.top_radius())),
                steps.len() == i,
                forall|k: int|
                    0 <= k < i ==> quantize.ensures(
                        (first_of(rotated@, k), second_of(rotated@, k), self.turn(), self.top_radius()),
                        #[trigger] steps[k],
                    ),
                raw_angles@ =~= reduced_angles(steps, angle_levels as int),
                radii@ =~= steps.map_values(|s: (u32, u8)| s.1),
            decreases num_pairs - i,
        {
            let y0: Scalar = rotated[2 * i];
            let y1: Scalar = if 2 * i + 1 < self.dim {
                rotated[2 * i + 1]
            } else {
                Scalar { bits: 0 }
            };
            let (angle_step, radius_level) = quantize(y0, y1, angle_levels, radius_levels);
            raw_angles.push((angle_step % angle_levels % 256) as u8);
            radii.push(radius_level);
            proof {
                steps = steps.push((angle_step, radius_level));
            }
            i = i + 1;
        }
        let angles: Vec<u8> = if self.angle_bits == 4 {
            pack_nibbles(raw_angles.as_slice())
        } else {
            raw_angles
        };
        let r = PolarVector { angles, radii, dim: self.dim, angle_bits: self.angle_bits };
        assert(self.quantized(rotated@, quantize, steps) && self.holds_steps(r, steps));
        r
    }

    /// `points` holds what `expand` gave for each pair of levels of the vector, in order.
    pub open spec fn expanded<F: Fn(u8, u8, u32, u32) -> (Scalar, Scalar)>(
        &self,
        vector: PolarVector,
        expand: F,
        points: Seq<(Scalar, Scalar)>,
    ) -> bool {
        &&& points.len() == pairs(self.dimension() as int)
        &&& forall|i: int|
            0 <= i < points.len() ==> expand.ensures(
                (vector.angle_levels()[i], vector.radii@[i], self.turn(), self.top_radius()),
                #[trigger] points[i],
            )
    }

    /// The first `dim` coordinates of the points, pair by pair.
    pub open spec fn coordinates(&self, points: Seq<(Scalar, Scalar)>) -> Seq<Scalar> {
        Seq::new(
            self.dimension() as nat,
            |j: int|
                if j % 2 == 0 {
                    points[j / 2].0
                } else {
                    points[j / 2].1
                },
        )
    }

    /// Decompresses to rotated coordinates. For an angle level, a radius level, the number of
    /// steps of a full turn and the highest radius level, `expand` gives the pair of
    /// coordinates.
    pub fn decompress<F: Fn(u8, u8, u32, u32) -> (Scalar, Scalar)>(&self, pv: &PolarVector, expand: &F) -> (r: Vec<Scalar>)
        requires
            self.countable(),
            pv.dim == self.dimension(),
            pv.complete(),
            forall|a: u8, b: u8| #[trigger] expand.requires((a, b, self.turn(), self.top_radius())),
        ensures
            exists|points: Seq<(Scalar, Scalar)>| #[trigger]
                self.expanded(*pv, *expand, points) && r@ == self.coordinates(points),
    {
        let num_pairs: usize = (self.dim + 1) / 2;
        let (angle_levels, radius_levels) = self.level_counts();
        let raw_angles: Vec<u8> = levels_of(pv);
        let mut y: Vec<Scalar> = Vec::with_capacity(self.dim);
        let ghost mut points: Seq<(Scalar, Scalar)> = Seq::empty();
        let mut i: usize = 0;
        while i < num_pairs
            invariant
                i <= num_pairs,
                num_pairs == pairs(self.dim as int),
                pv.dim == self.dim,
                pv.complete(),
                angle_levels == self.turn(),
                radius_levels == self.top_radius(),
                raw_angles@ == pv.angle_levels(),
                raw_angles@.len() >= num_pairs,
                forall|a: u8, b: u8| #[trigger] expand.requires((a, b, self.turn(), self.top_radius())),
                points.len() == i,
                forall|k: int|
                    0 <= k < i ==> expand.ensures(
                        (raw_angles@[k], pv.radii@[k], self.turn(), self.top_radius()),
                        #[trigger] points[k],
                    ),
                y@.len() == (if 2 * i < self.dim {
                    2 * i
                } else {
                    self.dim as int
                }),
                forall|j: int|
                    0 <= j < y@.len() ==> #[trigger] y@[j] == (if j % 2 == 0 {
                        points[j / 2].0
                    } else {
                        points[j / 2].1
                    }),
            decreases num_pairs - i,
        {
            let (y0, y1) = expand(raw_angles[i], pv.radii[i], angle_levels, radius_levels);
            y.push(y0);
            if 2 * i + 1 < self.dim {
                y.push(y1);
            }
            proof {
                points = points.push((y0, y1));
            }
            i = i + 1;
        }
        assert(y@ =~= self.coordinates(points));
        assert(self.expanded(*pv, *expand, points));
        y
    }

    /// The dot product of a rotated query with a compressed vector: that of the query with
    /// the decompressed coordinates.
    pub fn similarity_raw<F: Fn(u8, u8, u32, u32) -> (Scalar, Scalar), G: Fn(&[Scalar], &[Scalar]) -> Scalar>(
        &self,
        rotated_query: &[Scalar],
        compressed: &PolarVector,
        expand: &F,
        dot: &G,
    ) -> (r: Scalar)
        requires
            self.countable(),
            compressed.dim == self.dimension(),
            compressed.complete(),
            forall|a: u8, b: u8| #[trigger] expand.requires((a, b, self.turn(), self.top_radius())),
            forall|y: &[Scalar]| #[trigger] dot.requires((rotated_query, y)),
        ensures
            exists|points: Seq<(Scalar, Scalar)>, y: &[Scalar]|
                #![trigger self.expanded(*compressed, *expand, points), dot.ensures((rotated_query, y), r)]
                self.expanded(*compressed, *expand, points) && y@ == self.coordinates(points) && dot.ensures(
                    (rotated_query, y),
                    r,
                ),
    {
        let y: Vec<Scalar> = self.decompress(compressed, expand);
        dot(rotated_query, y.as_slice())
    }

    /// `sums` starts at zero, and each further element is what `accumulate` gave for the one
    /// before and the levels of the two vectors at that pair.
    pub open spec fn accumulated<F: Fn(Scalar, (u8, u8), (u8, u8), u32, u32) -> Scalar>(
        &self,
        a: PolarVector,
        b: PolarVector,
        accumulate: F,
        sums: Seq<Scalar>,
    ) -> bool {
        &&& sums.len() == pairs(self.dimension() as int) + 1
        &&& sums[0] == (Scalar { bits: 0 })
        &&& forall|i: int|
            0 <= i < sums.len() - 1 ==> accumulate.ensures(
                (
                    #[trigger] sums[i],
                    (a.angle_levels()[i], a.radii@[i]),
                    (b.angle_levels()[i], b.radii@[i]),
                    self.turn(),
                    self.top_radius(),
                ),
                sums[i + 1],
            )
    }

    /// The dot product of two compressed vectors, summed over the pairs in order.
    /// `accumulate` adds the product of one pair to the sum so far; it is given the angle
    /// and radius levels of both vectors.
    pub fn similarity<F: Fn(Scalar, (u8, u8), (u8, u8), u32, u32) -> Scalar>(
        &self,
        a: &PolarVector,
        b: &PolarVector,
        accumulate: F,
    ) -> (r: Scalar)
        requires
            self.countable(),
            a.dim == self.dimension(),
            b.dim == self.dimension(),
            a.complete(),
            b.complete(),
            forall|s: Scalar, x: (u8, u8), y: (u8, u8)| #[trigger]
                accumulate.requires((s, x, y, self.turn(), self.top_radius())),
        ensures
            exists|sums: Seq<Scalar>| #[trigger]
                self.accumulated(*a, *b, accumulate, sums) && r == sums.last(),
    {
        let num_pairs: usize = (self.dim + 1) / 2;
        let (angle_levels, radius_levels) = self.level_counts();
        let a_angles: Vec<u8> = levels_of(a);
        let b_angles: Vec<u8> = levels_of(b);
        let mut sim = Scalar { bits: 0 };
        let ghost mut sums: Seq<Scalar> = seq![sim];
        let mut i: usize = 0;
        while i < num_pairs
            invariant
                i <= num_pairs,
                num_pairs == pairs(self.dim as int),
                a.dim == self.dim,
                b.dim == self.dim,
                a.complete(),
                b.complete(),
                angle_levels == self.turn(),
                radius_levels == self.top_radius(),
                a_angles@ == a.angle_levels(),
                b_angles@ == b.angle_levels(),
                a_angles@.len() >= num_pairs,
                b_angles@.len() >= num_pairs,
                forall|s: Scalar, x: (u8, u8), y: (u8, u8)| #[trigger]
                    accumulate.requires((s, x, y, self.turn(), self.top_radius())),
                sums.len() == i + 1,
                sums[0] == (Scalar { bits: 0 }),
                sums.last() == sim,
                forall|k: int|
                    0 <= k < i ==> accumulate.ensures(
                        (
                            #[trigger] sums[k],
                            (a_angles@[k], a.radii@[k]),
                            (b_angles@[k], b.radii@[k]),
                            self.turn(),
                            self.top_radius(),
                        ),
                        sums[k + 1],
                    ),
            decreases num_pairs - i,
        {
            let x: (u8, u8) = (a_angles[i], a.radii[i]);
            let y: (u8, u8) = (b_angles[i], b.radii[i]);
            let next: Scalar = accumulate(sim, x, y, angle_levels, radius_levels);
            proof {
                let before = sums;
                sums = sums.push(next);
                assert forall|k: int| 0 <= k < i + 1 implies accumulate.ensures(
                    (
                        #[trigger] sums[k],
                        (a_angles@[k], a.radii@[k]),
                        (b_angles@[k], b.radii@[k]),
                        self.turn(),
                        self.top_radius(),
                    ),
                    sums[k + 1],
                ) by {
                    assert(sums[k] == before[k]);
                    if k < i {
                        assert(sums[k + 1] == before[k + 1]);
                    }
                }
            }
            sim = next;
            i = i + 1;
        }
        assert(self.accumulated(*a, *b, accumulate, sums));
        sim
    }
}

fn levels_of(pv: &PolarVector) -> (r: Vec<u8>)
    requires
        pv.complete(),
    ensures
        r@ == pv.angle_levels(),
{
    if pv.angle_bits == 4 {
        unpack_nibbles(pv.angles.as_slice(), (pv.dim + 1) / 2)
    } else {
        pv.angles.clone()
    }
}

/// Decompression sees, for every pair, the reduced angle and the radius level that
/// compression was given.
pub proof fn law_levels_come_back(quantizer: PolarQuantizer, vector: PolarVector, steps: Seq<(u32, u8)>)
    requires
        steps.len() == pairs(quantizer.dimension() as int),
        quantizer.angle_width() < 32,
        quantizer.holds_steps(vector, steps),
    ensures
        vector.angle_levels() == reduced_angles(steps, quantizer.turn() as int),
        vector.radii@ == steps.map_values(|s: (u32, u8)| s.1),
{
    let levels = reduced_angles(steps, quantizer.turn() as int);
    if quantizer.angle_width() == 4 {
        assert(1u32 << 4u8 == 16) by (bit_vector);
        law_nibbles_come_back(levels);
    }
}

/// A compressed vector takes as many bytes as the quantizer says.
pub proof fn law_polar_size(quantizer: PolarQuantizer, vector: PolarVector, steps: Seq<(u32, u8)>)
    requires
        steps.len() == pairs(quantizer.dimension() as int),
        quantizer.holds_steps(vector, steps),
    ensures
        vector.angles@.len() + vector.radii@.len() == quantizer.angle_size() + pairs(quantizer.dimension() as int),
{
}

/// The dot product of two compressed vectors does not depend on their order, where what
/// `accumulate` adds does not, and it has one result for the same arguments.
pub proof fn law_similarity_commutes<F: Fn(Scalar, (u8, u8), (u8, u8), u32, u32) -> Scalar>(
    quantizer: PolarQuantizer,
    a: PolarVector,
    b: PolarVector,
    accumulate: F,
    sums: Seq<Scalar>,
    other_sums: Seq<Scalar>,
)
    requires
        forall|s: Scalar, x: (u8, u8), y: (u8, u8), t: u32, n: u32, r: Scalar, q: Scalar|
            #[trigger] accumulate.ensures((s, x, y, t, n), r) && #[trigger] accumulate.ensures((s, y, x, t, n), q) ==> r
                == q,
        quantizer.accumulated(a, b, accumulate, sums),
        quantizer.accumulated(b, a, accumulate, other_sums),
    ensures
        sums == other_sums,
{
    assert forall|i: int| 0 <= i < sums.len() implies sums[i] == other_sums[i] by {
        lemma_sums_agree(quantizer, a, b, accumulate, sums, other_sums, i);
    }
    assert(sums =~= other_sums);
}

proof fn lemma_sums_agree<F: Fn(Scalar, (u8, u8), (u8, u8), u32, u32) -> Scalar>(
    quantizer: PolarQuantizer,
    a: PolarVector,
    b: PolarVector,
    accumulate: F,
    sums: Seq<Scalar>,
    other_sums: Seq<Scalar>,
    i: int,
)
    requires
        forall|s: Scalar, x: (u8, u8), y: (u8, u8), t: u32, n: u32, r: Scalar, q: Scalar|
            #[trigger] accumulate.ensures((s, x, y, t, n), r) && #[trigger] accumulate.ensures((s, y, x, t, n), q) ==> r
                == q,
        quantizer.accumulated(a, b, accumulate, sums),
        quantizer.accumulated(b, a, accumulate, other_sums),
        0 <= i < sums.len(),
    ensures
        sums[i] == other_sums[i],
    decreases i,
{
    if i > 0 {
        lemma_sums_agree(quantizer, a, b, accumulate, sums, other_sums, i - 1);
        let x = (a.angle_levels()[i - 1], a.radii@[i - 1]);
        let y = (b.angle_levels()[i - 1], b.radii@[i - 1]);
        let (t, n) = (quantizer.turn(), quantizer.top_radius());
        assert(accumulate.ensures((sums[i - 1], x, y, t, n), sums[i - 1 + 1]));
        assert(accumulate.ensures((other_sums[i - 1], y, x, t, n), other_sums[i - 1 + 1]));
    }
}

/// Every coordinate belongs to one pair, and no pair is without one.
pub proof fn law_pairs(dim: int)
    requires
        0 <= dim,
    ensures
        2 * pairs(dim) == dim || 2 * pairs(dim) == dim + 1,
{
}

/// What a compressed vector holds of a pair of coordinates: the radius level that the quantization
/// of this pair gave, and its angle counted within one turn. A last coordinate without a partner
/// is paired with zero.
pub open spec fn is_pair_held<F: Fn(Scalar, Scalar, u32, u32) -> (u32, u8)>(
    quantizer: PolarQuantizer,
    rotated: Seq<Scalar>,
    quantize: F,
    vector: PolarVector,
    i: int,
) -> bool {
    are_levels(
        quantize,
        rotated[2 * i],
        if 2 * i + 1 < rotated.len() {
            rotated[2 * i + 1]
        } else {
            Scalar { bits: 0 }
        },
        1u32 << quantizer.angle_width(),
        ((1u32 << quantizer.radius_width()) - 1) as u32,
        vector.angle_levels()[i],
        vector.radii@[i],
    )
}

/// The levels are those that the quantization of two coordinates gave, the angle counted within
/// one turn.
pub open spec fn are_levels<F: Fn(Scalar, Scalar, u32, u32) -> (u32, u8)>(
    quantize: F,
    first: Scalar,
    second: Scalar,
    turn: u32,
    top: u32,
    angle: u8,
    radius: u8,
) -> bool {
    exists|step: (u32, u8)|
        {
            &&& #[trigger] quantize.ensures((first, second, turn, top), step)
            &&& radius == step.1
            &&& angle as int == step.0 as int % turn as int % 256
        }
}

/// A compressed vector holds every pair of coordinates, and nothing else.
pub proof fn law_every_pair_is_held<F: Fn(Scalar, Scalar, u32, u32) -> (u32, u8)>(
    quantizer: PolarQuantizer,
    rotated: Seq<Scalar>,
    quantize: F,
    steps: Seq<(u32, u8)>,
    vector: PolarVector,
)
    requires
        quantizer.angle_width() < 32,
        rotated.len() == quantizer.dimension(),
        quantizer.quantized(rotated, quantize, steps),
        quantizer.holds_steps(vector, steps),
    ensures
        vector.dim == quantizer.dimension(),
        2 * vector.radii@.len() == rotated.len() || 2 * vector.radii@.len() == rotated.len() + 1,
        vector.angle_levels().len() == vector.radii@.len(),
        forall|i: int| 0 <= i < vector.radii@.len() ==> is_pair_held(quantizer, rotated, quantize, vector, i),
{
    law_levels_come_back(quantizer, vector, steps);
    let levels = reduced_angles(steps, quantizer.turn() as int);
    assert forall|i: int| 0 <= i < vector.radii@.len() implies is_pair_held(quantizer, rotated, quantize, vector, i) by {
        let step = steps[i];
        assert(vector.angle_levels()[i] == levels[i]);
        let turn = quantizer.turn() as int;
        assert(0 <= step.0 as int % turn % 256 < 256);
        assert(quantize.ensures(
            (first_of(rotated, i), second_of(rotated, i), quantizer.turn(), quantizer.top_radius()),
            step,
        ));
    }
}

/// The coordinates of a decompressed vector are those of its points, pair by pair, as many as
/// there were.
pub proof fn law_coordinates(quantizer: PolarQuantizer, points: Seq<(Scalar, Scalar)>)
    requires
        points.len() == pairs(quantizer.dimension() as int),
    ensures
        quantizer.coordinates(points).len() == quantizer.dimension(),
        forall|i: int|
            0 <= i < points.len() ==> quantizer.coordinates(points)[2 * i] == (#[trigger] points[i]).0 && (2 * i + 1
                < quantizer.dimension() ==> quantizer.coordinates(points)[2 * i + 1] == points[i].1),
{
}

/// The point of every pair is what `expand` gives for its levels.
pub proof fn law_expanded<F: Fn(u8, u8, u32, u32) -> (Scalar, Scalar)>(
    quantizer: PolarQuantizer,
    vector: PolarVector,
    expand: F,
    points: Seq<(Scalar, Scalar)>,
)
    requires
        quantizer.expanded(vector, expand, points),
    ensures
        2 * points.len() == quantizer.dimension() || 2 * points.len() == quantizer.dimension() + 1,
        forall|i: int|
            0 <= i < points.len() ==> expand.ensures(
                (
                    vector.angle_levels()[i],
                    vector.radii@[i],
                    1u32 << quantizer.angle_width(),
                    ((1u32 << quantizer.radius_width()) - 1) as u32,
                ),
                #[trigger] points[i],
            ),
{
}

/// Half bytes hold two values each, the earlier one in the lower half.
pub proof fn law_halves(values: Seq<u8>)
    requires
        forall|i: int| 0 <= i < values.len() ==> #[trigger] values[i] < 16,
    ensures
        2 * in_halves(values).len() == values.len() || 2 * in_halves(values).len() == values.len() + 1,
        forall|k: int|
            0 <= k && 2 * k + 1 < values.len() ==> (#[trigger] in_halves(values)[k]) == values[2 * k] + 16 * values[2 * k
                + 1],
        values.len() % 2 == 1 ==> in_halves(values).last() == values.last(),
{
    assert forall|k: int| 0 <= k && 2 * k + 1 < values.len() implies (#[trigger] in_halves(values)[k]) == values[2 * k]
        + 16 * values[2 * k + 1] by {
        let (a, b) = (values[2 * k], values[2 * k + 1]);
        assert(a < 16 && b < 16);
    }
    if values.len() % 2 == 1 {
        let a = values[values.len() - 1];
        assert(a < 16);
    }
}

} // verus!
