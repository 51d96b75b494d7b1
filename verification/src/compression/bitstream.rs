//! A byte sequence read as a sequence of bits, least significant bit first.
use vstd::prelude::*;

verus! {

/// Bit `j` of a byte, counted from the least significant one.
pub open spec fn bit(byte: u8, j: int) -> bool {
    (byte >> (j as u8)) & 1u8 == 1u8
}

/// Bit `k` of the stream. Beyond the last byte every bit is clear.
pub open spec fn stream_bit(data: Seq<u8>, k: int) -> bool {
    0 <= k < 8 * data.len() && bit(data[k / 8], k % 8)
}

/// `value` is what the `width` bits from `offset` on spell, least significant bit first.
pub open spec fn field_is(data: Seq<u8>, offset: int, width: int, value: u8) -> bool {
    forall|j: int| 0 <= j < 8 ==> #[trigger] bit(value, j) == (j < width && stream_bit(data, offset + j))
}

/// The number of bytes that hold `count` fields of `width` bits.
pub open spec fn packed_len(count: int, width: int) -> int {
    (count * width + 7) / 8
}

/// `value` fits in `width` bits.
pub open spec fn fits(value: u8, width: int) -> bool {
    forall|j: int| width <= j < 8 ==> !#[trigger] bit(value, j)
}

/// Setting the bits of `value` from position `at` on.
pub proof fn lemma_or_shifted_left(byte: u8, value: u8, at: int, j: int)
    requires
        0 <= at < 8,
        0 <= j < 8,
    ensures
        bit(byte | (value << (at as u8)), j) == (bit(byte, j) || (at <= j && bit(value, j - at))),
{
    let p = at as u8;
    let q = j as u8;
    if at <= j {
        let d = (j - at) as u8;
        assert(((byte | (value << p)) >> q) & 1u8 == 1u8 <==> ((byte >> q) & 1u8 == 1u8 || (value >> d) & 1u8 == 1u8))
            by (bit_vector)
            requires
                p < 8,
                q < 8,
                p <= q,
                d == q - p,
        ;
    } else {
        assert(((byte | (value << p)) >> q) & 1u8 == (byte >> q) & 1u8) by (bit_vector)
            requires
                p < 8,
                q < p,
        ;
    }
}

/// Setting the bits of `value` that lie `by` and more above its lowest bit.
pub proof fn lemma_or_shifted_right(byte: u8, value: u8, by: int, j: int)
    requires
        0 <= by < 8,
        0 <= j < 8,
    ensures
        bit(byte | (value >> (by as u8)), j) == (bit(byte, j) || (j + by < 8 && bit(value, j + by))),
{
    let p = by as u8;
    let q = j as u8;
    if j + by < 8 {
        let s = (j + by) as u8;
        assert(((byte | (value >> p)) >> q) & 1u8 == 1u8 <==> ((byte >> q) & 1u8 == 1u8 || (value >> s) & 1u8 == 1u8))
            by (bit_vector)
            requires
                p < 8,
                q < 8,
                s < 8,
                s == p + q,
        ;
    } else {
        assert(((byte | (value >> p)) >> q) & 1u8 == (byte >> q) & 1u8) by (bit_vector)
            requires
                p < 8,
                q < 8,
                p + q >= 8,
        ;
    }
}

/// The lowest `width` bits of a byte.
pub proof fn lemma_masked(value: u8, width: int, j: int)
    requires
        0 <= width < 8,
        0 <= j < 8,
    ensures
        (1u8 << (width as u8)) >= 1,
        bit(value & (((1u8 << (width as u8)) - 1) as u8), j) == (j < width && bit(value, j)),
{
    let w = width as u8;
    let q = j as u8;
    assert((1u8 << w) >= 1u8) by (bit_vector)
        requires
            w < 8,
    ;
    let mask = ((1u8 << w) - 1) as u8;
    assert(((value & mask) >> q) & 1u8 == (if q < w {
        (value >> q) & 1u8
    } else {
        0u8
    })) by (bit_vector)
        requires
            w < 8,
            q < 8,
            mask == (1u8 << w) - 1,
    ;
}

/// No bit is set in zero.
pub proof fn lemma_zero_bit(j: int)
    requires
        0 <= j < 8,
    ensures
        !bit(0u8, j),
{
    let q = j as u8;
    assert((0u8 >> q) & 1u8 == 0u8) by (bit_vector);
}

/// In the byte one, bit zero alone is set.
pub proof fn lemma_one_bit(j: int)
    requires
        0 <= j < 8,
    ensures
        bit(1u8, j) == (j == 0),
{
    let q = j as u8;
    assert((1u8 >> q) & 1u8 == (if q == 0 {
        1u8
    } else {
        0u8
    })) by (bit_vector)
        requires
            q < 8,
    ;
}

/// Two bytes with the same bits are equal.
pub proof fn lemma_byte_from_bits(a: u8, b: u8)
    requires
        forall|j: int| 0 <= j < 8 ==> #[trigger] bit(a, j) == bit(b, j),
    ensures
        a == b,
{
    assert(bit(a, 0) == bit(b, 0));
    assert(bit(a, 1) == bit(b, 1));
    assert(bit(a, 2) == bit(b, 2));
    assert(bit(a, 3) == bit(b, 3));
    assert(bit(a, 4) == bit(b, 4));
    assert(bit(a, 5) == bit(b, 5));
    assert(bit(a, 6) == bit(b, 6));
    assert(bit(a, 7) == bit(b, 7));
    assert(a == b) by (bit_vector)
        requires
            ((a >> 0u8) & 1u8 == 1u8) == ((b >> 0u8) & 1u8 == 1u8),
            ((a >> 1u8) & 1u8 == 1u8) == ((b >> 1u8) & 1u8 == 1u8),
            ((a >> 2u8) & 1u8 == 1u8) == ((b >> 2u8) & 1u8 == 1u8),
            ((a >> 3u8) & 1u8 == 1u8) == ((b >> 3u8) & 1u8 == 1u8),
            ((a >> 4u8) & 1u8 == 1u8) == ((b >> 4u8) & 1u8 == 1u8),
            ((a >> 5u8) & 1u8 == 1u8) == ((b >> 5u8) & 1u8 == 1u8),
            ((a >> 6u8) & 1u8 == 1u8) == ((b >> 6u8) & 1u8 == 1u8),
            ((a >> 7u8) & 1u8 == 1u8) == ((b >> 7u8) & 1u8 == 1u8),
    ;
}

/// A byte below `2^width` has no bit from `width` on, and conversely.
pub proof fn lemma_fits_iff_below(value: u8, width: int)
    requires
        0 <= width < 8,
    ensures
        fits(value, width) <==> value < (1u8 << (width as u8)),
{
    let w = width as u8;
    if value < (1u8 << w) {
        assert forall|j: int| width <= j < 8 implies !#[trigger] bit(value, j) by {
            let q = j as u8;
            assert((value >> q) & 1u8 == 0u8) by (bit_vector)
                requires
                    value < (1u8 << w),
                    w <= q,
                    q < 8,
            ;
        }
    }
    if fits(value, width) {
        let mask = ((1u8 << w) - 1) as u8;
        lemma_masked(value, width, 0);
        assert forall|j: int| 0 <= j < 8 implies #[trigger] bit(value, j) == bit(value & mask, j) by {
            lemma_masked(value, width, j);
        }
        lemma_byte_from_bits(value, value & mask);
        assert(value & mask <= mask) by (bit_vector);
    }
}

/// The stream has one value in each field.
pub proof fn lemma_field_unique(data: Seq<u8>, offset: int, width: int, a: u8, b: u8)
    requires
        field_is(data, offset, width, a),
        field_is(data, offset, width, b),
    ensures
        a == b,
{
    lemma_byte_from_bits(a, b);
}

/// Two byte sequences of one length with the same bits are equal.
pub proof fn lemma_bytes_from_stream(a: Seq<u8>, b: Seq<u8>)
    requires
        a.len() == b.len(),
        forall|k: int| 0 <= k < 8 * a.len() ==> #[trigger] stream_bit(a, k) == stream_bit(b, k),
    ensures
        a == b,
{
    assert forall|i: int| 0 <= i < a.len() implies a[i] == b[i] by {
        assert forall|j: int| 0 <= j < 8 implies #[trigger] bit(a[i], j) == bit(b[i], j) by {
            let k = 8 * i + j;
            assert(k / 8 == i && k % 8 == j);
            assert(stream_bit(a, k) == stream_bit(b, k));
        }
        lemma_byte_from_bits(a[i], b[i]);
    }
    assert(a =~= b);
}

/// Sets the `width` bits from `offset` on where `value` has them set.
///
/// `value` keeps only its lowest `width` bits.
pub fn pack_bits(data: &mut Vec<u8>, bit_offset: usize, value: u8, bits: u8)
    requires
        bits < 8,
        bit_offset as int / 8 < old(data)@.len(),
        bit_offset + bits <= 8 * old(data)@.len(),
    ensures
        final(data)@.len() == old(data)@.len(),
        forall|k: int|
            #[trigger] stream_bit(final(data)@, k) == (stream_bit(old(data)@, k) || (bit_offset <= k < bit_offset + bits
                && bit(value, k - bit_offset))),
{
    proof {
        lemma_masked(value, bits as int, 0);
    }
    let mask: u8 = (1u8 << bits) - 1;
    let val: u8 = value & mask;
    let byte_idx: usize = bit_offset / 8;
    let bit_idx: usize = bit_offset % 8;
    let ghost before = data@;

    let low: u8 = data[byte_idx] | (val << (bit_idx as u8));
    data.set(byte_idx, low);
    let remaining: usize = 8 - bit_idx;
    if bits as usize > remaining {
        let high: u8 = data[byte_idx + 1] | (val >> (remaining as u8));
        data.set(byte_idx + 1, high);
    }
    proof {
        assert forall|k: int|
            #[trigger] stream_bit(data@, k) == (stream_bit(before, k) || (bit_offset <= k < bit_offset + bits && bit(
                value,
                k - bit_offset,
            ))) by {
            if 0 <= k < 8 * data@.len() {
                let j = k % 8;
                if k / 8 == byte_idx {
                    lemma_or_shifted_left(before[byte_idx as int], val, bit_idx as int, j);
                    if bit_idx <= j {
                        lemma_masked(value, bits as int, j - bit_idx);
                    }
                } else if k / 8 == byte_idx + 1 {
                    if bits > remaining {
                        lemma_or_shifted_right(before[byte_idx + 1], val, remaining as int, j);
                        if j + remaining < 8 {
                            lemma_masked(value, bits as int, j + remaining);
                        }
                    }
                }
            }
        }
    }
}

/// The `bits` bits from `bit_offset` on. Bits beyond the last byte read as clear, and
/// of a field wider than a byte the lowest eight bits are given.
pub fn unpack_bits(data: &[u8], bit_offset: usize, bits: u8) -> (r: u8)
    requires
        bits < 16,
        bit_offset as int / 8 < data@.len(),
    ensures
        field_is(data@, bit_offset as int, bits as int, r),
{
    assert(1u16 << bits >= 1) by (bit_vector)
        requires
            bits < 16,
    ;
    let mask: u16 = (1u16 << bits) - 1;
    let byte_idx: usize = bit_offset / 8;
    let bit_idx: usize = bit_offset % 8;

    let lo: u8 = data[byte_idx];
    let hi: u8 = if byte_idx + 1 < data.len() {
        data[byte_idx + 1]
    } else {
        0
    };
    let combined: u16 = (lo as u16) | ((hi as u16) << 8u16);
    let wide: u16 = (combined >> (bit_idx as u16)) & mask;
    let r: u8 = (wide & 0xff) as u8;
    proof {
        assert forall|j: int| 0 <= j < 8 implies #[trigger] bit(r, j) == (j < bits && stream_bit(
            data@,
            bit_offset + j,
        )) by {
            let q = j as u8;
            let p = bit_idx as u8;
            let p16 = bit_idx as u16;
            let s = (p + q) as u8;
            let s8 = (if s >= 8 { s - 8 } else { 0 }) as u8;
            assert((r >> q) & 1u8 == (if q < bits {
                if s < 8 {
                    (lo >> s) & 1u8
                } else {
                    (hi >> s8) & 1u8
                }
            } else {
                0u8
            })) by (bit_vector)
                requires
                    q < 8,
                    p < 8,
                    p16 == p,
                    s == p + q,
                    s >= 8 ==> s8 == s - 8,
                    bits < 16,
                    mask == (1u16 << bits) - 1,
                    combined == (lo as u16) | ((hi as u16) << 8u16),
                    wide == (combined >> p16) & mask,
                    r == (wide & 0xff) as u8,
            ;
            let k = bit_offset + j;
            if s < 8 {
                assert(k / 8 == byte_idx && k % 8 == s);
            } else {
                assert(k / 8 == byte_idx + 1 && k % 8 == s8);
                if byte_idx + 1 >= data@.len() {
                    lemma_zero_bit(s8 as int);
                }
            }
        }
    }
    r
}

/// The packed bytes have room for all fields, and there is no byte more than they need.
pub proof fn law_packed_len(count: int, width: int)
    requires
        0 <= count,
        0 <= width,
    ensures
        count * width <= 8 * packed_len(count, width) < count * width + 8,
{
    assert(0 <= count * width) by (nonlinear_arith)
        requires
            0 <= count,
            0 <= width,
    ;
}

} // verus!
