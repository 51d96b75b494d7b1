//! Hamming distance between packed bit vectors, and the closest of many.
use crate::compression::bitstream::bit;
use crate::compression::qjl::BitVector;
use crate::sorting::{is_leading, leading};
use vstd::prelude::*;

verus! {

/// The number of ones in the binary representation of `n`.
pub open spec fn ones(n: nat) -> nat
    decreases n,
{
    if n == 0 {
        0
    } else {
        n % 2 + ones(n / 2)
    }
}

/// `u64::count_ones`: the number of ones in the binary representation.
pub assume_specification[ u64::count_ones ](value: u64) -> (r: u32)
    ensures
        r == ones(value as nat),
;

/// `u8::count_ones`: the number of ones in the binary representation.
pub assume_specification[ u8::count_ones ](value: u8) -> (r: u32)
    ensures
        r == ones(value as nat),
;

/// The number of bits in which two byte sequences of one length differ.
pub open spec fn distance(a: Seq<u8>, b: Seq<u8>) -> nat
    decreases a.len(),
{
    if a.len() == 0 {
        0
    } else {
        distance(a.drop_last(), b.drop_last()) + ones((a.last() ^ b.last()) as nat)
    }
}

proof fn lemma_ones_of_byte_split(n: nat)
    ensures
        ones(n) == ones(n % 256) + ones(n / 256),
{
    let q = n / 256;
    let r = n % 256;
    assert(n == 256 * q + r);
    let h1 = n / 2;
    let h2 = h1 / 2;
    let h3 = h2 / 2;
    let h4 = h3 / 2;
    let h5 = h4 / 2;
    let h6 = h5 / 2;
    let h7 = h6 / 2;
    let h8 = h7 / 2;
    let r1 = r / 2;
    let r2 = r1 / 2;
    let r3 = r2 / 2;
    let r4 = r3 / 2;
    let r5 = r4 / 2;
    let r6 = r5 / 2;
    let r7 = r6 / 2;
    let r8 = r7 / 2;
    assert(h1 == 128 * q + r1);
    assert(h2 == 64 * q + r2);
    assert(h3 == 32 * q + r3);
    assert(h4 == 16 * q + r4);
    assert(h5 == 8 * q + r5);
    assert(h6 == 4 * q + r6);
    assert(h7 == 2 * q + r7);
    assert(h8 == q && r8 == 0);
    assert(n % 2 == r % 2);
    assert(h1 % 2 == r1 % 2);
    assert(h2 % 2 == r2 % 2);
    assert(h3 % 2 == r3 % 2);
    assert(h4 % 2 == r4 % 2);
    assert(h5 % 2 == r5 % 2);
    assert(h6 % 2 == r6 % 2);
    assert(h7 % 2 == r7 % 2);
    lemma_ones_step(n);
    lemma_ones_step(h1);
    lemma_ones_step(h2);
    lemma_ones_step(h3);
    lemma_ones_step(h4);
    lemma_ones_step(h5);
    lemma_ones_step(h6);
    lemma_ones_step(h7);
    lemma_ones_step(r);
    lemma_ones_step(r1);
    lemma_ones_step(r2);
    lemma_ones_step(r3);
    lemma_ones_step(r4);
    lemma_ones_step(r5);
    lemma_ones_step(r6);
    lemma_ones_step(r7);
}

proof fn lemma_ones_step(n: nat)
    ensures
        ones(n) == n % 2 + ones(n / 2),
{
}

/// The word whose bytes, from the least significant one on, are given.
pub open spec fn word(b0: u8, b1: u8, b2: u8, b3: u8, b4: u8, b5: u8, b6: u8, b7: u8) -> u64 {
    (b0 as u64) | ((b1 as u64) << 8u64) | ((b2 as u64) << 16u64) | ((b3 as u64) << 24u64) | ((b4 as u64) << 32u64) | ((
    b5 as u64) << 40u64) | ((b6 as u64) << 48u64) | ((b7 as u64) << 56u64)
}

fn word_at(data: &[u8], offset: usize) -> (r: u64)
    requires
        offset + 8 <= data@.len(),
    ensures
        r == word(
            data@[offset as int],
            data@[offset + 1],
            data@[offset + 2],
            data@[offset + 3],
            data@[offset + 4],
            data@[offset + 5],
            data@[offset + 6],
            data@[offset + 7],
        ),
{
    (data[offset] as u64) | ((data[offset + 1] as u64) << 8u64) | ((data[offset + 2] as u64) << 16u64) | ((
    data[offset + 3] as u64) << 24u64) | ((data[offset + 4] as u64) << 32u64) | ((data[offset + 5] as u64) << 40u64) | ((
    data[offset + 6] as u64) << 48u64) | ((data[offset + 7] as u64) << 56u64)
}

proof fn lemma_ones_of_words(a: Seq<u8>, b: Seq<u8>)
    requires
        a.len() == 8,
        b.len() == 8,
    ensures
        ones(
            (word(a[0], a[1], a[2], a[3], a[4], a[5], a[6], a[7]) ^ word(b[0], b[1], b[2], b[3], b[4], b[5], b[6], b[7]))
                as nat,
        ) == distance(a, b),
{
    let (a0, a1, a2, a3, a4, a5, a6, a7) = (a[0], a[1], a[2], a[3], a[4], a[5], a[6], a[7]);
    let (b0, b1, b2, b3, b4, b5, b6, b7) = (b[0], b[1], b[2], b[3], b[4], b[5], b[6], b[7]);
    let x = word(a0, a1, a2, a3, a4, a5, a6, a7) ^ word(b0, b1, b2, b3, b4, b5, b6, b7);
    let x1 = x / 256;
    let x2 = x1 / 256;
    let x3 = x2 / 256;
    let x4 = x3 / 256;
    let x5 = x4 / 256;
    let x6 = x5 / 256;
    let x7 = x6 / 256;
    let x8 = x7 / 256;
    assert(x % 256 == (a0 ^ b0) as u64 && x1 % 256 == (a1 ^ b1) as u64 && x2 % 256 == (a2 ^ b2) as u64 && x3 % 256 == (a3
        ^ b3) as u64 && x4 % 256 == (a4 ^ b4) as u64 && x5 % 256 == (a5 ^ b5) as u64 && x6 % 256 == (a6 ^ b6) as u64 && x7
        % 256 == (a7 ^ b7) as u64 && x8 == 0) by (bit_vector)
        requires
            x == word(a0, a1, a2, a3, a4, a5, a6, a7) ^ word(b0, b1, b2, b3, b4, b5, b6, b7),
            x1 == x / 256,
            x2 == x1 / 256,
            x3 == x2 / 256,
            x4 == x3 / 256,
            x5 == x4 / 256,
            x6 == x5 / 256,
            x7 == x6 / 256,
            x8 == x7 / 256,
    ;
    lemma_ones_of_byte_split(x as nat);
    lemma_ones_of_byte_split(x1 as nat);
    lemma_ones_of_byte_split(x2 as nat);
    lemma_ones_of_byte_split(x3 as nat);
    lemma_ones_of_byte_split(x4 as nat);
    lemma_ones_of_byte_split(x5 as nat);
    lemma_ones_of_byte_split(x6 as nat);
    lemma_ones_of_byte_split(x7 as nat);
    lemma_distance_step(a, b, 0);
    lemma_distance_step(a, b, 1);
    lemma_distance_step(a, b, 2);
    lemma_distance_step(a, b, 3);
    lemma_distance_step(a, b, 4);
    lemma_distance_step(a, b, 5);
    lemma_distance_step(a, b, 6);
    lemma_distance_step(a, b, 7);
    assert(a.take(8) =~= a);
    assert(b.take(8) =~= b);
}

proof fn lemma_distance_step(a: Seq<u8>, b: Seq<u8>, i: int)
    requires
        0 <= i < a.len(),
        a.len() == b.len(),
    ensures
        distance(a.take(i + 1), b.take(i + 1)) == distance(a.take(i), b.take(i)) + ones((a[i] ^ b[i]) as nat),
{
    assert(a.take(i + 1).drop_last() =~= a.take(i));
    assert(b.take(i + 1).drop_last() =~= b.take(i));
}

proof fn lemma_distance_append(a: Seq<u8>, b: Seq<u8>, c: Seq<u8>, d: Seq<u8>)
    requires
        a.len() == b.len(),
        c.len() == d.len(),
    ensures
        distance(a + c, b + d) == distance(a, b) + distance(c, d),
    decreases c.len(),
{
    if c.len() == 0 {
        assert(a + c =~= a);
        assert(b + d =~= b);
    } else {
        lemma_distance_append(a, b, c.drop_last(), d.drop_last());
        assert((a + c).drop_last() =~= a + c.drop_last());
        assert((b + d).drop_last() =~= b + d.drop_last());
    }
}

proof fn lemma_distance_of_prefix(a: Seq<u8>, b: Seq<u8>, i: int, j: int)
    requires
        0 <= i <= j <= a.len(),
        a.len() == b.len(),
    ensures
        distance(a.take(j), b.take(j)) == distance(a.take(i), b.take(i)) + distance(a.subrange(i, j), b.subrange(i, j)),
{
    lemma_distance_append(a.take(i), b.take(i), a.subrange(i, j), b.subrange(i, j));
    assert(a.take(i) + a.subrange(i, j) =~= a.take(j));
    assert(b.take(i) + b.subrange(i, j) =~= b.take(j));
}

/// The number of bits in which two bit vectors of one length differ.
pub fn hamming_distance(a: &BitVector, b: &BitVector) -> (r: u32)
    requires
        a.0@.len() == b.0@.len(),
        distance(a.0@, b.0@) <= u32::MAX,
    ensures
        r == distance(a.0@, b.0@),
{
    let len: usize = a.0.len();
    let chunks: usize = len / 8;
    let mut dist: u32 = 0;
    let mut i: usize = 0;
    let ghost x = a.0@;
    let ghost y = b.0@;
    assert(x.take(len as int) =~= x && y.take(len as int) =~= y);
    while i < chunks
        invariant
            x == a.0@ && y == b.0@,
            x.len() == y.len() == len,
            x.take(len as int) == x && y.take(len as int) == y,
            chunks == len / 8,
            i <= chunks,
            distance(x, y) <= u32::MAX,
            dist == distance(x.take(8 * i), y.take(8 * i)),
        decreases chunks - i,
    {
        let offset: usize = i * 8;
        proof {
            let from = 8 * i;
            lemma_distance_of_prefix(x, y, from, from + 8);
            lemma_distance_of_prefix(x, y, from + 8, len as int);
            lemma_ones_of_words(x.subrange(from, from + 8), y.subrange(from, from + 8));
        }
        let differing: u64 = word_at(a.0.as_slice(), offset) ^ word_at(b.0.as_slice(), offset);
        dist = dist + differing.count_ones();
        i = i + 1;
    }
    let mut k: usize = chunks * 8;
    while k < len
        invariant
            x == a.0@ && y == b.0@,
            x.len() == y.len() == len,
            x.take(len as int) == x && y.take(len as int) == y,
            k <= len,
            distance(x, y) <= u32::MAX,
            dist == distance(x.take(k as int), y.take(k as int)),
        decreases len - k,
    {
        proof {
            lemma_distance_step(x, y, k as int);
            lemma_distance_of_prefix(x, y, k + 1, len as int);
        }
        dist = dist + (a.0[k] ^ b.0[k]).count_ones();
        k = k + 1;
    }
    dist
}

/// The distances of the candidates from the query, in the candidates' order.
pub open spec fn distance_keys(query: Seq<u8>, index: Seq<BitVector>) -> Seq<i128> {
    Seq::new(index.len(), |i: int| distance(query, index[i].0@) as i128)
}

/// The `k` closest candidates, as pairs of a position and a distance, from the closest on.
/// Among equal distances the smaller position comes first. Where there are no more than
/// `k` candidates, all are given.
pub fn hamming_top_k(query: &BitVector, index: &[BitVector], k: usize) -> (r: Vec<(usize, u32)>)
    requires
        k > 0 ==> forall|i: int|
            0 <= i < index@.len() ==> (#[trigger] index@[i]).0@.len() == query.0@.len() && distance(
                query.0@,
                index@[i].0@,
            ) <= u32::MAX,
    ensures
        is_leading(distance_keys(query.0@, index@), r@.map_values(|p: (usize, u32)| p.0), k as int),
        forall|i: int| 0 <= i < r@.len() ==> (#[trigger] r@[i]).1 == distance(query.0@, index@[r@[i].0 as int].0@),
{
    if k == 0 {
        let none: Vec<(usize, u32)> = Vec::new();
        assert(none@.map_values(|p: (usize, u32)| p.0) =~= Seq::<usize>::empty());
        return none;
    }
    let mut distances: Vec<u32> = Vec::new();
    let mut keys: Vec<i128> = Vec::new();
    let mut i: usize = 0;
    while i < index.len()
        invariant
            i <= index@.len(),
            forall|j: int|
                0 <= j < index@.len() ==> (#[trigger] index@[j]).0@.len() == query.0@.len() && distance(
                    query.0@,
                    index@[j].0@,
                ) <= u32::MAX,
            distances@.len() == i,
            keys@ =~= distance_keys(query.0@, index@).take(i as int),
            forall|j: int| 0 <= j < i ==> #[trigger] distances@[j] == distance(query.0@, index@[j].0@),
        decreases index@.len() - i,
    {
        let d: u32 = hamming_distance(query, &index[i]);
        distances.push(d);
        keys.push(d as i128);
        i = i + 1;
    }
    assert(keys@ =~= distance_keys(query.0@, index@));
    let picks: Vec<usize> = leading(&keys, k);
    let mut r: Vec<(usize, u32)> = Vec::new();
    let mut j: usize = 0;
    while j < picks.len()
        invariant
            j <= picks@.len(),
            distances@.len() == index@.len(),
            forall|n: int| 0 <= n < picks@.len() ==> #[trigger] picks@[n] < index@.len(),
            forall|n: int| 0 <= n < index@.len() ==> #[trigger] distances@[n] == distance(query.0@, index@[n].0@),
            r@.len() == j,
            forall|n: int| 0 <= n < j ==> (#[trigger] r@[n]).0 == picks@[n],
            forall|n: int| 0 <= n < j ==> (#[trigger] r@[n]).1 == distance(query.0@, index@[r@[n].0 as int].0@),
        decreases picks@.len() - j,
    {
        r.push((picks[j], distances[picks[j]]));
        j = j + 1;
    }
    assert(r@.map_values(|p: (usize, u32)| p.0) =~= picks@);
    r
}

proof fn lemma_ones_bound(n: nat)
    requires
        n < 256,
    ensures
        ones(n) <= 8,
{
    reveal_with_fuel(ones, 9);
}

/// Two byte sequences differ in at most all their bits.
pub proof fn law_distance_bound(a: Seq<u8>, b: Seq<u8>)
    requires
        a.len() == b.len(),
    ensures
        distance(a, b) <= 8 * a.len(),
    decreases a.len(),
{
    if a.len() > 0 {
        law_distance_bound(a.drop_last(), b.drop_last());
        lemma_ones_bound((a.last() ^ b.last()) as nat);
    }
}

/// The distance does not depend on the order of the two.
pub proof fn law_distance_symmetric(a: Seq<u8>, b: Seq<u8>)
    requires
        a.len() == b.len(),
    ensures
        distance(a, b) == distance(b, a),
    decreases a.len(),
{
    if a.len() > 0 {
        law_distance_symmetric(a.drop_last(), b.drop_last());
        let (x, y) = (a.last(), b.last());
        assert(x ^ y == y ^ x) by (bit_vector);
    }
}

/// The distance is zero exactly between equal sequences.
pub proof fn law_distance_zero(a: Seq<u8>, b: Seq<u8>)
    requires
        a.len() == b.len(),
    ensures
        distance(a, b) == 0 <==> a == b,
    decreases a.len(),
{
    if a.len() > 0 {
        law_distance_zero(a.drop_last(), b.drop_last());
        let (x, y) = (a.last(), b.last());
        let z = x ^ y;
        assert(z == 0u8 <==> x == y) by (bit_vector)
            requires
                z == x ^ y,
        ;
        lemma_ones_zero(z as nat);
        if distance(a, b) == 0 {
            assert(a =~= a.drop_last().push(x));
            assert(b =~= b.drop_last().push(y));
        }
    } else {
        assert(a =~= b);
    }
}

proof fn lemma_ones_zero(n: nat)
    ensures
        ones(n) == 0 <==> n == 0,
    decreases n,
{
    if n > 0 {
        lemma_ones_zero(n / 2);
    }
}

/// The distance of two bytes is the number of places at which their bits differ, and the distance
/// of sequences is that of their parts together.
pub proof fn law_distance_counts_bits(a: Seq<u8>, b: Seq<u8>, c: Seq<u8>, d: Seq<u8>, x: u8, y: u8)
    requires
        a.len() == b.len(),
        c.len() == d.len(),
    ensures
        distance(a + c, b + d) == distance(a, b) + distance(c, d),
        distance(seq![x], seq![y]) == differs_at(x, y, 0) + differs_at(x, y, 1) + differs_at(x, y, 2) + differs_at(x, y, 3)
            + differs_at(x, y, 4) + differs_at(x, y, 5) + differs_at(x, y, 6) + differs_at(x, y, 7),
    decreases c.len(),
{
    if c.len() == 0 {
        assert(a + c =~= a && b + d =~= b);
    } else {
        law_distance_counts_bits(a, b, c.drop_last(), d.drop_last(), x, y);
        assert((a + c).drop_last() =~= a + c.drop_last());
        assert((b + d).drop_last() =~= b + d.drop_last());
    }
    let (one, other) = (seq![x], seq![y]);
    assert(one.drop_last() =~= Seq::empty());
    assert(distance(one.drop_last(), other.drop_last()) == 0);
    let z = x ^ y;
    assert(z % 2 == (z >> 0u8) & 1u8 && (z / 2) % 2 == (z >> 1u8) & 1u8 && (z / 4) % 2 == (z >> 2u8) & 1u8 && (z / 8) % 2
        == (z >> 3u8) & 1u8 && (z / 16) % 2 == (z >> 4u8) & 1u8 && (z / 32) % 2 == (z >> 5u8) & 1u8 && (z / 64) % 2 == (z
        >> 6u8) & 1u8 && (z / 128) % 2 == (z >> 7u8) & 1u8) by (bit_vector);
    assert forall|j: u8| j < 8 implies differs_at(x, y, j as int) == (#[trigger] (z >> j) & 1u8) by {
        assert(((z >> j) & 1u8 == 1u8) == (((x >> j) & 1u8 == 1u8) != ((y >> j) & 1u8 == 1u8)) && ((z >> j) & 1u8 == 1u8 || (
        z >> j) & 1u8 == 0u8)) by (bit_vector)
            requires
                z == x ^ y,
        ;
    }
    assert(differs_at(x, y, 0) == (z >> 0u8) & 1u8);
    assert(differs_at(x, y, 1) == (z >> 1u8) & 1u8);
    assert(differs_at(x, y, 2) == (z >> 2u8) & 1u8);
    assert(differs_at(x, y, 3) == (z >> 3u8) & 1u8);
    assert(differs_at(x, y, 4) == (z >> 4u8) & 1u8);
    assert(differs_at(x, y, 5) == (z >> 5u8) & 1u8);
    assert(differs_at(x, y, 6) == (z >> 6u8) & 1u8);
    assert(differs_at(x, y, 7) == (z >> 7u8) & 1u8);
    lemma_ones_of_byte(z as nat);
}

/// One where the bits at a place differ, else zero.
pub open spec fn differs_at(x: u8, y: u8, j: int) -> nat {
    if bit(x, j) != bit(y, j) {
        1
    } else {
        0
    }
}

proof fn lemma_ones_of_byte(z: nat)
    requires
        z < 256,
    ensures
        ones(z) == z % 2 + (z / 2) % 2 + (z / 4) % 2 + (z / 8) % 2 + (z / 16) % 2 + (z / 32) % 2 + (z / 64) % 2 + (z
            / 128) % 2,
{
    reveal_with_fuel(ones, 9);
    let (a, b, c) = (z / 2, z / 4, z / 8);
    assert(a / 2 == b && b / 2 == c && c / 2 == z / 16 && (z / 16) / 2 == z / 32 && (z / 32) / 2 == z / 64 && (z / 64) / 2
        == z / 128 && (z / 128) / 2 == 0);
}

} // verus!
