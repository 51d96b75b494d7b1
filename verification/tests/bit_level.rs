//! Bit packing, Hamming distances and nibbles.

use turboquant::compression::bitstream::{pack_bits, unpack_bits};
use turboquant::compression::hamming::{hamming_distance, hamming_top_k};
use turboquant::compression::lloyd_max::{bit_mask, pack_indices, unpack_indices};
use turboquant::compression::polarquant::{pack_nibbles, unpack_nibbles};
use turboquant::compression::qjl::BitVector;

#[test]
fn test_identical() {
    let a = BitVector(vec![0b10110011, 0b11001010]);
    let b = BitVector(vec![0b10110011, 0b11001010]);
    assert_eq!(hamming_distance(&a, &b), 0);
}

#[test]
fn test_known_pattern() {
    // Differ in exactly 3 bits
    let a = BitVector(vec![0b00000000]);
    let b = BitVector(vec![0b00000111]);
    assert_eq!(hamming_distance(&a, &b), 3);
}

#[test]
fn test_all_differ() {
    let a = BitVector(vec![0x00]);
    let b = BitVector(vec![0xFF]);
    assert_eq!(hamming_distance(&a, &b), 8);
}

#[test]
fn test_multi_byte_u64_path() {
    // Nine bytes: one whole word and one byte left over
    let a = BitVector(vec![0u8; 9]);
    let b = BitVector(vec![0xFF; 9]);
    assert_eq!(hamming_distance(&a, &b), 72); // 9 * 8
}

#[test]
fn test_top_k() {
    let query = BitVector(vec![0b00000000]);
    let index = vec![
        BitVector(vec![0b11111111]), // dist 8
        BitVector(vec![0b00000001]), // dist 1
        BitVector(vec![0b00000011]), // dist 2
        BitVector(vec![0b01111111]), // dist 7
    ];
    let results = hamming_top_k(&query, &index, 2);
    assert_eq!(results.len(), 2);
    assert_eq!(results[0], (1, 1));
    assert_eq!(results[1], (2, 2));
}

#[test]
fn test_top_k_larger_than_index() {
    let query = BitVector(vec![0x00]);
    let index = vec![BitVector(vec![0x01]), BitVector(vec![0x03])];
    let results = hamming_top_k(&query, &index, 10);
    assert_eq!(results.len(), 2);
}

#[test]
fn top_k_keeps_the_order_of_equal_distances() {
    let query = BitVector(vec![0x00]);
    let index = vec![
        BitVector(vec![0x03]),
        BitVector(vec![0x80]),
        BitVector(vec![0x01]),
        BitVector(vec![0x10]),
    ];
    assert_eq!(hamming_top_k(&query, &index, 3), vec![(1, 1), (2, 1), (3, 1)]);
    assert_eq!(hamming_top_k(&query, &index, 0), vec![]);
    assert_eq!(hamming_top_k(&query, &[], 3), vec![]);
}

#[test]
fn distance_is_symmetric_and_bounded() {
    let a = BitVector(vec![0x0F, 0xA5, 1, 2, 3, 4, 5, 6, 7, 8, 9]);
    let b = BitVector(vec![0xF0, 0x5A, 1, 2, 3, 4, 5, 6, 7, 8, 8]);
    assert_eq!(hamming_distance(&a, &b), 17);
    assert_eq!(hamming_distance(&b, &a), 17);
    assert_eq!(hamming_distance(&a, &a), 0);
    assert!(hamming_distance(&a, &b) <= 88);
    assert_eq!(hamming_distance(&BitVector(vec![]), &BitVector(vec![])), 0);
    assert_eq!(a.byte_len(), 11);
}

#[test]
fn test_pack_unpack_roundtrip() {
    for bits in 1..=8u8 {
        let n = 32;
        let max_val = bit_mask(bits);
        let indices: Vec<u8> = (0..n).map(|i| (i as u8) & max_val).collect();
        let packed = pack_indices(&indices, bits);
        let unpacked = unpack_indices(&packed, n, bits);
        assert_eq!(indices, unpacked, "roundtrip failed for bits={bits}");
    }
}

#[test]
fn packing_is_least_significant_bit_first() {
    assert_eq!(pack_indices(&[5, 7, 2], 3), vec![0b1011_1101, 0b0]);
    assert_eq!(unpack_indices(&[0b1011_1101, 0b0], 3, 3), vec![5, 7, 2]);
    assert_eq!(pack_indices(&[], 4), Vec::<u8>::new());
    assert_eq!(unpack_indices(&[], 0, 4), Vec::<u8>::new());
    assert_eq!(bit_mask(1), 1);
    assert_eq!(bit_mask(3), 7);
    assert_eq!(bit_mask(8), 255);
}

#[test]
fn test_pack_unpack_bits_2() {
    let mut data = vec![0u8; 4];
    pack_bits(&mut data, 0, 3, 2); // 11
    pack_bits(&mut data, 2, 1, 2); // 01
    pack_bits(&mut data, 4, 0, 2); // 00
    pack_bits(&mut data, 6, 2, 2); // 10

    assert_eq!(unpack_bits(&data, 0, 2), 3);
    assert_eq!(unpack_bits(&data, 2, 2), 1);
    assert_eq!(unpack_bits(&data, 4, 2), 0);
    assert_eq!(unpack_bits(&data, 6, 2), 2);
}

#[test]
fn test_pack_unpack_bits_3() {
    let mut data = vec![0u8; 4];
    // Values: 5 (101), 7 (111), 2 (010)
    pack_bits(&mut data, 0, 5, 3);
    pack_bits(&mut data, 3, 7, 3);
    pack_bits(&mut data, 6, 2, 3);

    assert_eq!(unpack_bits(&data, 0, 3), 5);
    assert_eq!(unpack_bits(&data, 3, 3), 7);
    assert_eq!(unpack_bits(&data, 6, 3), 2);
}

#[test]
fn test_pack_unpack_bits_4() {
    let mut data = vec![0u8; 2];
    pack_bits(&mut data, 0, 12, 4);
    pack_bits(&mut data, 4, 5, 4);
    pack_bits(&mut data, 8, 15, 4);

    assert_eq!(unpack_bits(&data, 0, 4), 12);
    assert_eq!(unpack_bits(&data, 4, 4), 5);
    assert_eq!(unpack_bits(&data, 8, 4), 15);
}

#[test]
fn packing_a_field_only_sets_bits() {
    let mut data = vec![0b1000_0001u8, 0b1000_0000];
    pack_bits(&mut data, 6, 0b101, 3);
    assert_eq!(data, vec![0b1100_0001, 0b1000_0001]);
}

#[test]
fn test_pack_unpack_nibbles() {
    let values = vec![3, 12, 7, 15, 0];
    let packed = pack_nibbles(&values);
    let unpacked = unpack_nibbles(&packed, values.len());
    assert_eq!(values, unpacked);
}

#[test]
fn nibbles_fill_the_low_half_first() {
    assert_eq!(pack_nibbles(&[3, 12, 7]), vec![0xC3, 0x07]);
    assert_eq!(unpack_nibbles(&[0xC3, 0x07], 3), vec![3, 12, 7]);
    assert_eq!(pack_nibbles(&[]), Vec::<u8>::new());
}
