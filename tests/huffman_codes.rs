use canonical_huffman::canonical::{canonical_symbols, compute_decodings, compute_encodings, lens_table_is_valid};
use canonical_huffman::lengths::compute_canonical_lens;
use canonical_huffman::{Bits, HuffmanDecoder, HuffmanEncoder};

fn kraft_sum_scaled(lens: &[u8]) -> u64 {
    lens.iter()
        .filter(|&&l| l > 0)
        .map(|&l| 1u64 << (16 - l as u32))
        .sum()
}

fn round_trip_all(weights: &[u32], max_len: u8) {
    let enc = HuffmanEncoder::from_symbol_weights(weights, max_len).unwrap();
    let lens = enc.get_canonical_lens().to_vec();
    let dec = HuffmanDecoder::from_canonical_lens(&lens);
    let mut bits = Bits::new();
    let mut written = Vec::new();
    for (s, &w) in weights.iter().enumerate() {
        if w > 0 {
            enc.encode_to_bits(s as u16, &mut bits);
            written.push(s as u16);
        }
    }
    let longest = *lens.iter().max().unwrap();
    bits.put(longest, 0);
    for &s in &written {
        let before = bits.position();
        assert_eq!(dec.decode_from_bits(&mut bits), s);
        assert_eq!(bits.position() - before, lens[s as usize] as usize);
    }
}

#[test]
fn four_symbols_get_lengths_1_3_3_2() {
    let enc = HuffmanEncoder::from_symbol_weights(&[5, 1, 1, 1], 3).unwrap();
    assert_eq!(enc.get_canonical_lens(), &[1, 3, 3, 2]);
}

#[test]
fn four_symbols_write_their_lengths_and_round_trip() {
    let enc = HuffmanEncoder::from_symbol_weights(&[5, 1, 1, 1], 3).unwrap();
    let dec = HuffmanDecoder::from_canonical_lens(enc.get_canonical_lens());
    let expected_bits = [1usize, 3, 3, 2];
    for s in 0..4u16 {
        let mut bits = Bits::new();
        enc.encode_to_bits(s, &mut bits);
        assert_eq!(bits.len(), expected_bits[s as usize]);
        bits.put(3, 0);
        assert_eq!(dec.decode_from_bits(&mut bits), s);
        assert_eq!(bits.position(), expected_bits[s as usize]);
    }
}

#[test]
fn four_symbols_have_canonical_codes() {
    // Order by (length, symbol): 0 (1 bit), 3 (2 bits), 1 and 2 (3 bits).
    assert_eq!(compute_encodings(&[1, 3, 3, 2]), vec![0b0, 0b110, 0b111, 0b10]);
    assert_eq!(canonical_symbols(&[1, 3, 3, 2]), vec![0, 3, 1, 2]);
}

#[test]
fn four_symbols_written_bits_are_the_codes() {
    let enc = HuffmanEncoder::from_symbol_weights(&[5, 1, 1, 1], 3).unwrap();
    let mut bits = Bits::new();
    enc.encode_to_bits(1, &mut bits);
    assert_eq!(bits.peek(3), 0b110);
    enc.encode_to_bits(3, &mut bits);
    bits.skip(3);
    assert_eq!(bits.peek(2), 0b10);
}

#[test]
fn decode_table_covers_every_slot() {
    let lens = [1u8, 3, 3, 2];
    let codes = compute_encodings(&lens);
    let table = compute_decodings(&lens, &codes, 3);
    assert_eq!(table, vec![0, 0, 0, 0, 3, 3, 1, 2]);
}

#[test]
fn decoder_reads_every_three_bit_pattern() {
    let dec = HuffmanDecoder::from_canonical_lens(&[1, 3, 3, 2]);
    let expected = [(0u16, 1usize), (0, 1), (0, 1), (0, 1), (3, 2), (3, 2), (1, 3), (2, 3)];
    for v in 0..8u64 {
        let mut bits = Bits::new();
        bits.put(3, v);
        let (sym, used) = expected[v as usize];
        assert_eq!(dec.decode_from_bits(&mut bits), sym);
        assert_eq!(bits.position(), used);
    }
}

#[test]
fn too_many_symbols_for_the_limit_fail() {
    // Five symbols cannot have distinct prefix-free codes of at most 2 bits.
    assert!(HuffmanEncoder::from_symbol_weights(&[1, 2, 3, 4, 5], 2).is_none());
    assert!(compute_canonical_lens(&[9, 9, 9, 9, 9], 2).is_none());
}

#[test]
fn shrinking_weights_fits_a_deep_tree() {
    // The plain Huffman tree of these weights is 5 deep.
    assert_eq!(compute_canonical_lens(&[1, 2, 4, 8, 16, 32], 5).unwrap(), vec![5, 5, 4, 3, 2, 1]);
    let lens = compute_canonical_lens(&[1, 2, 4, 8, 16, 32], 3).unwrap();
    assert_eq!(lens, vec![3, 3, 3, 3, 2, 2]);
    assert_eq!(kraft_sum_scaled(&lens), 1 << 16);
    round_trip_all(&[1, 2, 4, 8, 16, 32], 3);
}

#[test]
fn exactly_fitting_limit_succeeds() {
    let lens = compute_canonical_lens(&[1, 1, 1, 1], 2).unwrap();
    assert_eq!(lens, vec![2, 2, 2, 2]);
    let lens = compute_canonical_lens(&[1, 100, 10000, 1000000], 2).unwrap();
    assert_eq!(lens, vec![2, 2, 2, 2]);
}

#[test]
fn no_active_symbols_give_zero_lengths() {
    assert_eq!(compute_canonical_lens(&[0, 0, 0], 4).unwrap(), vec![0, 0, 0, 0]);
    assert_eq!(compute_canonical_lens(&[], 4).unwrap(), Vec::<u8>::new());
}

#[test]
fn one_active_symbol_gets_one_bit() {
    let enc = HuffmanEncoder::from_symbol_weights(&[0, 0, 7], 4).unwrap();
    assert_eq!(enc.get_canonical_lens(), &[0, 0, 1, 0]);
    let dec = HuffmanDecoder::from_canonical_lens(enc.get_canonical_lens());
    for v in 0..2u64 {
        let mut bits = Bits::new();
        bits.put(1, v);
        assert_eq!(dec.decode_from_bits(&mut bits), 2);
        assert_eq!(bits.position(), 1);
    }
    let mut bits = Bits::new();
    enc.encode_to_bits(2, &mut bits);
    assert_eq!(bits.len(), 1);
    assert_eq!(bits.peek(1), 0);
}

#[test]
fn odd_alphabet_is_padded_to_even() {
    let lens = compute_canonical_lens(&[3, 1, 1], 4).unwrap();
    assert_eq!(lens.len(), 4);
    assert_eq!(lens[3], 0);
    assert_eq!(lens, vec![1, 2, 2, 0]);
    let lens = compute_canonical_lens(&[3, 1], 4).unwrap();
    assert_eq!(lens, vec![1, 1]);
}

#[test]
fn zero_weight_symbols_get_no_code() {
    let lens = compute_canonical_lens(&[4, 0, 2, 0, 1, 1], 8).unwrap();
    assert_eq!(lens, vec![1, 0, 2, 0, 3, 3]);
}

#[test]
fn lengths_respect_limit_and_kraft() {
    let weights: Vec<u32> = (0..40u32).map(|i| (i * 7919 + 13) % 1000 + if i % 5 == 0 { 50000 } else { 0 }).collect();
    for max_len in 6..=16u8 {
        let lens = compute_canonical_lens(&weights, max_len).unwrap();
        assert_eq!(lens.len(), 40);
        assert!(lens.iter().all(|&l| l >= 1 && l <= max_len));
        assert_eq!(kraft_sum_scaled(&lens), 1 << 16);
        round_trip_all(&weights, max_len);
    }
}

#[test]
fn codes_ascend_in_canonical_order() {
    let weights: Vec<u32> = (1..=20u32).map(|i| i * i).collect();
    let lens = compute_canonical_lens(&weights, 7).unwrap();
    let codes = compute_encodings(&lens);
    let order = canonical_symbols(&lens);
    assert_eq!(order.len(), 20);
    for k in 1..order.len() {
        let (a, b) = (order[k - 1], order[k]);
        assert!((lens[a], a) < (lens[b], b));
        let expected = (codes[a] as u32 + 1) << (lens[b] - lens[a]);
        assert_eq!(codes[b] as u32, expected);
    }
}

#[test]
fn decoder_width_is_the_longest_length() {
    let dec = HuffmanDecoder::from_canonical_lens(&[2, 2, 1, 0]);
    for v in 0..4u64 {
        let mut bits = Bits::new();
        bits.put(2, v);
        let expected = [2u16, 2, 0, 1][v as usize];
        assert_eq!(dec.decode_from_bits(&mut bits), expected);
    }
}

#[test]
fn bits_put_and_peek() {
    let mut bits = Bits::new();
    bits.put(4, 0b1011);
    bits.put(3, 0b001);
    assert_eq!(bits.len(), 7);
    assert_eq!(bits.peek(4), 0b1011);
    assert_eq!(bits.peek(7), 0b1011001);
    assert_eq!(bits.peek(9), 0b101100100);
    bits.skip(4);
    assert_eq!(bits.position(), 4);
    assert_eq!(bits.peek(3), 0b001);
    bits.put(0, 0);
    assert_eq!(bits.len(), 7);
}

#[test]
fn sixteen_bit_codes() {
    // A complete code with lengths up to 16: 1, 2, ..., 15, 16, 16.
    let mut lens: Vec<u8> = (1..=16u8).collect();
    lens.push(16);
    assert_eq!(kraft_sum_scaled(&lens), 1 << 16);
    let codes = compute_encodings(&lens);
    assert_eq!(codes[0], 0);
    assert_eq!(codes[15], 0xFFFE);
    assert_eq!(codes[16], 0xFFFF);
    let dec = HuffmanDecoder::from_canonical_lens(&lens);
    let mut bits = Bits::new();
    bits.put(16, 0xFFFF);
    assert_eq!(dec.decode_from_bits(&mut bits), 16);
    assert_eq!(bits.position(), 16);
}

#[test]
fn received_tables_are_checked() {
    assert!(lens_table_is_valid(&[1, 3, 3, 2]));
    assert!(lens_table_is_valid(&[0, 0]));
    assert!(lens_table_is_valid(&[0, 1, 0]));
    assert!(!lens_table_is_valid(&[1, 1, 1]));
    assert!(!lens_table_is_valid(&[17, 1]));
    assert!(!lens_table_is_valid(&[]));
}

#[test]
fn several_codes_in_a_row_decode_in_order() {
    let enc = HuffmanEncoder::from_symbol_weights(&[5, 1, 1, 1], 3).unwrap();
    let dec = HuffmanDecoder::from_canonical_lens(enc.get_canonical_lens());
    let message = [3u16, 0, 0, 2, 1, 3, 0];
    let mut bits = Bits::new();
    for &s in &message {
        enc.encode_to_bits(s, &mut bits);
    }
    assert_eq!(bits.len(), 2 + 1 + 1 + 3 + 3 + 2 + 1);
    bits.put(3, 0);
    let mut expected_position = 0;
    for &s in &message {
        assert_eq!(dec.decode_from_bits(&mut bits), s);
        expected_position += enc.get_canonical_lens()[s as usize] as usize;
        assert_eq!(bits.position(), expected_position);
    }
}
