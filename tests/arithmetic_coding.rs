use arith_coder::{
    arithmetic_decode, arithmetic_encode, example_get_probability_fixed, ArithmeticCodingError,
    ContextContent,
};

/// A small deterministic generator for test inputs (xorshift64).
fn generate_random_bits(length: usize, seed: u64) -> Vec<u8> {
    let mut state = seed | 1;
    let bytes = (length + 7) / 8;
    let mut bits = vec![0u8; bytes];
    for i in 0..length {
        state ^= state << 13;
        state ^= state >> 7;
        state ^= state << 17;
        let byte = i / 8;
        let bit = 7 - (i % 8);
        bits[byte] |= ((state & 1) as u8) << bit;
    }
    bits
}

fn round_trip(input_bits: &[u8], input_length: usize, context_length: usize) -> Vec<u8> {
    let encoded = arithmetic_encode(
        input_bits,
        input_length,
        context_length,
        example_get_probability_fixed,
    )
    .unwrap();
    assert!(!encoded.is_empty());
    arithmetic_decode(
        &encoded,
        encoded.len(),
        input_length,
        context_length,
        example_get_probability_fixed,
    )
    .unwrap()
}

fn masked(input_bits: &[u8], input_length: usize) -> Vec<u8> {
    let mut expected = input_bits[..(input_length + 7) / 8].to_vec();
    if input_length % 8 != 0 {
        let excess_bits = 8 - (input_length % 8);
        let last_byte_mask = 0xFFu8 << excess_bits;
        if let Some(last_byte) = expected.last_mut() {
            *last_byte &= last_byte_mask;
        }
    }
    expected
}

#[test]
fn test_arithmetic_encode_decode() {
    let input_bits = [0b11001010];
    let input_length = 8;
    let context_length = 4;

    let encoded = arithmetic_encode(
        &input_bits,
        input_length,
        context_length,
        example_get_probability_fixed,
    )
    .unwrap();
    assert!(!encoded.is_empty());

    let decoded = arithmetic_decode(
        &encoded,
        encoded.len(),
        input_length,
        context_length,
        example_get_probability_fixed,
    )
    .unwrap();
    assert_eq!(decoded, input_bits);
}

#[test]
fn test_empty_encode_decode() {
    let input_bits: [u8; 0] = [];
    let input_length = 0;
    let context_length = 4;

    let encoded = arithmetic_encode(
        &input_bits,
        input_length,
        context_length,
        example_get_probability_fixed,
    )
    .unwrap();
    assert_eq!(encoded.len(), 1);

    let decoded = arithmetic_decode(
        &encoded,
        encoded.len(),
        input_length,
        context_length,
        example_get_probability_fixed,
    )
    .unwrap();
    assert_eq!(decoded.len(), 0);
}

#[test]
fn test_single_bit_encode_decode() {
    let input_bits = [0b10000000];
    let input_length = 1;
    let context_length = 4;

    let encoded = arithmetic_encode(
        &input_bits,
        input_length,
        context_length,
        example_get_probability_fixed,
    )
    .unwrap();
    assert!(!encoded.is_empty());

    let decoded = arithmetic_decode(
        &encoded,
        encoded.len(),
        input_length,
        context_length,
        example_get_probability_fixed,
    )
    .unwrap();
    assert_eq!(decoded[0] & 0b10000000, input_bits[0] & 0b10000000);
}

#[test]
fn test_multiple_bytes_encode_decode() {
    let input_bits = [0b11110000, 0b10101010, 0b00001111];
    let decoded = round_trip(&input_bits, 24, 8);
    assert_eq!(decoded, input_bits);
}

#[test]
fn test_arithmetic_encode_decode_random() {
    let input_length = 1024;
    let context_length = 16;
    let input_bits = generate_random_bits(input_length, 0x9E37_79B9_7F4A_7C15);
    let decoded = round_trip(&input_bits, input_length, context_length);
    assert_eq!(decoded, masked(&input_bits, input_length));
}

#[test]
fn test_encode_decode_with_all_zeros() {
    let input_bits = vec![0u8; 8];
    let decoded = round_trip(&input_bits, 64, 8);
    assert_eq!(decoded, input_bits);
}

#[test]
fn test_encode_decode_with_all_ones() {
    let input_bits = vec![0xFFu8; 8];
    let decoded = round_trip(&input_bits, 64, 8);
    assert_eq!(decoded, input_bits);
}

#[test]
fn test_encode_decode_max_context() {
    let input_length = 128;
    let context_length = 256;
    let mut input_bits = vec![0u8; 16];
    for i in 0..input_length {
        if i % 2 == 0 {
            input_bits[i / 8] |= 1 << (7 - (i % 8));
        }
    }
    let decoded = round_trip(&input_bits, input_length, context_length);
    assert_eq!(decoded, input_bits);
}

#[test]
fn test_encode_decode_zero_context() {
    let input_bits = [0b10101010, 0b01010101];
    let decoded = round_trip(&input_bits, 16, 0);
    assert_eq!(decoded, input_bits);
}

#[test]
fn test_encode_decode_various_contexts() {
    let input_length = 64;
    let input_bits = generate_random_bits(input_length, 0x1234_5678_9ABC_DEF1);
    for context_length in [1, 4, 8, 16, 32, 64] {
        let decoded = round_trip(&input_bits, input_length, context_length);
        assert_eq!(decoded, masked(&input_bits, input_length));
    }
}

#[test]
fn empty_input_encodes_to_the_flush_byte() {
    // The flush of the initial interval emits 0 then 1, padded with zeros.
    let encoded = arithmetic_encode(&[], 0, 4, example_get_probability_fixed).unwrap();
    assert_eq!(encoded, vec![0b0100_0000]);
}

#[test]
fn oversize_context_is_rejected_by_both_operations() {
    let input = [0u8; 4];
    let r = arithmetic_encode(&input, 32, 2049, example_get_probability_fixed);
    assert!(matches!(r, Err(ArithmeticCodingError::InvalidInput(_))));
    let r = arithmetic_decode(&input, 4, 32, 2049, example_get_probability_fixed);
    assert!(matches!(r, Err(ArithmeticCodingError::InvalidInput(_))));
}

#[test]
fn largest_context_is_accepted() {
    let input = generate_random_bits(300, 77);
    let decoded = round_trip(&input, 300, 2048);
    assert_eq!(decoded, masked(&input, 300));
}

#[test]
fn too_short_inputs_are_rejected() {
    let r = arithmetic_encode(&[0xAB], 9, 4, example_get_probability_fixed);
    assert!(matches!(r, Err(ArithmeticCodingError::InvalidInput(_))));
    let r = arithmetic_decode(&[0xAB], 2, 8, 4, example_get_probability_fixed);
    assert!(matches!(r, Err(ArithmeticCodingError::InvalidInput(_))));
}

#[test]
fn decode_reads_zeros_past_the_stream() {
    let decoded = arithmetic_decode(&[], 0, 8, 4, example_get_probability_fixed).unwrap();
    assert_eq!(decoded.len(), 1);
    let again = arithmetic_decode(&[0, 0, 0], 3, 8, 4, example_get_probability_fixed).unwrap();
    assert_eq!(decoded, again);
}

#[test]
fn zero_context_estimator_sees_no_ones() {
    let estimator = |c: &ContextContent| {
        assert_eq!(c.count_ones, 0);
        assert_eq!(c.context_length, 0);
        example_get_probability_fixed(c)
    };
    let input = [0xFF, 0x0F];
    let encoded = arithmetic_encode(&input, 16, 0, estimator).unwrap();
    let decoded = arithmetic_decode(&encoded, encoded.len(), 16, 0, estimator).unwrap();
    assert_eq!(decoded, input);
}

#[test]
fn context_counts_track_the_window() {
    // With a window of 3 bits the estimator must see the ones among the
    // last three coded bits.
    let input = [0b1101_0011u8];
    let bits: Vec<u32> = (0..8).map(|i| ((input[0] >> (7 - i)) & 1) as u32).collect();
    let step = std::cell::Cell::new(0usize);
    let estimator = |c: &ContextContent| {
        let i = step.get();
        let from = i.saturating_sub(3);
        let expected: u32 = bits[from..i].iter().sum();
        assert_eq!(c.count_ones, expected);
        step.set(i + 1);
        example_get_probability_fixed(c)
    };
    arithmetic_encode(&input, 8, 3, estimator).unwrap();
    assert_eq!(step.get(), 8);
}

#[test]
fn skewed_inputs_compress() {
    let input = vec![0u8; 128];
    let encoded = arithmetic_encode(&input, 1024, 8, example_get_probability_fixed).unwrap();
    assert!(encoded.len() < 32);
    let decoded = arithmetic_decode(
        &encoded,
        encoded.len(),
        1024,
        8,
        example_get_probability_fixed,
    )
    .unwrap();
    assert_eq!(decoded, input);
}

#[test]
fn partial_last_byte_round_trips() {
    let input = [0b1011_0110, 0b1110_0000];
    let decoded = round_trip(&input, 11, 4);
    assert_eq!(decoded, masked(&input, 11));
}

#[test]
fn round_trip_many_lengths_and_contexts() {
    for seed in 1..60u64 {
        let length = ((seed * 97) % 700) as usize;
        let context_length = ((seed * 13) % 257) as usize;
        let bytes = (length + 7) / 8;
        let mut input = generate_random_bits(length, seed * 0x2545_F491_4F6C_DD1D);
        input.resize(bytes, 0);
        let decoded = round_trip(&input, length, context_length);
        assert_eq!(decoded, masked(&input, length));
    }
}
