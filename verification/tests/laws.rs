use binary_writer::bit_decoder::{decode, BitDecoder};
use binary_writer::bit_encoder::{generate_test_output_validation, BitEncoder};

fn flushed(words: &[(u16, u8)]) -> Vec<u8> {
    let mut encoder = BitEncoder::new();
    for &(value, width) in words {
        encoder.encode_bits(value, width);
    }
    encoder.flush();
    encoder.into_bytes()
}

#[test]
fn byte_count_is_bits_over_eight_rounded_up() {
    assert_eq!(flushed(&[]).len(), 0);
    assert_eq!(flushed(&[(1, 1)]).len(), 1);
    assert_eq!(flushed(&[(0xff, 8)]).len(), 1);
    assert_eq!(flushed(&[(0xff, 8), (1, 1)]).len(), 2);
    assert_eq!(flushed(&[(5, 3), (9, 11), (1, 16), (0, 2)]).len(), 4);
    assert_eq!(flushed(&[(5, 3), (9, 11), (1, 16), (0, 3)]).len(), 5);
}

#[test]
fn padding_bits_are_zero() {
    assert_eq!(flushed(&[(0b1, 1)]), vec![0b1000_0000]);
    assert_eq!(flushed(&[(0b111, 3)]), vec![0b1110_0000]);
    assert_eq!(flushed(&[(0xffff, 16), (0b11, 2)]), vec![0xff, 0xff, 0b1100_0000]);
    assert_eq!(flushed(&[(0x7f, 7)]), vec![0b1111_1110]);
}

#[test]
fn joined_calls_give_the_same_bytes() {
    let a: u16 = 0b101;
    let b: u16 = 0b0110011;
    let joined: u16 = (a << 7) | b;
    assert_eq!(flushed(&[(a, 3), (b, 7)]), flushed(&[(joined, 10)]));
    assert_eq!(flushed(&[(1, 1), (a, 3), (b, 7)]), flushed(&[(1, 1), (joined, 10)]));
    assert_eq!(flushed(&[(joined, 10)]), vec![0b1010_1100, 0b1100_0000]);
}

#[test]
fn split_calls_give_the_same_bytes() {
    let value: u16 = 0xbeef;
    let whole = flushed(&[(0b11, 2), (value, 16)]);
    for lead in 0..=16u8 {
        let rest = 16 - lead;
        let head = if lead == 0 { 0 } else { value >> rest };
        assert_eq!(flushed(&[(0b11, 2), (head, lead), (value, rest)]), whole);
    }
    assert_eq!(whole, vec![0b1110_1111, 0b1011_1011, 0b1100_0000]);
}

#[test]
fn bits_above_the_width_are_ignored() {
    assert_eq!(flushed(&[(0xffff, 3)]), flushed(&[(0b111, 3)]));
    assert_eq!(flushed(&[(0xfff5, 4)]), vec![0b0101_0000]);
    assert_eq!(flushed(&[(1, 1), (0xabcd, 11)]), flushed(&[(1, 1), (0xabcd & 0x7ff, 11)]));
    assert_eq!(flushed(&[(0xabcd, 16)]), vec![0xab, 0xcd]);
}

#[test]
fn width_zero_writes_nothing() {
    assert_eq!(flushed(&[(0xffff, 0)]), Vec::<u8>::new());
    assert_eq!(flushed(&[(1, 1), (0xffff, 0), (1, 1)]), vec![0b1100_0000]);
}

#[test]
fn writes_that_cross_byte_boundaries() {
    // 5 bits pending, then 16 bits: tail of a byte, one whole byte, head of a new one.
    let mut encoder = BitEncoder::new();
    encoder.encode_bits(0b10101, 5);
    assert_eq!(encoder.bits_filled(), 5);
    assert_eq!(encoder.current_byte(), 0b1010_1000);
    assert_eq!(encoder.bytes(), Vec::<u8>::new());
    encoder.encode_bits(0b1100_0011_1010_0101, 16);
    assert_eq!(encoder.bytes(), vec![0b1010_1110, 0b0001_1101]);
    assert_eq!(encoder.bits_filled(), 5);
    assert_eq!(encoder.current_byte(), 0b0010_1000);
    encoder.encode_bits(0b111, 3);
    assert_eq!(encoder.bytes(), vec![0b1010_1110, 0b0001_1101, 0b0010_1111]);
    assert_eq!(encoder.bits_filled(), 0);
    assert_eq!(encoder.current_byte(), 0);
}

#[test]
fn flush_on_a_byte_boundary_changes_nothing() {
    let mut encoder = BitEncoder::new();
    encoder.flush();
    assert_eq!(encoder.bytes(), Vec::<u8>::new());
    encoder.encode_bits(0xa5, 8);
    encoder.flush();
    encoder.flush();
    assert_eq!(encoder.bytes(), vec![0xa5]);
    assert_eq!(encoder.bits_filled(), 0);
}

#[test]
fn encoding_after_flush_starts_a_fresh_byte() {
    let mut encoder = BitEncoder::new();
    encoder.encode_bits(0b11, 2);
    encoder.flush();
    encoder.encode_bits(0b101, 3);
    assert_eq!(encoder.bytes(), vec![0b1100_0000]);
    assert_eq!(encoder.current_byte(), 0b1010_0000);
    encoder.flush();
    assert_eq!(encoder.bytes(), vec![0b1100_0000, 0b1010_0000]);
}

#[test]
fn default_encoder_is_empty() {
    let encoder = BitEncoder::default();
    assert_eq!(encoder.bits_filled(), 0);
    assert_eq!(encoder.current_byte(), 0);
    assert_eq!(encoder.into_bytes(), Vec::<u8>::new());
}

#[test]
fn code_table_examples() {
    let encode = |values: &[u16]| {
        let mut encoder = BitEncoder::new();
        encoder.encode(values);
        encoder.flush();
        encoder.into_bytes()
    };
    assert_eq!(encode(&[42]), vec![0b11100101, 0b01000000]);
    assert_eq!(encode(&[42, 1000]), vec![0b11100101, 0b01011110, 0b11111010, 0b00000000]);
    assert_eq!(encode(&[0]), vec![0b00000000]);
    assert_eq!(encode(&[1, 1]), vec![0b11011000]);
    assert_eq!(encode(&[65535]), vec![0b10000000]);
    assert_eq!(encode(&[128]), vec![0b11110001, 0b00000000]);
    assert_eq!(encode(&[127]), vec![0b11101111, 0b11100000]);
    assert_eq!(encode(&[2047]), vec![0b11111111, 0b11111110]);
    assert_eq!(encode(&[]), Vec::<u8>::new());
}

#[test]
fn counts_above_the_field_keep_their_low_bits() {
    assert_eq!(generate_test_output_validation(&[2048]), vec![0b11110000, 0b00000000]);
    assert_eq!(decode(&[0b11110000, 0b00000000], 1), Some(vec![0]));
    let mut encoder = BitEncoder::new();
    encoder.encode(&[2048 + 5]);
    encoder.flush();
    assert_eq!(encoder.bytes(), vec![0b11110000, 0b00001010]);
    assert_eq!(decode(encoder.bytes(), 1), Some(vec![5]));
}

#[test]
fn plain_packing_agrees_with_the_encoder() {
    let inputs: [&[u16]; 5] =
        [&[], &[0], &[1, 0, 65535, 2, 127, 128, 2047], &[3000, 65534, 7], &[65535; 9]];
    for input in inputs {
        let mut encoder = BitEncoder::new();
        encoder.encode(input);
        encoder.flush();
        assert_eq!(encoder.bytes(), generate_test_output_validation(input));
    }
    assert_eq!(generate_test_output_validation(&[42]), vec![0b11100101, 0b01000000]);
}

#[test]
fn decoding_gives_the_counts_back() {
    let values: Vec<u16> = vec![0, 1, 2, 65535, 127, 128, 1000, 2047, 0, 0, 1, 42];
    let mut encoder = BitEncoder::new();
    encoder.encode(&values);
    encoder.flush();
    assert_eq!(decode(encoder.bytes(), values.len()), Some(values.clone()));
    assert_eq!(decode(encoder.bytes(), 3), Some(vec![0, 1, 2]));
    assert_eq!(decode(&[], 0), Some(vec![]));
}

#[test]
fn decoding_every_representable_count() {
    for value in (0..=2047u16).chain([65535]) {
        let bytes = generate_test_output_validation(&[value, value]);
        assert_eq!(decode(&bytes, 2), Some(vec![value, value]));
    }
}

#[test]
fn decoding_stops_where_the_bytes_end() {
    assert_eq!(decode(&[], 1), None);
    assert_eq!(decode(&[0b1110_0101], 1), None);
    assert_eq!(decode(&[0b1111_0001], 1), None);
    assert_eq!(decode(&[0b1111_1111], 1), None);
    assert_eq!(decode(&[0b1000_0000], 8), None);
    assert_eq!(decode(&[0b1000_0000], 7), Some(vec![65535, 0, 0, 0, 0, 0, 0]));
}

#[test]
fn reader_takes_bits_in_order() {
    let bytes = [0b1010_1100, 0b1100_0000];
    let mut reader = BitDecoder::new(&bytes);
    assert_eq!(reader.decode_bits(3), Some(0b101));
    assert_eq!(reader.decode_bits(7), Some(0b0110011));
    assert_eq!(reader.decode_bits(0), Some(0));
    assert_eq!(reader.decode_bits(7), None);
    assert_eq!(reader.decode_bits(6), Some(0));
    assert_eq!(reader.decode_bits(1), None);
    let mut reader = BitDecoder::new(&bytes);
    assert_eq!(reader.decode_bits(16), Some(0b1010_1100_1100_0000));
}

#[test]
fn reader_takes_counts_in_order() {
    let bytes = [0b0101_1011, 0b1000_0001, 0b0111_1011, 0b1110_1000];
    let mut reader = BitDecoder::new(&bytes);
    assert_eq!(reader.decode_value(), Some(0));
    assert_eq!(reader.decode_value(), Some(65535));
    assert_eq!(reader.decode_value(), Some(1));
    assert_eq!(reader.decode_value(), Some(2));
    assert_eq!(reader.decode_value(), Some(1000));
    assert_eq!(reader.decode_value(), None);
    assert_eq!(reader.decode_bits(1), None);
}

#[test]
fn reader_reads_nothing_of_a_cut_code_word() {
    // `1110` and four of the seven value bits, then the bytes end.
    let bytes = [0b1110_0101];
    let mut reader = BitDecoder::new(&bytes);
    assert_eq!(reader.decode_value(), None);
    assert_eq!(reader.decode_bits(8), Some(0b1110_0101));
}
