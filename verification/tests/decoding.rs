use exp_golomb::{ExpGolombDecoder, ExpGolombReader};

#[test]
fn decoder_empty_buffer() {
    assert!(ExpGolombDecoder::new(&[], 0).is_none());
}

#[test]
fn decoder_start_bit_validity() {
    let data = [0b01000000];
    for i in 0..=7 {
        assert!(ExpGolombDecoder::new(&data, i).is_some());
    }
    assert!(ExpGolombDecoder::new(&data, 8).is_none());
}

#[test]
fn decoder_shifted_data() {
    let data: [(&[u8], u32, Option<u64>); 9] = [
        (&[0b01000000], 0, Some(1)),
        (&[0b00100000], 1, Some(1)),
        (&[0b00010000], 2, Some(1)),
        (&[0b00001000], 3, Some(1)),
        (&[0b00000100], 4, Some(1)),
        (&[0b00000010], 5, Some(1)),
        (&[0b00000001], 6, None),
        (&[0b00000001, 0], 6, Some(1)),
        (&[0b00000000, 0b10000000], 7, Some(1)),
    ];

    for (buf, start, ans) in data {
        let mut reader = ExpGolombDecoder::new(buf, start).unwrap();
        let res = reader.next_unsigned();
        assert_eq!(res, ans);
    }
}

#[test]
fn mix_next_unsigned_with_next_bit() {
    let data = [0b01010101];
    let mut reader = ExpGolombDecoder::new(&data, 0).unwrap();
    assert_eq!(reader.next_unsigned(), Some(1));
    assert_eq!(reader.next_bit(), Some(1));
    assert_eq!(reader.next_unsigned(), Some(1));
    assert_eq!(reader.next_bit(), Some(1));
}

#[test]
fn lib_empty_buffer() {
    assert!(ExpGolombReader::new(&[], 0).is_none());
}

#[test]
fn lib_start_bit_validity() {
    let data = [0b01000000];
    for i in 0..=7 {
        assert!(ExpGolombReader::new(&data, i).is_some());
    }
    assert!(ExpGolombReader::new(&data, 8).is_none());
}

#[test]
fn lib_shifted_data() {
    let data: Vec<(&[u8], u8, Option<u64>)> = vec![
        (&[0b01000000], 0, Some(1)),
        (&[0b00100000], 1, Some(1)),
        (&[0b00010000], 2, Some(1)),
        (&[0b00001000], 3, Some(1)),
        (&[0b00000100], 4, Some(1)),
        (&[0b00000010], 5, Some(1)),
        (&[0b00000001], 6, None),
        (&[0b00000001, 0], 6, Some(1)),
        (&[0b00000000, 0b10000000], 7, Some(1)),
    ];

    for (buf, start, ans) in data {
        let mut exp_golomb = ExpGolombReader::new(buf, start).unwrap();
        let res = exp_golomb.next_unsigned();
        assert_eq!(res, ans);
    }
}

#[test]
fn single_codeword() {
    let data = [0b01000000];
    let mut reader = ExpGolombDecoder::new(&data, 0).unwrap();
    assert_eq!(reader.next_unsigned(), Some(1));
}

#[test]
fn unsigned_sequence_then_end_of_stream() {
    // 010               - 1
    // 00110             - 5
    // 00000000111111111 - 510
    // 00101             - 4
    // 01                - missing 1 more bit
    let data = [0b01000110, 0b00000000, 0b11111111, 0b10010101];
    let mut reader = ExpGolombDecoder::new(&data, 0).unwrap();
    assert_eq!(reader.next_unsigned(), Some(1));
    assert_eq!(reader.next_unsigned(), Some(5));
    assert_eq!(reader.next_unsigned(), Some(510));
    assert_eq!(reader.next_unsigned(), Some(4));
    assert_eq!(reader.next_unsigned(), None);
    assert_eq!(reader.next_unsigned(), None);
}

#[test]
fn signed_sequence_then_end_of_stream() {
    let data = [0b10100110, 0b01000010, 0b10011000, 0b11100010, 0b00000100, 0b10000000];
    let mut reader = ExpGolombDecoder::new(&data, 0).unwrap();
    assert_eq!(reader.next_signed(), Some(0));
    assert_eq!(reader.next_signed(), Some(1));
    assert_eq!(reader.next_signed(), Some(-1));
    assert_eq!(reader.next_signed(), Some(2));
    assert_eq!(reader.next_signed(), Some(-2));
    assert_eq!(reader.next_signed(), Some(3));
    assert_eq!(reader.next_signed(), Some(-3));
    assert_eq!(reader.next_signed(), Some(4));
    assert_eq!(reader.next_signed(), Some(-4));
    assert_eq!(reader.next_signed(), None);
    assert_eq!(reader.next_signed(), None);
}

#[test]
fn next_bit_reads_raw_bits() {
    let data = [0b01010101];
    let mut reader = ExpGolombDecoder::new(&data, 4).unwrap();
    assert_eq!(reader.next_bit(), Some(0));
    assert_eq!(reader.next_bit(), Some(1));
    assert_eq!(reader.next_bit(), Some(0));
    assert_eq!(reader.next_bit(), Some(1));
    assert_eq!(reader.next_bit(), None);
    assert_eq!(reader.next_bit(), None);
}

#[test]
fn boundary_64_bit_prefix_decodes_max() {
    let data = [
        0b00000000, 0b00000000, 0b00000000, 0b00000000, 0b00000000, 0b00000000, 0b00000000,
        0b00000000, 0b00000001, 0b11111111, 0b11111111, 0b11111111, 0b11111111, 0b11111111,
        0b11111111, 0b11111111, 0b11111111,
    ];
    // From offset 7: 64 zeros, the terminating one, then 64 one bits.
    let mut reader = ExpGolombDecoder::new(&data, 7).unwrap();
    assert_eq!(reader.next_unsigned(), Some(u64::MAX));

    // From offset 6 the prefix holds 65 zeros: overflow, not a value.
    let mut reader = ExpGolombDecoder::new(&data, 6).unwrap();
    assert_eq!(reader.next_unsigned(), None);
}

#[test]
fn boundary_signed_min() {
    let data = [
        0b00000000, 0b00000000, 0b00000000, 0b00000000, 0b00000000, 0b00000000, 0b00000000,
        0b00000000, 0b00000001, 0b11111111, 0b11111111, 0b11111111, 0b11111111, 0b11111111,
        0b11111111, 0b11111111, 0b11111111,
    ];
    let mut reader = ExpGolombDecoder::new(&data, 7).unwrap();
    assert_eq!(reader.next_signed(), Some(i64::MIN));

    let mut reader = ExpGolombDecoder::new(&data, 6).unwrap();
    assert_eq!(reader.next_signed(), None);
}

#[test]
fn skip_lands_on_next_codeword() {
    let data = [0b01001001, 0b00110000];
    let mut reader = ExpGolombDecoder::new(&data, 0).unwrap();
    reader.skip_next();
    reader.skip_next();
    reader.skip_next();
    assert_eq!(reader.next_unsigned(), Some(2));
    reader.skip_next();
    assert_eq!(reader.next_unsigned(), None);
    reader.skip_next();
    assert_eq!(reader.next_unsigned(), None);
}

#[test]
fn reader_skip_reports_truncation() {
    let data = [0b01001001, 0b00110000];
    let mut reader = ExpGolombReader::new(&data, 0).unwrap();
    assert_eq!(reader.skip_next(), Some(()));
    assert_eq!(reader.skip_next(), Some(()));
    assert_eq!(reader.skip_next(), Some(()));
    assert_eq!(reader.next_unsigned(), Some(2));
    assert_eq!(reader.skip_next(), None);
    assert_eq!(reader.skip_next(), None);
}
