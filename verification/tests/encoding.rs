use exp_golomb::ExpGolombEncoder;

#[test]
fn encoder_empty_buffer() {
    assert!(ExpGolombEncoder::new(Vec::new(), 0).is_none());
}

#[test]
fn encoder_start_bit_validity() {
    for i in 0..=7 {
        assert!(ExpGolombEncoder::new(vec![0u8; 1], i).is_some());
    }
    assert!(ExpGolombEncoder::new(vec![0u8; 1], 8).is_none());
}

#[test]
fn encode_zero_through_eight() {
    let buf = vec![0u8; 6];
    let mut writer = ExpGolombEncoder::new(buf, 0).unwrap();
    for i in 0..=8 {
        writer.put_unsigned(i).unwrap();
    }
    let (buf, _, _) = writer.close();
    assert_eq!(
        buf,
        vec![0b10100110, 0b01000010, 0b10011000, 0b11100010, 0b00000100, 0b10000000]
    );
}

#[test]
fn encode_at_offset() {
    let buf = vec![0u8; 1];
    // Write starting at the second bit.
    let mut writer = ExpGolombEncoder::new(buf, 1).unwrap();
    writer.put_unsigned(2).unwrap();
    let (buf, _, _) = writer.close();
    assert_eq!(buf[0], 0b00110000);
}

#[test]
fn encode_full_buffer() {
    let buf = vec![0u8; 1];
    let mut writer = ExpGolombEncoder::new(buf, 0).unwrap();
    assert!(writer.put_unsigned(1).is_some());
    assert!(writer.put_unsigned(1).is_some());
    assert!(writer.put_unsigned(1).is_none());
}

#[test]
fn put_bit_fills_byte() {
    let buf = vec![0u8; 1];
    let mut writer = ExpGolombEncoder::new(buf, 6).unwrap();
    assert!(writer.put_bit(true).is_some());
    assert!(writer.put_bit(false).is_some());
    assert!(writer.put_bit(true).is_none());
    assert!(writer.put_bit(true).is_none());
    let (buf, _, _) = writer.close();
    assert_eq!(buf[0], 0b00000010);
}

#[test]
fn close_reports_position() {
    let buf = vec![0u8; 1];
    let mut writer = ExpGolombEncoder::new(buf, 2).unwrap();
    writer.put_unsigned(0).unwrap();
    let (_, index, bit_pos) = writer.close();
    assert_eq!((index, bit_pos), (0, 3));
}

#[test]
fn encode_max_takes_129_bits() {
    let buf = vec![0u8; 17];
    let mut writer = ExpGolombEncoder::new(buf, 0).unwrap();
    writer.put_unsigned(u64::MAX).unwrap();
    let (buf, index, bit_pos) = writer.close();
    // 64 zeros, the terminating one, and a 64-bit all-ones suffix.
    assert_eq!((index, bit_pos), (16, 1));
    assert_eq!(&buf[..8], &[0u8; 8]);
    assert_eq!(buf[8], 0b10000000 | 0b01111111);
    assert_eq!(&buf[9..16], &[0xFFu8; 7]);
    assert_eq!(buf[16], 0b10000000);
}

#[test]
fn encode_max_needs_129_bits() {
    // 128 bits are one too few.
    let buf = vec![0u8; 16];
    let mut writer = ExpGolombEncoder::new(buf, 0).unwrap();
    assert!(writer.put_unsigned(u64::MAX).is_none());
}

#[test]
fn writes_or_into_nonzero_buffer() {
    // Writing only ORs one bits: a pre-set bit stays set.
    let buf = vec![0b00000001u8];
    let mut writer = ExpGolombEncoder::new(buf, 0).unwrap();
    writer.put_unsigned(1).unwrap();
    let (buf, _, _) = writer.close();
    assert_eq!(buf[0], 0b01000001);
}
