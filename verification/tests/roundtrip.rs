use exp_golomb::{ExpGolombDecoder, ExpGolombEncoder};
use rand::{Rng, SeedableRng};

#[test]
fn encode_decode() {
    let nums = [0, 1, 2, 3, 4, 5, 6, 7, 8];

    let buf = vec![0u8; 6];
    let mut writer = ExpGolombEncoder::new(buf, 0).unwrap();

    for &num in &nums {
        writer.put_unsigned(num).unwrap();
    }
    let (buf, _, _) = writer.close();

    let mut reader = ExpGolombDecoder::new(&buf, 0).unwrap();
    for &num in &nums {
        assert_eq!(reader.next_unsigned(), Some(num));
    }
}

#[test]
fn encode_decode_random() {
    const SEED: u64 = 0;
    const NUM_VALS: usize = 1000;

    let mut rng = rand::rngs::StdRng::seed_from_u64(SEED);
    let nums: Vec<_> = (0..NUM_VALS).map(|_| rng.gen::<u64>()).collect();

    let buf = vec![0u8; 3 * 8 * NUM_VALS];
    let mut writer = ExpGolombEncoder::new(buf, 0).unwrap();

    for &num in &nums {
        writer.put_unsigned(num).unwrap();
    }
    let (buf, _, _) = writer.close();

    let mut reader = ExpGolombDecoder::new(&buf, 0).unwrap();
    for &num in &nums {
        assert_eq!(reader.next_unsigned(), Some(num));
    }
}

#[test]
fn unsigned_round_trip_at_every_offset() {
    let vals = [0u64, 1, 2, 8, 509, 510, 511, u32::MAX as u64, u64::MAX - 1, u64::MAX];
    for start in 0..=7u32 {
        let buf = vec![0u8; 64];
        let mut writer = ExpGolombEncoder::new(buf, start).unwrap();
        for &v in &vals {
            writer.put_unsigned(v).unwrap();
        }
        let (buf, _, _) = writer.close();
        let mut reader = ExpGolombDecoder::new(&buf, start).unwrap();
        for &v in &vals {
            assert_eq!(reader.next_unsigned(), Some(v));
        }
    }
}

#[test]
fn signed_round_trip() {
    let vals = [0i64, 1, -1, 2, -2, 63, -64, i64::MAX, i64::MIN + 1, i64::MIN];
    let buf = vec![0u8; 64];
    let mut writer = ExpGolombEncoder::new(buf, 3).unwrap();
    for &v in &vals {
        writer.put_signed(v).unwrap();
    }
    let (buf, _, _) = writer.close();
    let mut reader = ExpGolombDecoder::new(&buf, 3).unwrap();
    for &v in &vals {
        assert_eq!(reader.next_signed(), Some(v));
    }
}

#[test]
fn skip_then_read_resumes_on_boundary() {
    let vals = [7u64, 300, 2, 0, 41];
    let buf = vec![0u8; 16];
    let mut writer = ExpGolombEncoder::new(buf, 0).unwrap();
    for &v in &vals {
        writer.put_unsigned(v).unwrap();
    }
    let (buf, _, _) = writer.close();
    let mut reader = ExpGolombDecoder::new(&buf, 0).unwrap();
    reader.skip_next();
    assert_eq!(reader.next_unsigned(), Some(300));
    reader.skip_next();
    reader.skip_next();
    assert_eq!(reader.next_unsigned(), Some(41));
}

#[test]
fn alignment_invariance() {
    // The same logical bit sequence, decoded from every start offset on a
    // buffer shifted right by that many bits, gives identical values.
    let vals = [4u64, 17, 0, 1000];
    let aligned = {
        let buf = vec![0u8; 8];
        let mut writer = ExpGolombEncoder::new(buf, 0).unwrap();
        for &v in &vals {
            writer.put_unsigned(v).unwrap();
        }
        writer.close().0
    };
    for start in 0..=7u32 {
        let buf = vec![0u8; 9];
        let mut writer = ExpGolombEncoder::new(buf, start).unwrap();
        for &v in &vals {
            writer.put_unsigned(v).unwrap();
        }
        let (shifted, _, _) = writer.close();
        // Both decode to the same values.
        let mut ra = ExpGolombDecoder::new(&aligned, 0).unwrap();
        let mut rs = ExpGolombDecoder::new(&shifted, start).unwrap();
        for &v in &vals {
            assert_eq!(ra.next_unsigned(), Some(v));
            assert_eq!(rs.next_unsigned(), Some(v));
        }
    }
}
