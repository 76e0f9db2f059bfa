use idencode::{DecodeOne, Decoder, EncodeOne, Encoder, GammaDecoder, GammaEncoder, InvalidCodeError};

#[test]
fn gamma_test_encode_1() {
    assert_eq!(GammaEncoder::encode_one(0b10_u32), vec![true, false, false]);
    assert_eq!(GammaEncoder::encode_one(0b11_u32), vec![true, false, true]);
    assert_eq!(
        GammaEncoder::encode_one(9_u32),
        vec![true, true, true, false, false, false, true]
    );
}

#[test]
fn gamma_test_encode_decode() {
    // Example 1
    let mut ge = GammaEncoder::new();
    ge.encode(&[2_u32, 3]);
    let result = ge.finalize();
    assert_eq!(result, vec![0b10010110]);

    let de = GammaDecoder::new(result);
    let nums = de.decode::<u32>().unwrap();
    assert_eq!(nums, vec![2, 3]);

    // Example 2
    let mut ge = GammaEncoder::new();
    ge.encode(&[2_u32, 3, 9]);
    let result = ge.finalize();
    assert_eq!(result, vec![0b10010111, 0b10001100]);

    let de = GammaDecoder::new(result);
    let nums = de.decode::<u32>().unwrap();
    assert_eq!(nums, vec![2, 3, 9]);
}

#[test]
fn test_decode_errs() {
    let de = GammaDecoder::new(vec![0b10010111, 0b11100110]);
    assert!(de.decode::<u8>().is_err());

    let de = GammaDecoder::new(vec![0b11111111]);
    assert!(de.decode::<u8>().is_err());
}

#[test]
fn test_decode_bits_success() {
    assert_eq!(GammaDecoder::decode_bits::<u8>(&[]), Ok(vec![]));
    assert_eq!(
        GammaDecoder::decode_bits::<u8>(&[true, false, false]),
        Ok(vec![2])
    );
    assert_eq!(
        GammaDecoder::decode_bits::<u8>(&[true, true, false, false, false]),
        Ok(vec![4])
    );
    assert_eq!(
        GammaDecoder::decode_bits::<u8>(&[true, true, true, false, false, false, true]),
        Ok(vec![9])
    );
}

#[test]
fn test_decode_bits_fail() {
    assert!(GammaDecoder::decode_bits::<u8>(&[false, true, true]).is_err());
    assert!(GammaDecoder::decode_bits::<u8>(&[true, true, false]).is_err());
    assert!(GammaDecoder::decode_bits::<u8>(&[true, true, true]).is_err());
}

#[test]
fn gamma_examples_two_and_nine() {
    assert_eq!(GammaEncoder::encode_one(2u8), vec![true, false, false]);
    assert_eq!(
        GammaEncoder::encode_one(9u64),
        vec![true, true, true, false, false, false, true]
    );
    assert_eq!(GammaEncoder::encode_one(1u16), vec![false]);
}

#[test]
fn gamma_round_trip_each_width() {
    for n in 1u8..=127 {
        assert_eq!(GammaDecoder::decode_one::<u8>(&GammaEncoder::encode_one(n)), Ok(n));
    }
    for n in [1u16, 300, (1 << 15) - 1] {
        assert_eq!(GammaDecoder::decode_one::<u16>(&GammaEncoder::encode_one(n)), Ok(n));
    }
    for n in [1u32, 77_777, (1 << 31) - 1] {
        assert_eq!(GammaDecoder::decode_one::<u32>(&GammaEncoder::encode_one(n)), Ok(n));
    }
    let big = (1u128 << 127) - 1;
    assert_eq!(GammaDecoder::decode_one::<u128>(&GammaEncoder::encode_one(big)), Ok(big));
}

#[test]
fn gamma_multi_value_stream() {
    let mut ge = GammaEncoder::new();
    ge.encode(&[2u64, 3, 9]);
    let de = GammaDecoder::new(ge.finalize());
    assert_eq!(de.decode::<u64>(), Ok(vec![2, 3, 9]));
}

#[test]
fn gamma_claimed_offset_longer_than_rest_fails() {
    assert_eq!(
        GammaDecoder::decode_one::<u8>(&[true, true, true, false, false, true]),
        Err(InvalidCodeError::GammaCodeError)
    );
    assert_eq!(
        GammaDecoder::decode_bits::<u8>(&[true, false, false, true, true, false, true]),
        Err(InvalidCodeError::GammaCodeError)
    );
}

#[test]
fn gamma_trailing_bits_fail_one_codeword() {
    assert_eq!(
        GammaDecoder::decode_one::<u8>(&[true, false, false, false]),
        Err(InvalidCodeError::GammaCodeError)
    );
}

#[test]
fn gamma_overflow_fails() {
    // 128 needs eight bits: too wide for u8 with its one bit of margin.
    let bits = GammaEncoder::encode_one(128u32);
    assert_eq!(
        GammaDecoder::decode_one::<u8>(&bits),
        Err(InvalidCodeError::GammaCodeError)
    );
    assert_eq!(GammaDecoder::decode_one::<u16>(&bits), Ok(128u16));
    assert_eq!(
        GammaDecoder::decode_bits::<u8>(&bits),
        Err(InvalidCodeError::GammaCodeError)
    );
}

#[test]
fn gamma_stream_filling_whole_bytes_gets_sentinel_byte() {
    // 4 is 11000 and 2 is 100: eight bits, so the sentinel takes a byte of its own.
    let mut ge = GammaEncoder::new();
    ge.encode(&[4u8, 2]);
    let result = ge.finalize();
    assert_eq!(result, vec![0b11000100, 0b10000000]);
    assert_eq!(GammaDecoder::new(result).decode::<u8>(), Ok(vec![4, 2]));
}
