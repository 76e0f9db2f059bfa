use idencode::{DecodeOne, Decoder, DeltaDecoder, DeltaEncoder, EncodeOne, Encoder, InvalidCodeError};

#[test]
fn delta_test_encode_one() {
    assert_eq!(
        DeltaEncoder::encode_one(0b10_u8),
        vec![true, false, false, false]
    );
    assert_eq!(
        DeltaEncoder::encode_one(0b11_u8),
        vec![true, false, false, true]
    );
    assert_eq!(
        DeltaEncoder::encode_one(9u8),
        vec![true, true, false, false, false, false, false, true]
    );
}

#[test]
fn test_decode_one() {
    assert_eq!(
        DeltaDecoder::decode_one::<u8>(&[true, false, false, false]),
        Ok(0b10_u8)
    );
    assert_eq!(
        DeltaDecoder::decode_one::<u8>(&[true, false, false, true]),
        Ok(0b11_u8)
    );
    assert_eq!(
        DeltaDecoder::decode_one::<u8>(&[true, true, false, false, false, false, false, true]),
        Ok(9u8)
    );
}

#[test]
fn test_decode_one_errs() {
    assert!(DeltaDecoder::decode_one::<u8>(&[true, false]).is_err());
    assert!(DeltaDecoder::decode_one::<u8>(&[true, false, false]).is_err());
}

#[test]
fn delta_test_encode_decode() {
    // Example 1
    let mut ge = DeltaEncoder::new();
    ge.encode(&[2_u32, 3]);
    let result = ge.finalize();
    assert_eq!(result, vec![0b10001001, 0b10000000]);

    let de = DeltaDecoder::new(result);
    let nums = de.decode::<u32>().unwrap();
    assert_eq!(nums, vec![2, 3]);

    // Example 2
    let mut ge = DeltaEncoder::new();
    ge.encode(&[2_u32, 3, 9]);
    let result = ge.finalize();
    assert_eq!(result, vec![0b10001001, 0b11000001, 0b10000000]);

    let de = DeltaDecoder::new(result);
    let nums = de.decode::<u32>().unwrap();
    assert_eq!(nums, vec![2, 3, 9]);
}

#[test]
fn delta_nine_is_gamma_of_four_then_offset() {
    let gamma_four = idencode::GammaEncoder::encode_one(4u32);
    assert_eq!(gamma_four, vec![true, true, false, false, false]);
    let mut expected = gamma_four;
    expected.extend_from_slice(&[false, false, true]);
    assert_eq!(DeltaEncoder::encode_one(9u64), expected);
}

#[test]
fn delta_round_trip_each_width() {
    for n in 1u8..=127 {
        assert_eq!(DeltaDecoder::decode_one::<u8>(&DeltaEncoder::encode_one(n)), Ok(n));
    }
    for n in [1u64, 2, 1000, 1 << 40, (1u64 << 63) - 1] {
        assert_eq!(DeltaDecoder::decode_one::<u64>(&DeltaEncoder::encode_one(n)), Ok(n));
    }
    let big = (1u128 << 127) - 1;
    assert_eq!(DeltaDecoder::decode_one::<u128>(&DeltaEncoder::encode_one(big)), Ok(big));
}

#[test]
fn delta_claimed_offset_longer_than_rest_fails() {
    // Gamma(4) claims three offset bits; only two follow.
    assert_eq!(
        DeltaDecoder::decode_one::<u8>(&[true, true, false, false, false, false, false]),
        Err(InvalidCodeError::DeltaCodeError)
    );
    let mut bits = DeltaEncoder::encode_one(9u8);
    bits.pop();
    assert_eq!(
        DeltaDecoder::decode_one::<u32>(&bits),
        Err(InvalidCodeError::DeltaCodeError)
    );
}

#[test]
fn delta_overflow_fails() {
    // 128 needs eight bits: too wide for u8 with its one bit of margin.
    let bits = DeltaEncoder::encode_one(128u32);
    assert_eq!(
        DeltaDecoder::decode_one::<u8>(&bits),
        Err(InvalidCodeError::DeltaCodeError)
    );
    assert_eq!(DeltaDecoder::decode_one::<u16>(&bits), Ok(128u16));
}

#[test]
fn delta_stream_without_sentinel_fails() {
    let de = DeltaDecoder::new(vec![0b10001001, 0]);
    assert_eq!(de.decode::<u32>(), Err(InvalidCodeError::DeltaCodeError));
}

#[test]
fn delta_empty_stream() {
    let ge = DeltaEncoder::new();
    let result = ge.finalize();
    assert!(result.is_empty());
    let de = DeltaDecoder::new(result);
    assert_eq!(de.decode::<u32>(), Ok(vec![]));
}
