use idencode::{InvalidCodeError, VBDecoder, VBEncoder};

#[test]
fn test_encode_decode_u8() {
    let nums = vec![5, 10, 33];
    let mut vbe = VBEncoder::new();
    vbe.write::<u8>(nums.as_slice());
    let encoded = vbe.finalize();
    assert_eq!(encoded, &[0b10000101, 0b10001010, 0b10100001, 0b10000000]);

    let vbd = VBDecoder::new(encoded);
    let decoded = vbd.decode::<u8>().unwrap();
    assert_eq!(decoded, nums);
}

#[test]
fn test_encode_decode_u32() {
    let nums = vec![824, 8];
    let mut vbe = VBEncoder::new();
    vbe.write::<u32>(nums.as_slice());
    let encoded = vbe.finalize();
    assert_eq!(encoded, &[0b000000110, 0b10111000, 0b10001000, 0b10000000]);

    let vbd = VBDecoder::new(encoded);
    let decoded = vbd.decode::<u32>().unwrap();
    assert_eq!(decoded, nums);
}

#[test]
fn test_encode_decode_u64() {
    let nums = vec![214577, 824, 8];
    let mut vbe = VBEncoder::new();
    vbe.write::<u64>(nums.as_slice());
    let encoded = vbe.finalize();
    assert_eq!(
        encoded,
        vec![
            0b00001101,
            0b00001100,
            0b10110001,
            0b000000110,
            0b10111000,
            0b10001000,
            0b10000000
        ]
    );

    let vbd = VBDecoder::new(encoded);
    let decoded = vbd.decode::<u64>().unwrap();
    assert_eq!(decoded, nums);
}

#[test]
fn vb_test_encode_one() {
    assert_eq!(VBEncoder::encode_one::<u8>(5), vec![0b10000101]);
    assert_eq!(
        VBEncoder::encode_one::<u32>(824),
        vec![0b00000110, 0b10111000]
    );
    assert_eq!(
        VBEncoder::encode_one::<u64>(214577),
        vec![0b00001101, 0b00001100, 0b10110001]
    );
}

#[test]
fn vb_encode_examples() {
    assert_eq!(VBEncoder::encode::<u8>(&[5]), vec![0x85]);
    assert_eq!(VBEncoder::encode::<u32>(&[824]), vec![0x06, 0xB8]);
    assert_eq!(VBEncoder::encode::<u64>(&[214577]), vec![0x0D, 0x0C, 0xB1]);
    assert_eq!(
        VBEncoder::encode::<u32>(&[824, 214577]),
        vec![0b00000110, 0b10111000, 0b00001101, 0b00001100, 0b10110001]
    );
    assert_eq!(VBEncoder::encode::<u16>(&[0]), vec![0x80]);
    assert_eq!(VBEncoder::encode::<u16>(&[]), Vec::<u8>::new());
}

#[test]
fn vb_decode_one_examples() {
    assert_eq!(VBDecoder::decode_one(&[0b10000101]), Ok(5));
    assert_eq!(VBDecoder::decode_one(&[0b00000110, 0b10111000]), Ok(824));
    assert_eq!(
        VBDecoder::decode_one(&[0b00001101, 0b00001100, 0b10110001]),
        Ok(214577)
    );
    assert!(VBDecoder::decode_one(&[0b10000011, 0b10101000]).is_err());
}

#[test]
fn vb_continuation_bit_on_non_final_byte_fails() {
    assert!(VBDecoder::decode_one(&[0b10000110, 0b00111000]).is_err());
    assert!(VBDecoder::decode_one(&[0b00000110, 0b00111000]).is_err());
    assert!(VBDecoder::decode_one(&[]).is_err());
}

#[test]
fn vb_decode_one_overflow_fails() {
    assert_eq!(
        VBDecoder::decode_one(&VBEncoder::encode_one::<u64>(u32::MAX as u64)),
        Ok(u32::MAX)
    );
    assert!(VBDecoder::decode_one(&VBEncoder::encode_one::<u64>(u32::MAX as u64 + 1)).is_err());
}

#[test]
fn vb_is_valid_code() {
    assert!(VBDecoder::is_valid_code(&[0b00110001, 0b10100110]));
    assert!(!VBDecoder::is_valid_code(&[0b10110001, 0b10100110]));
    assert!(!VBDecoder::is_valid_code(&[0b00110001, 0b00100110]));
    assert!(!VBDecoder::is_valid_code(&[0b10001100, 0b00110101]));
    assert!(VBDecoder::is_valid_code(&[0x80]));
}

#[test]
fn vb_stream_errors() {
    // The last group lacks its final byte.
    let vbd = VBDecoder::new(vec![0x85, 0x05, 0x80]);
    assert_eq!(vbd.decode::<u8>(), Err(InvalidCodeError::VBCodeError));
    // No sentinel byte.
    let vbd = VBDecoder::new(vec![0x85]);
    assert_eq!(vbd.decode::<u8>(), Err(InvalidCodeError::VBCodeError));
    // 824 does not fit u8.
    let vbd = VBDecoder::new(vec![0x06, 0xB8, 0x80]);
    assert_eq!(vbd.decode::<u8>(), Err(InvalidCodeError::VBCodeError));
    let vbd = VBDecoder::new(vec![0x06, 0xB8, 0x80]);
    assert_eq!(vbd.decode::<u16>(), Ok(vec![824]));
}

#[test]
fn vb_zero_round_trip() {
    let mut vbe = VBEncoder::new();
    vbe.write::<u32>(&[0, 127, 128]);
    let encoded = vbe.finalize();
    assert_eq!(encoded, vec![0x80, 0xFF, 0x01, 0x80, 0x80]);
    assert_eq!(VBDecoder::new(encoded).decode::<u32>(), Ok(vec![0, 127, 128]));
}
