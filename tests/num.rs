use idencode::{bits_to_number, bits_to_numeric, write_offset_bits, OverflowError};

#[test]
fn convert_test_bits_to_num() {
    assert_eq!(bits_to_numeric::<u8>(&[true, false]), Ok(0b10));
    assert_eq!(bits_to_numeric::<u8>(&[true, true, false]), Ok(0b110));
    assert_eq!(bits_to_numeric::<u8>(&[false, false, false]), Ok(0));
    assert_eq!(bits_to_numeric::<u32>(&[false, false, true]), Ok(1));
    let nums = &[true, false, false, false, true, true, false, true, true];
    assert_eq!(bits_to_numeric::<u32>(nums), Ok(0b100011011));
    assert!(bits_to_numeric::<u8>(nums).is_err());
}

#[test]
fn util_test_bits_to_num() {
    assert_eq!(bits_to_number(&[true, false]), 0b10);
    assert_eq!(bits_to_number(&[true, true, false]), 0b110);
    assert_eq!(bits_to_number(&[false, false, false]), 0);
    assert_eq!(bits_to_number(&[false, false, true]), 1);
    assert_eq!(
        bits_to_number(&[true, false, false, false, true, true, false, true, true]),
        0b100011011
    );
}

#[test]
fn bits_to_numeric_width_margin() {
    assert_eq!(bits_to_numeric::<u8>(&[true; 7]), Ok(127));
    assert_eq!(bits_to_numeric::<u8>(&[true; 8]), Err(OverflowError));
    assert_eq!(bits_to_numeric::<u128>(&[true; 127]), Ok(u128::MAX >> 1));
    assert_eq!(bits_to_numeric::<u128>(&[true; 128]), Err(OverflowError));
    assert_eq!(bits_to_numeric::<u16>(&[]), Ok(0));
}

#[test]
fn bits_to_number_full_width() {
    assert_eq!(bits_to_number(&[true; 32]), u32::MAX);
    assert_eq!(bits_to_number(&[]), 0);
}

#[test]
fn offset_bits_drop_the_leading_one() {
    let mut buf = vec![true];
    write_offset_bits(&9u8, &mut buf);
    assert_eq!(buf, vec![true, false, false, true]);
    let mut buf = vec![];
    write_offset_bits(&1u64, &mut buf);
    assert!(buf.is_empty());
    let mut buf = vec![];
    write_offset_bits(&u128::MAX, &mut buf);
    assert_eq!(buf, vec![true; 127]);
}
