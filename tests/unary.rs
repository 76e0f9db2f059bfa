use idencode::{InvalidCodeError, UnaryDecoder, UnaryEncoder};

#[test]
fn unary_encode_examples() {
    assert_eq!(UnaryEncoder::encode_one(0), vec![false]);
    assert_eq!(UnaryEncoder::encode_one(1), vec![true, false]);
    assert_eq!(UnaryEncoder::encode_one(2), vec![true, true, false]);
    assert_eq!(UnaryEncoder::encode_one(3), vec![true, true, true, false]);
    assert_eq!(UnaryEncoder::encode(3), vec![true, true, true, false]);
}

#[test]
fn unary_decode_examples() {
    assert_eq!(UnaryDecoder::decode_one(&[false]), Ok(0));
    assert_eq!(UnaryDecoder::decode_one(&[true, false]), Ok(1));
    assert_eq!(UnaryDecoder::decode(&[true, true, false]), Ok(2));
    for n in 0..40 {
        assert_eq!(UnaryDecoder::decode_one(&UnaryEncoder::encode_one(n)), Ok(n));
    }
}

#[test]
fn unary_missing_terminator_fails() {
    assert_eq!(
        UnaryDecoder::decode_one(&[true, true]),
        Err(InvalidCodeError::UnaryCodeError)
    );
    assert_eq!(
        UnaryDecoder::decode_one(&[]),
        Err(InvalidCodeError::UnaryCodeError)
    );
    assert_eq!(
        UnaryDecoder::decode(&[true, false, true]),
        Err(InvalidCodeError::UnaryCodeError)
    );
    assert_eq!(
        UnaryDecoder::decode_one(&[true, false, false]),
        Err(InvalidCodeError::UnaryCodeError)
    );
}

#[test]
fn error_messages() {
    assert_eq!(InvalidCodeError::UnaryCodeError.message(), "Invalid Unary Code Error.");
    assert_eq!(InvalidCodeError::DeltaCodeError.message(), "Invalid Elias Delta Code Error.");
}
