use idencode::{trailing_one_pos, with_terminating_bit, BitReader, BitVec, NoTerminatingBitError};

fn bitvec_of(bits: &[bool]) -> BitVec {
    let mut bitvec = BitVec::default();
    bitvec.extend_from_slice(bits);
    bitvec
}

#[test]
fn test_empty_bitvec() {
    let reader = BitReader::new(Vec::<u8>::new(), true);
    let bitvec = reader.read_to_end().unwrap();
    assert!(bitvec.is_empty());
}

#[test]
fn test_bitvec_read() {
    let reader = BitReader::new(vec![0b10001100, 0b10000000], true);
    let bitvec = reader.read_to_end().unwrap();
    assert_eq!(*bitvec.as_bytes(), [0b10001100]);
}

#[test]
fn test_trailing_one_pos() {
    assert_eq!(trailing_one_pos(0), None);
    assert_eq!(trailing_one_pos(0b10010000), Some(4));
    assert_eq!(trailing_one_pos(0b10000000), Some(7));
}

#[test]
fn test_with_terminating_bit() {
    let bv = bitvec_of(&[true, false, false]);
    let read = with_terminating_bit(vec![0b10010000]).unwrap();
    assert_eq!(read.as_bytes(), bv.as_bytes());
    assert_eq!(read.len(), bv.len());

    let bv = bitvec_of(&[true, false, true, true, false, false, false, true]);
    let read = with_terminating_bit(vec![0b10110001, 0b10000000]).unwrap();
    assert_eq!(read.as_bytes(), bv.as_bytes());
    assert_eq!(read.len(), bv.len());
}

#[test]
fn read_recovers_exact_length() {
    let reader = BitReader::new(vec![0b10101011, 0b11001000], true);
    let bitvec = reader.read_to_end().unwrap();
    assert_eq!(bitvec.len(), 12);
    assert_eq!(*bitvec.bit_position(), 4);
    assert_eq!(*bitvec.as_bytes(), [0b10101011, 0b11000000]);
}

#[test]
fn read_without_sentinel_keeps_every_bit() {
    let reader = BitReader::new(vec![0b10101011, 0b11001000], false);
    let bitvec = reader.read_to_end().unwrap();
    assert_eq!(bitvec.len(), 16);
    assert_eq!(*bitvec.as_bytes(), [0b10101011, 0b11001000]);
}

#[test]
fn read_last_byte_without_one_fails() {
    let reader = BitReader::new(vec![0b10101011, 0], true);
    assert_eq!(reader.read_to_end().unwrap_err(), NoTerminatingBitError);
    assert_eq!(
        with_terminating_bit(vec![0]).unwrap_err(),
        NoTerminatingBitError
    );
}
