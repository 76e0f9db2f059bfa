use idencode::BitVec;

fn bitvec_of(bits: &[bool]) -> BitVec {
    let mut bitvec = BitVec::default();
    bitvec.extend_from_slice(bits);
    bitvec
}

#[test]
fn test_macro() {
    // Case 1
    let bitvec = bitvec_of(&[true; 10]);
    assert_eq!(*bitvec.as_bytes(), [0b11111111, 0b11000000]);

    // Case 2 & 3
    let bitvec = bitvec_of(&[true, true, false, true, false]);
    assert_eq!(*bitvec.as_bytes(), [0b11010000]);
}

#[test]
fn test_len() {
    let bitvec = bitvec_of(&[]);
    assert_eq!(bitvec.len(), 0);
}

#[test]
fn bitvec_with_len() {
    let bitvec = BitVec::with_len(vec![0b10011001, 0b10001000], 14).unwrap();
    assert_eq!(*bitvec.as_bytes(), [0b10011001, 0b10001000]);
    assert_eq!(bitvec.len(), 14);
    assert_eq!(*bitvec.bit_position(), 6);

    assert!(BitVec::with_len(vec![1, 2, 3], 15).is_err());
    assert!(BitVec::with_len(vec![1, 2, 3], 25).is_err());
    assert!(BitVec::with_len(vec![1, 2, 3], 16).is_ok());
    assert!(BitVec::with_len(vec![1, 2, 3], 24).is_ok());
    assert!(BitVec::with_len(vec![], 0).is_ok());
    assert!(BitVec::with_len(vec![], 1).is_err());
}

#[test]
fn bitvec_push_msb_first() {
    let mut bq = BitVec::default();
    for bit in [true, true, false, true, true, false, true, true, true, false] {
        bq.push(bit);
    }
    assert_eq!(bq.as_bytes(), &[0b11011011, 0b10000000]);
    assert_eq!(bq.len(), 10);
    assert_eq!(bq.n_bytes(), 2);
    assert_eq!(
        bq.into_bits(),
        vec![true, true, false, true, true, false, true, true, true, false]
    );
}

#[test]
fn bitvec_push_byte_pads_partial_byte() {
    let mut bitvec = bitvec_of(&[true, true, false]);
    bitvec.push_byte(0b10000000);
    assert_eq!(*bitvec.as_bytes(), [0b11000000, 0b10000000]);
    assert_eq!(bitvec.len(), 16);

    let mut bitvec = bitvec_of(&[true, true, false]);
    bitvec.extend_from_byte_slice(&[0b10000000, 0b10000000]);
    assert_eq!(*bitvec.as_bytes(), [0b11000000, 0b10000000, 0b10000000]);
}

#[test]
fn bitvec_insert_byte() {
    let mut bitvec = bitvec_of(&[true, true, false, true]);
    bitvec.insert_byte(0, 0b10101010);
    assert_eq!(*bitvec.as_bytes(), [0b10101010, 0b11010000]);
    assert_eq!(bitvec.len(), 12);
}

#[test]
fn bitvec_last_byte_and_clear() {
    let bitvec = bitvec_of(&[true; 11]);
    assert_eq!(*bitvec.last_byte().unwrap(), 0b11100000);

    let mut bitvec = bitvec_of(&[true; 11]);
    *bitvec.last_byte_mut().unwrap() = 0;
    assert_eq!(*bitvec.as_bytes(), [0b11111111, 0]);

    let mut bitvec = bitvec_of(&[true, true, false]);
    bitvec.as_bytes_mut()[0] = 0b111;
    assert_eq!(bitvec.as_bytes(), [0b111]);

    let mut bitvec = bitvec_of(&[true, true, false]);
    assert_eq!(bitvec.len(), 3);
    bitvec.clear();
    assert_eq!(bitvec.len(), 0);
    assert!(bitvec.is_empty());
    bitvec.push(true);
    assert_eq!(bitvec.into_bytes(), vec![0b10000000]);
}

#[test]
fn bitvec_capacity() {
    let mut vec = BitVec::with_capacity(16);
    assert_eq!(vec.len(), 0);
    assert!(vec.capacity() >= 16);
    vec.push(true);
    assert!(vec.capacity() >= 10);
}

#[test]
fn bitvec_new_is_byte_aligned() {
    let bitvec = BitVec::new(vec![0b10100000, 0xFF]);
    assert_eq!(bitvec.len(), 16);
    assert_eq!(*bitvec.bit_position(), 0);
    let bits = bitvec.into_bits();
    assert_eq!(&bits[..8], &[true, false, true, false, false, false, false, false]);
}
