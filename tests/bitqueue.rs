use idencode::BitQueue;

#[test]
fn bitqueue_push_fills_from_low_end() {
    let mut bq = BitQueue::new();
    for bit in [true, true, false, true, true, false, true, true, true, false] {
        bq.push(bit);
    }
    assert_eq!(bq.as_slice(), &[0b11011011, 0b10]);
    assert_eq!(*bq.bit_position(), 2);
    assert_eq!(bq.n_bytes(), 2);
    assert_eq!(bq.n_bits(), 16);
}

#[test]
fn bitqueue_extend_and_clear() {
    let mut bq = BitQueue::with_capacity(2);
    bq.extend(&[true, true, false, true, true, false, true, true, true, false]);
    assert_eq!(bq.as_slice(), &[0b11011011, 0b10]);
    bq.as_mut_slice()[1] = 0b11;
    assert_eq!(bq.as_slice(), &[0b11011011, 0b11]);
    bq.clear();
    assert!(bq.is_empty());
    bq.extend(&[true, false]);
    assert_eq!(*bq.bit_position(), 2);
    assert_eq!(bq.as_slice(), &[0b10]);
}
