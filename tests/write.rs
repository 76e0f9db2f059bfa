use idencode::{BitReader, BitWriter};

#[test]
fn write_test_push_bits() {
    let mut bw = BitWriter::new(true);
    let bits = vec![
        false, false, false, false, false, false, true, true, false, false, false, false,
        false, false, false, true,
    ];
    bw.write_bits(&bits);
    let result = bw.finalize();
    assert_eq!(result, vec![0b00000011, 0b00000001, 0b10000000])
}

#[test]
fn write_bits_one_at_a_time() {
    let mut bw = BitWriter::new(true);
    for bit in [true, true, false] {
        bw.write_bit(bit);
    }
    assert_eq!(*bw.get_ref().as_bytes(), [0b11000000]);
    bw.write_bit(true);
    bw.write_bit(false);
    assert_eq!(bw.finalize(), vec![0b11010100]);
}

#[test]
fn write_sentinel_examples() {
    let mut bw = BitWriter::new(true);
    bw.write_bits(&[true, true, false, true, false, false, false, false]);
    assert_eq!(bw.finalize(), [0b11010000, 0b10000000]);

    let mut bw = BitWriter::with_capacity(4, true);
    bw.write_bit(true);
    bw.write_bit(false);
    assert_eq!(bw.finalize(), vec![0b10100000]);
}

#[test]
fn write_without_sentinel_and_reset() {
    let mut bw = BitWriter::new(false);
    bw.write_bits(&[true, false, true]);
    assert_eq!(bw.finalize(), vec![0b10100000]);

    let mut bw = BitWriter::new(true);
    bw.write_bits(&[true, false, true]);
    bw.reset();
    assert!(bw.get_ref().is_empty());
    assert_eq!(bw.finalize(), Vec::<u8>::new());

    let mut bw = BitWriter::new(true);
    bw.get_mut().push_byte(0xAB);
    assert_eq!(bw.finalize(), vec![0xAB, 0x80]);
}

fn round_trip(payload: &[bool]) -> Vec<bool> {
    let mut bw = BitWriter::new(true);
    bw.write_bits(payload);
    let bytes = bw.finalize();
    BitReader::new(bytes, true).read_to_end().unwrap().into_bits()
}

#[test]
fn sentinel_framing_round_trip() {
    let payloads: Vec<Vec<bool>> = vec![
        vec![],
        vec![true],
        vec![false],
        vec![true, false, true, true, false, false, true],
        vec![false; 8],
        vec![true; 8],
        vec![true, false, false, true, false, true, true, false, false, true, true, true, false, false, false, true],
        vec![false; 13],
    ];
    for payload in payloads {
        assert_eq!(round_trip(&payload), payload);
    }
}
