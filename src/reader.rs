//! Reading a byte stream back into bits, optionally stripping a sentinel 1-bit that marks
//! where the payload ends.
use crate::bitvec::BitVec;
use crate::error::NoTerminatingBitError;
use crate::model::{
    bits_of_bytes, byte_bit, last_one, lemma_last_one_at, lemma_set_bit, lemma_zero_byte,
    sentinel_payload,
};
use vstd::prelude::*;

verus! {

/// A reader of all the bytes of a source, as bits.
pub struct BitReader {
    term_bit: bool,
    inner: Vec<u8>,
}

impl BitReader {
    /// The bytes of the source.
    pub closed spec fn source(&self) -> Seq<u8> {
        self.inner@
    }

    /// Whether the source ends with a sentinel 1-bit.
    pub closed spec fn uses_sentinel(&self) -> bool {
        self.term_bit
    }

    /// A reader of `reader`'s bytes; with `term_bit`, the stream ends with a sentinel bit.
    pub fn new(reader: Vec<u8>, term_bit: bool) -> (r: Self)
        ensures
            r.source() == reader@,
            r.uses_sentinel() == term_bit,
    {
        BitReader { inner: reader, term_bit }
    }

    /// All the bits of the source. With the sentinel, the bits before the last 1-bit;
    /// fails when the last byte holds no 1-bit.
    pub fn read_to_end(self) -> (r: Result<BitVec, NoTerminatingBitError>)
        requires
            8 * self.source().len() <= usize::MAX,
        ensures
            self.source().len() == 0 ==> (r matches Ok(bv) && bv.wf() && bv@.len() == 0
                && bv.bytes().len() == 0),
            !self.uses_sentinel() ==> (r matches Ok(bv) && bv.wf() && bv@ == bits_of_bytes(
                self.source(),
            ) && bv.bytes() == self.source()),
            self.uses_sentinel() ==> match r {
                Ok(bv) => bv.wf() && sentinel_payload(self.source()) == Some(bv@),
                Err(_) => sentinel_payload(self.source()) is None,
            },
            self.uses_sentinel() && self.source().len() > 0 ==> (r matches Ok(bv) ==> ((
            bv.spec_len() % 8 == 0) == (self.source().last() == 0x80))),
            self.uses_sentinel() && self.source().len() > 0 && self.source().last() == 0x80 ==> (r matches Ok(
                bv,
            ) && bv.bytes() == self.source().drop_last() && bv.spec_len() == 8 * bv.bytes().len()),
    {
        let buffer = self.inner;
        if buffer.len() == 0 {
            let bv = BitVec::default();
            proof {
                assert(bv@ =~= Seq::<bool>::empty());
            }
            return Ok(bv);
        }
        if self.term_bit {
            with_terminating_bit(buffer)
        } else {
            Ok(BitVec::new(buffer))
        }
    }
}

/// The position of the least significant 1-bit of `byte`, counted from the least
/// significant bit; `None` when `byte` is zero.
pub fn trailing_one_pos(byte: u8) -> (r: Option<u8>)
    ensures
        match r {
            Some(i) => {
                &&& i < 8
                &&& byte_bit(byte, (7 - i) as u8)
                &&& forall|j: u8| 7 - i < j < 8 ==> !#[trigger] byte_bit(byte, j)
                &&& (i == 7 <==> byte == 0x80)
                &&& i < 7 ==> forall|j: u8| j < 8 ==> #[trigger] byte_bit(byte & !(1u8 << i), j)
                    == (j != 7 - i && byte_bit(byte, j))
            },
            None => byte == 0,
        },
{
    let mut i: u8 = 0;
    proof {
        assert((byte as u16) & (((1u16 << 0u16) - 1) as u16) == 0) by (bit_vector);
    }
    while i < 8
        invariant
            i <= 8,
            (byte as u16) & (((1u16 << (i as u16)) - 1) as u16) == 0,
        decreases 8 - i,
    {
        if byte & (1u8 << i) != 0 {
            proof {
                assert(byte_bit(byte, (7 - i) as u8)) by {
                    assert(byte & (1u8 << i) != 0 && i < 8 ==> (byte >> ((7 - ((7 - i) as u8)) as u8)) & 1u8
                        == 1u8) by (bit_vector);
                }
                assert forall|j: u8| 7 - i < j < 8 implies !#[trigger] byte_bit(byte, j) by {
                    assert((byte as u16) & (((1u16 << (i as u16)) - 1) as u16) == 0 && 7 - i < j < 8 && i
                        < 8 ==> (byte >> ((7 - j) as u8)) & 1u8 != 1u8) by (bit_vector);
                }
                assert((i == 7 <==> byte == 0x80)) by {
                    assert((byte as u16) & (((1u16 << (i as u16)) - 1) as u16) == 0 && byte & (1u8 << i)
                        != 0 && i < 8 ==> (i == 7 <==> byte == 0x80)) by (bit_vector);
                }
                if i < 7 {
                    assert forall|j: u8| j < 8 implies #[trigger] byte_bit(byte & !(1u8 << i), j) == (j
                        != 7 - i && byte_bit(byte, j)) by {
                        lemma_set_bit(byte, (7 - i) as u8, j);
                        assert((1u8 << ((7 - ((7 - i) as u8)) as u8)) == (1u8 << i));
                    }
                }
            }
            return Some(i);
        }
        proof {
            assert((byte as u16) & (((1u16 << (i as u16)) - 1) as u16) == 0 && byte & (1u8 << i) == 0
                && i < 8 ==> (byte as u16) & (((1u16 << ((i + 1) as u16)) - 1) as u16) == 0)
                by (bit_vector);
        }
        i += 1;
    }
    proof {
        assert((byte as u16) & (((1u16 << 8u16) - 1) as u16) == 0 ==> byte == 0) by (bit_vector);
    }
    None
}

/// The bits of `buffer` before its sentinel, the last 1-bit, which must lie in the last
/// byte. When the sentinel is the first bit of the last byte that byte is dropped;
/// otherwise the sentinel is cleared in place.
pub fn with_terminating_bit(buffer: Vec<u8>) -> (r: Result<BitVec, NoTerminatingBitError>)
    requires
        buffer@.len() > 0,
        8 * buffer@.len() <= usize::MAX,
    ensures
        match r {
            Ok(bv) => {
                &&& bv.wf()
                &&& sentinel_payload(buffer@) == Some(bv@)
                &&& bv.spec_len() == last_one(bits_of_bytes(buffer@))
                &&& buffer@.last() == 0x80 ==> bv.bytes() == buffer@.drop_last() && bv.spec_len() == 8
                    * (buffer@.len() - 1)
                &&& buffer@.last() != 0x80 ==> bv.spec_len() % 8 != 0
                &&& buffer@.last() != 0x80 ==> bv.bytes().drop_last() == buffer@.drop_last()
                    && bits_of_bytes(bv.bytes()) == bits_of_bytes(buffer@).update(
                    bv.spec_len() as int,
                    false,
                )
            },
            Err(_) => buffer@.last() == 0,
        },
{
    let mut buffer = buffer;
    let n = buffer.len();
    let byte = buffer[n - 1];
    let ghost orig = buffer@;
    let ghost bits = bits_of_bytes(buffer@);
    match trailing_one_pos(byte) {
        None => Err(NoTerminatingBitError),
        Some(pos) => {
            let len = (n - 1) * 8 + (7 - pos) as usize;
            proof {
                let k = len as int;
                assert(bits[k] == byte_bit(byte, (7 - pos) as u8));
                assert forall|i: int| k < i < bits.len() implies !#[trigger] bits[i] by {
                    assert(bits[i] == byte_bit(byte, (i % 8) as u8));
                }
                lemma_last_one_at(bits, k);
                if byte == 0 {
                    lemma_zero_byte(byte, (7 - pos) as u8);
                }
            }
            if pos == 7 {
                buffer.pop();
                let ghost kept = buffer@;
                let r = BitVec::with_len(buffer, len);
                proof {
                    let new_bits = bits_of_bytes(kept);
                    assert forall|i: int| 0 <= i < len implies #[trigger] new_bits[i] == bits[i] by {
                        assert(kept[i / 8] == orig[i / 8]);
                    }
                    if r is Ok {
                        assert(r->Ok_0@ =~= bits.take(len as int));
                    }
                }
                match r {
                    Ok(bv) => Ok(bv),
                    Err(_) => Err(NoTerminatingBitError),
                }
            } else {
                let cleared = byte & !(1u8 << pos);
                buffer.set(n - 1, cleared);
                let ghost kept = buffer@;
                let r = BitVec::with_len(buffer, len);
                proof {
                    let new_bits = bits_of_bytes(kept);
                    assert forall|i: int| 0 <= i < bits.len() implies #[trigger] new_bits[i] == (
                    if i == len {
                        false
                    } else {
                        bits[i]
                    }) by {
                        if i / 8 == n - 1 {
                            assert(byte_bit(cleared, (i % 8) as u8) == ((i % 8) as u8 != 7 - pos
                                && byte_bit(byte, (i % 8) as u8)));
                        } else {
                            assert(kept[i / 8] == orig[i / 8]);
                        }
                    }
                    assert(new_bits =~= bits.update(len as int, false));
                    assert(kept.drop_last() =~= orig.drop_last());
                    if r is Ok {
                        assert(r->Ok_0@ =~= bits.take(len as int));
                    }
                }
                match r {
                    Ok(bv) => Ok(bv),
                    Err(_) => Err(NoTerminatingBitError),
                }
            }
        },
    }
}

} // verus!
