//! A growable, bit-addressable byte buffer: bits are packed most significant bit first
//! within each byte, and the exact number of bits is kept beside the bytes.
use crate::error::BitVecLengthError;
use crate::model::{bits_of_bytes, byte_bit, lemma_set_bit, lemma_zero_byte, zero_padded};
use vstd::prelude::*;

verus! {

/// The number of bits a default buffer has room for before it grows.
pub const DEFAULT_BUF_SIZE: usize = 8192;

/// Relies on `Vec::capacity`: the capacity is never below the length.
#[verifier::external_body]
fn vec_capacity(v: &Vec<u8>) -> (r: usize)
    ensures
        r >= v@.len(),
{
    v.capacity()
}

/// A sequence of bits held in bytes, most significant bit first.
#[derive(Debug, Clone)]
pub struct BitVec {
    inner: Vec<u8>,
    bit_pos: u8,
    len: usize,
}

impl View for BitVec {
    type V = Seq<bool>;

    /// The bits, in order.
    open spec fn view(&self) -> Seq<bool> {
        bits_of_bytes(self.bytes()).take(self.spec_len() as int)
    }
}

impl BitVec {
    /// The backing bytes.
    pub closed spec fn bytes(&self) -> Seq<u8> {
        self.inner@
    }

    /// The number of bits.
    pub closed spec fn spec_len(&self) -> nat {
        self.len as nat
    }

    /// The position of the next bit within its byte.
    pub closed spec fn spec_bit_pos(&self) -> nat {
        self.bit_pos as nat
    }

    /// The bits fit the bytes, with at most one byte beyond the last bit, and the bit
    /// position is the length modulo 8.
    pub open spec fn wf(&self) -> bool {
        &&& self.spec_len() <= 8 * self.bytes().len() <= self.spec_len() + 8
        &&& self.spec_bit_pos() == self.spec_len() % 8
    }

    /// No byte lies wholly beyond the last bit, and the bits after the last one are zero.
    pub open spec fn is_packed(&self) -> bool {
        &&& 8 * self.bytes().len() < self.spec_len() + 8
        &&& zero_padded(self.bytes(), self.spec_len())
    }

    /// A buffer of `buf`, of which the first `len` bits count.
    ///
    /// Fails unless `8 * (buf.len() - 1) <= len <= 8 * buf.len()`.
    pub fn with_len(buf: Vec<u8>, len: usize) -> (r: Result<Self, BitVecLengthError>)
        ensures
            match r {
                Ok(bv) => {
                    &&& len <= 8 * buf@.len() <= len + 8
                    &&& bv.wf()
                    &&& bv.bytes() == buf@
                    &&& bv.spec_len() == len
                },
                Err(_) => !(len <= 8 * buf@.len() <= len + 8),
            },
    {
        let n = buf.len();
        if len / 8 > n || (len / 8 == n && len % 8 != 0) || (n > 0 && len / 8 < n - 1) {
            return Err(BitVecLengthError);
        }
        Ok(BitVec { inner: buf, bit_pos: (len % 8) as u8, len })
    }

    /// A buffer of all the bits of `buffer`.
    pub fn new(buffer: Vec<u8>) -> (r: Self)
        requires
            8 * buffer@.len() <= usize::MAX,
        ensures
            r.wf(),
            r.bytes() == buffer@,
            r.spec_len() == 8 * buffer@.len(),
            r@ == bits_of_bytes(buffer@),
    {
        let len = buffer.len() * 8;
        let r = BitVec { inner: buffer, bit_pos: 0, len };
        proof {
            assert(r@ =~= bits_of_bytes(buffer@));
        }
        r
    }

    /// An empty buffer with room for at least `capacity` bits.
    pub fn with_capacity(capacity: usize) -> (r: Self)
        ensures
            r.wf(),
            r.spec_len() == 0,
            r.bytes().len() == 0,
            r@ == Seq::<bool>::empty(),
            r.is_packed(),
    {
        let n_bytes = capacity / 8 + if capacity % 8 == 0 {
            0
        } else {
            1
        };
        let r = BitVec { inner: Vec::with_capacity(n_bytes), bit_pos: 0, len: 0 };
        proof {
            assert(r@ =~= Seq::<bool>::empty());
        }
        r
    }

    /// Appends one bit after the last one; a new zero byte is started when the bytes
    /// are full.
    pub fn push(&mut self, bit: bool)
        requires
            old(self).wf(),
            old(self).spec_len() < usize::MAX,
        ensures
            final(self).wf(),
            final(self)@ == old(self)@.push(bit),
            final(self).spec_len() == old(self).spec_len() + 1,
            final(self).bytes().len() == if old(self).spec_len() == 8 * old(self).bytes().len() {
                old(self).bytes().len() + 1
            } else {
                old(self).bytes().len()
            },
            old(self).is_packed() ==> final(self).is_packed(),
    {
        let ghost old_bytes = self.inner@;
        if self.len / 8 == self.inner.len() {
            self.inner.push(0);
        }
        let ghost mid_bytes = self.inner@;
        let idx = self.len / 8;
        let pos = (self.len % 8) as u8;
        let byte = self.inner[idx];
        let mask: u8 = 1u8 << (7 - pos);
        let new_byte = if bit {
            byte | mask
        } else {
            byte & !mask
        };
        self.inner.set(idx, new_byte);
        self.len = self.len + 1;
        self.bit_pos = (self.len % 8) as u8;
        proof {
            let len = old(self).spec_len() as int;
            let new_bits = bits_of_bytes(self.inner@);
            let mid_bits = bits_of_bytes(mid_bytes);
            let old_bits = bits_of_bytes(old_bytes);
            assert forall|j: u8| j < 8 implies #[trigger] byte_bit(new_byte, j) == (if j == pos {
                bit
            } else {
                byte_bit(byte, j)
            }) by {
                lemma_set_bit(byte, pos, j);
            }
            assert forall|i: int| 0 <= i < 8 * mid_bytes.len() && i != len implies new_bits[i]
                == #[trigger] mid_bits[i] by {
                if i / 8 == idx {
                    assert((i % 8) as u8 != pos);
                }
            }
            assert forall|i: int| 0 <= i < 8 * old_bytes.len() implies #[trigger] mid_bits[i]
                == old_bits[i] by {
                assert(mid_bytes[i / 8] == old_bytes[i / 8]);
            }
            assert(new_bits[len] == bit);
            assert(self@ =~= old(self)@.push(bit));
            if old(self).is_packed() {
                assert forall|i: int| len + 1 <= i < 8 * self.inner@.len() implies !#[trigger] new_bits[i] by {
                    if i < 8 * old_bytes.len() {
                        assert(!old_bits[i]);
                    } else {
                        assert(mid_bytes[i / 8] == 0);
                        lemma_zero_byte(0, (i % 8) as u8);
                    }
                }
            }
        }
    }

    /// Appends a whole byte. The bits left unset in a partly filled last byte stay as
    /// zero padding and now count.
    pub fn push_byte(&mut self, byte: u8)
        requires
            old(self).wf(),
            8 * (old(self).bytes().len() + 1) <= usize::MAX,
        ensures
            final(self).wf(),
            final(self).bytes() == old(self).bytes().push(byte),
            final(self).spec_len() == 8 * final(self).bytes().len(),
            final(self)@ == bits_of_bytes(final(self).bytes()),
    {
        self.inner.push(byte);
        self.len = self.inner.len() * 8;
        self.bit_pos = 0;
        proof {
            assert(self@ =~= bits_of_bytes(self.inner@));
        }
    }

    /// Appends whole bytes, as `push_byte` does for each.
    pub fn extend_from_byte_slice(&mut self, bytes: &[u8])
        requires
            old(self).wf(),
            8 * (old(self).bytes().len() + bytes@.len()) <= usize::MAX,
        ensures
            final(self).wf(),
            final(self).bytes() == old(self).bytes() + bytes@,
            bytes@.len() > 0 ==> final(self).spec_len() == 8 * final(self).bytes().len(),
            bytes@.len() == 0 ==> final(self).spec_len() == old(self).spec_len(),
    {
        let mut i: usize = 0;
        while i < bytes.len()
            invariant
                i <= bytes@.len(),
                self.wf(),
                self.bytes() == old(self).bytes() + bytes@.take(i as int),
                8 * (old(self).bytes().len() + bytes@.len()) <= usize::MAX,
                i > 0 ==> self.spec_len() == 8 * self.bytes().len(),
                i == 0 ==> self.spec_len() == old(self).spec_len(),
            decreases bytes@.len() - i,
        {
            self.push_byte(bytes[i]);
            proof {
                assert(bytes@.take(i + 1) =~= bytes@.take(i as int).push(bytes@[i as int]));
            }
            i += 1;
        }
        proof {
            assert(bytes@.take(bytes@.len() as int) =~= bytes@);
        }
    }

    /// Inserts a whole byte before byte `index`, moving the later bytes back by one.
    pub fn insert_byte(&mut self, index: usize, byte: u8)
        requires
            old(self).wf(),
            index <= old(self).bytes().len(),
            old(self).spec_len() + 8 <= usize::MAX,
        ensures
            final(self).wf(),
            final(self).bytes() == old(self).bytes().insert(index as int, byte),
            final(self).spec_len() == old(self).spec_len() + 8,
    {
        self.inner.insert(index, byte);
        self.len = self.len + 8;
    }

    /// Appends `bits` in order.
    pub fn extend_from_slice(&mut self, bits: &[bool])
        requires
            old(self).wf(),
            old(self).spec_len() + bits@.len() <= usize::MAX,
        ensures
            final(self).wf(),
            final(self)@ == old(self)@ + bits@,
            old(self).is_packed() ==> final(self).is_packed(),
    {
        let mut i: usize = 0;
        while i < bits.len()
            invariant
                i <= bits@.len(),
                self.wf(),
                self@ == old(self)@ + bits@.take(i as int),
                self.spec_len() == old(self).spec_len() + i,
                old(self).spec_len() + bits@.len() <= usize::MAX,
                old(self).is_packed() ==> self.is_packed(),
            decreases bits@.len() - i,
        {
            self.push(bits[i]);
            proof {
                assert(bits@.take(i + 1) =~= bits@.take(i as int).push(bits@[i as int]));
            }
            i += 1;
        }
        proof {
            assert(bits@.take(bits@.len() as int) =~= bits@);
        }
    }

    /// The position of the next bit within its byte.
    pub fn bit_position(&self) -> (r: &u8)
        requires
            self.wf(),
        ensures
            *r == self.spec_len() % 8,
    {
        &self.bit_pos
    }

    /// The number of bits the buffer holds without growing (at least its length).
    pub fn capacity(&self) -> (r: usize)
        requires
            self.wf(),
        ensures
            r >= self.spec_len(),
    {
        let cap = vec_capacity(&self.inner);
        if cap > usize::MAX / 8 {
            usize::MAX
        } else {
            cap * 8
        }
    }

    /// The number of bits.
    pub fn len(&self) -> (r: usize)
        ensures
            r == self.spec_len(),
    {
        self.len
    }

    /// The number of bytes.
    pub fn n_bytes(&self) -> (r: usize)
        ensures
            r == self.bytes().len(),
    {
        self.inner.len()
    }

    /// The last byte, if any.
    pub fn last_byte(&self) -> (r: Option<&u8>)
        ensures
            self.bytes().len() == 0 ==> r.is_none(),
            self.bytes().len() > 0 ==> r == Some(&self.bytes().last()),
    {
        self.inner.as_slice().last()
    }

    /// The last byte, if any, to change in place.
    pub fn last_byte_mut(&mut self) -> (r: Option<&mut u8>)
        ensures
            old(self).bytes().len() == 0 ==> r.is_none() && final(self).bytes() == old(self).bytes(),
            final(self).spec_len() == old(self).spec_len(),
            final(self).spec_bit_pos() == old(self).spec_bit_pos(),
            old(self).bytes().len() > 0 ==> r.is_some() && *r.unwrap() == old(self).bytes().last()
                && final(self).bytes() == old(self).bytes().update(
                old(self).bytes().len() - 1,
                *final(r.unwrap()),
            ),
    {
        self.inner.as_mut_slice().last_mut()
    }

    /// Whether the buffer holds no bytes.
    pub fn is_empty(&self) -> (r: bool)
        requires
            self.wf(),
        ensures
            r == (self.bytes().len() == 0),
            r ==> self.spec_len() == 0,
    {
        self.inner.len() == 0
    }

    /// Removes all bits, keeping the allocation.
    pub fn clear(&mut self)
        ensures
            final(self).wf(),
            final(self).spec_len() == 0,
            final(self).bytes().len() == 0,
            final(self)@ == Seq::<bool>::empty(),
            final(self).is_packed(),
    {
        self.inner.clear();
        self.len = 0;
        self.bit_pos = 0;
        proof {
            assert(self@ =~= Seq::<bool>::empty());
        }
    }

    /// The backing bytes.
    pub fn as_bytes(&self) -> (r: &[u8])
        ensures
            r@ == self.bytes(),
    {
        self.inner.as_slice()
    }

    /// The backing bytes, to change in place.
    pub fn as_bytes_mut(&mut self) -> (r: &mut [u8])
        ensures
            r@ == old(self).bytes(),
            final(self).bytes() == final(r)@,
            final(self).spec_len() == old(self).spec_len(),
            final(self).spec_bit_pos() == old(self).spec_bit_pos(),
    {
        self.inner.as_mut_slice()
    }

    /// The backing bytes.
    pub fn into_bytes(self) -> (r: Vec<u8>)
        ensures
            r@ == self.bytes(),
    {
        self.inner
    }

    /// The bits, in order.
    pub fn into_bits(self) -> (r: Vec<bool>)
        requires
            self.wf(),
        ensures
            r@ == self@,
    {
        let mut bits: Vec<bool> = Vec::new();
        let mut i: usize = 0;
        while i < self.len
            invariant
                self.wf(),
                i <= self.spec_len(),
                bits@ == self@.take(i as int),
            decreases self.spec_len() - i,
        {
            let byte = self.inner[i / 8];
            let pos = (i % 8) as u8;
            let bit = byte & (1u8 << (7 - pos)) != 0;
            proof {
                assert(bit == byte_bit(byte, pos)) by {
                    assert((byte & (1u8 << ((7 - pos) as u8)) != 0) == ((byte >> ((7 - pos) as u8))
                        & 1u8 == 1u8)) by (bit_vector)
                        requires
                            pos < 8,
                    ;
                }
                assert(self@.take(i + 1) =~= self@.take(i as int).push(self@[i as int]));
            }
            bits.push(bit);
            i += 1;
        }
        proof {
            assert(self@.take(self.spec_len() as int) =~= self@);
        }
        bits
    }
}

impl Default for BitVec {
    fn default() -> (r: Self)
        ensures
            r.wf(),
            r.spec_len() == 0,
            r.bytes().len() == 0,
            r.is_packed(),
    {
        BitVec::with_capacity(DEFAULT_BUF_SIZE)
    }
}

} // verus!
