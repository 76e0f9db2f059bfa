//! Collecting bits into bytes, with an optional sentinel 1-bit after the last one so that
//! a reader can find where they end.
use crate::bitvec::{BitVec, DEFAULT_BUF_SIZE};
use crate::model::{bits_of_bytes, frames, zeros};
use vstd::prelude::*;

verus! {

/// A writer of bits that hands out the bytes once it is finalized.
pub struct BitWriter {
    buf: BitVec,
    term_bit: bool,
}

impl BitWriter {
    /// The bits written so far.
    pub closed spec fn buffer(&self) -> BitVec {
        self.buf
    }

    /// Whether finalizing appends a sentinel 1-bit.
    pub closed spec fn uses_sentinel(&self) -> bool {
        self.term_bit
    }

    pub open spec fn wf(&self) -> bool {
        self.buffer().wf()
    }

    /// A writer with a default buffer; with `term_bit`, finalizing appends a sentinel.
    pub fn new(term_bit: bool) -> (r: BitWriter)
        ensures
            r.wf(),
            r.buffer()@ == Seq::<bool>::empty(),
            r.buffer().is_packed(),
            r.uses_sentinel() == term_bit,
    {
        BitWriter::with_capacity(DEFAULT_BUF_SIZE, term_bit)
    }

    /// A writer with room for at least `capacity` bits.
    pub fn with_capacity(capacity: usize, term_bit: bool) -> (r: BitWriter)
        ensures
            r.wf(),
            r.buffer()@ == Seq::<bool>::empty(),
            r.buffer().is_packed(),
            r.uses_sentinel() == term_bit,
    {
        BitWriter { buf: BitVec::with_capacity(capacity), term_bit }
    }

    /// Appends one bit.
    pub fn write_bit(&mut self, bit: bool)
        requires
            old(self).wf(),
            old(self).buffer()@.len() < usize::MAX,
        ensures
            final(self).wf(),
            final(self).buffer()@ == old(self).buffer()@.push(bit),
            final(self).uses_sentinel() == old(self).uses_sentinel(),
            old(self).buffer().is_packed() ==> final(self).buffer().is_packed(),
    {
        self.buf.push(bit);
    }

    /// Appends `bits` in order.
    pub fn write_bits(&mut self, bits: &[bool])
        requires
            old(self).wf(),
            old(self).buffer()@.len() + bits@.len() <= usize::MAX,
        ensures
            final(self).wf(),
            final(self).buffer()@ == old(self).buffer()@ + bits@,
            final(self).uses_sentinel() == old(self).uses_sentinel(),
            old(self).buffer().is_packed() ==> final(self).buffer().is_packed(),
    {
        let mut i: usize = 0;
        while i < bits.len()
            invariant
                i <= bits@.len(),
                self.wf(),
                self.buffer()@ == old(self).buffer()@ + bits@.take(i as int),
                old(self).buffer()@.len() + bits@.len() <= usize::MAX,
                self.uses_sentinel() == old(self).uses_sentinel(),
                old(self).buffer().is_packed() ==> self.buffer().is_packed(),
            decreases bits@.len() - i,
        {
            self.write_bit(bits[i]);
            proof {
                assert(bits@.take(i + 1) =~= bits@.take(i as int).push(bits@[i as int]));
            }
            i += 1;
        }
        proof {
            assert(bits@.take(bits@.len() as int) =~= bits@);
        }
    }

    /// The bits written so far.
    pub fn get_ref(&self) -> (r: &BitVec)
        ensures
            *r == self.buffer(),
    {
        &self.buf
    }

    /// The bits written so far, to change in place.
    pub fn get_mut(&mut self) -> (r: &mut BitVec)
        ensures
            *r == old(self).buffer(),
            final(self).buffer() == *final(r),
            final(self).uses_sentinel() == old(self).uses_sentinel(),
    {
        &mut self.buf
    }

    /// Discards every bit written so far.
    pub fn reset(&mut self)
        ensures
            final(self).wf(),
            final(self).buffer()@ == Seq::<bool>::empty(),
            final(self).buffer().is_packed(),
            final(self).uses_sentinel() == old(self).uses_sentinel(),
    {
        self.buf.clear()
    }

    /// The bytes of everything written. Nothing is written for an empty buffer; otherwise
    /// the sentinel, if used, follows the last bit, and the last byte is padded with zeros.
    pub fn finalize(self) -> (r: Vec<u8>)
        requires
            self.wf(),
            self.buffer()@.len() < usize::MAX,
        ensures
            self.buffer().bytes().len() == 0 ==> r@.len() == 0,
            !self.uses_sentinel() ==> r@ == self.buffer().bytes(),
            self.uses_sentinel() && self.buffer().bytes().len() > 0 ==> bits_of_bytes(r@).take(
                self.buffer()@.len() + 1 as int,
            ) == self.buffer()@.push(true),
            self.uses_sentinel() && self.buffer().is_packed() ==> frames(r@, self.buffer()@),
    {
        let mut buf = self.buf;
        if buf.is_empty() {
            return buf.into_bytes();
        }
        if self.term_bit {
            buf.push(true);
            proof {
                let n = buf.bytes().len();
                let p = self.buf@;
                if self.buf.is_packed() {
                    assert(n == p.len() / 8 + 1);
                    let pad = zeros((8 * n - p.len() - 1) as nat);
                    let bits = bits_of_bytes(buf.bytes());
                    assert forall|i: int| 0 <= i < bits.len() implies #[trigger] bits[i] == (
                    p.push(true) + pad)[i] by {
                        if i <= p.len() {
                            assert(bits[i] == buf@[i]);
                        }
                    }
                    assert(bits =~= p.push(true) + pad);
                }
            }
        }
        buf.into_bytes()
    }
}

} // verus!
