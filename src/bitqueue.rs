//! A queue of bits in bytes that fills each byte from the least significant end: the
//! bits of a partly filled last byte sit in its low bits, the earliest highest.
use vstd::prelude::*;

verus! {

/// Bit `j` of the first `width` bits of `b`, where they are its low `width` bits read
/// most significant first.
pub open spec fn low_bit(b: u8, width: u8, j: u8) -> bool {
    (b >> ((width - 1 - j) as u8)) & 1u8 == 1u8
}

/// Shifting one more bit into a partly filled byte keeps the earlier bits in order.
proof fn lemma_shift_in(b: u8, p: u8, bit: u8, j: u8)
    requires
        p < 8,
        b >> p == 0,
        bit < 2,
        j <= p,
    ensures
        low_bit(((b << 1u8) | bit) as u8, (p + 1) as u8, j) == if j == p {
            bit == 1
        } else {
            low_bit(b, p, j)
        },
        p + 1 < 8 ==> ((b << 1u8) | bit) as u8 >> ((p + 1) as u8) == 0,
{
    assert(((((b << 1u8) | bit) as u8) >> ((((p + 1) as u8) - 1 - j) as u8)) & 1u8 == 1u8 <==> if j
        == p {
        bit == 1
    } else {
        (b >> ((p - 1 - j) as u8)) & 1u8 == 1u8
    }) by (bit_vector)
        requires
            p < 8,
            b >> p == 0,
            bit < 2,
            j <= p,
    ;
    assert(p + 1 < 8 ==> ((b << 1u8) | bit) as u8 >> ((p + 1) as u8) == 0) by (bit_vector)
        requires
            p < 8,
            b >> p == 0,
            bit < 2,
    ;
}

/// A queue of bits; the last byte may be partly filled, from its low end.
pub struct BitQueue {
    inner: Vec<u8>,
    bit_pos: u8,
}

impl View for BitQueue {
    type V = Seq<bool>;

    /// The bits, in the order they were pushed.
    open spec fn view(&self) -> Seq<bool> {
        Seq::new(
            self.spec_n_bits(),
            |i: int|
                if self.spec_bit_pos() != 0 && i / 8 == self.bytes().len() - 1 {
                    low_bit(self.bytes()[i / 8], self.spec_bit_pos() as u8, (i % 8) as u8)
                } else {
                    low_bit(self.bytes()[i / 8], 8, (i % 8) as u8)
                },
        )
    }
}

impl BitQueue {
    /// The backing bytes.
    pub closed spec fn bytes(&self) -> Seq<u8> {
        self.inner@
    }

    /// The number of bits in the last byte, or 0 when it is full.
    pub closed spec fn spec_bit_pos(&self) -> nat {
        self.bit_pos as nat
    }

    /// The number of bits pushed.
    pub open spec fn spec_n_bits(&self) -> nat {
        if self.spec_bit_pos() == 0 {
            8 * self.bytes().len()
        } else {
            (8 * (self.bytes().len() - 1) + self.spec_bit_pos()) as nat
        }
    }

    /// A partly filled last byte holds nothing above its bits.
    pub open spec fn wf(&self) -> bool {
        &&& self.spec_bit_pos() < 8
        &&& self.spec_bit_pos() != 0 ==> self.bytes().len() > 0 && self.bytes().last() >> (
        self.spec_bit_pos() as u8) == 0
    }

    /// An empty queue.
    pub fn new() -> (r: Self)
        ensures
            r.wf(),
            r@ == Seq::<bool>::empty(),
            r.bytes().len() == 0,
    {
        let r = BitQueue { inner: Vec::new(), bit_pos: 0 };
        proof {
            assert(r@ =~= Seq::<bool>::empty());
        }
        r
    }

    /// An empty queue with room for `capacity` bytes.
    pub fn with_capacity(capacity: usize) -> (r: Self)
        ensures
            r.wf(),
            r@ == Seq::<bool>::empty(),
            r.bytes().len() == 0,
    {
        let r = BitQueue { inner: Vec::with_capacity(capacity), bit_pos: 0 };
        proof {
            assert(r@ =~= Seq::<bool>::empty());
        }
        r
    }

    /// Appends one bit; a new byte is started when the last one is full.
    pub fn push(&mut self, bit: bool)
        requires
            old(self).wf(),
        ensures
            final(self).wf(),
            final(self)@ == old(self)@.push(bit),
    {
        let ghost old_bytes = self.inner@;
        let p = self.bit_pos;
        if self.bit_pos == 0 {
            self.inner.push(0);
        }
        let ghost mid_bytes = self.inner@;
        let idx = self.inner.len() - 1;
        let byte = self.inner[idx];
        let b = bit as u8;
        let new_byte = (byte << 1u8) | b;
        self.inner.set(idx, new_byte);
        self.bit_pos = (self.bit_pos + 1) % 8;
        proof {
            assert(byte >> p == 0) by {
                if p == 0 {
                    assert(byte == 0);
                    assert(0u8 >> 0u8 == 0) by (bit_vector);
                }
            }
            assert forall|j: u8| j <= p implies #[trigger] low_bit(new_byte, (p + 1) as u8, j) == if j
                == p {
                b == 1
            } else {
                low_bit(byte, p, j)
            } by {
                lemma_shift_in(byte, p, b, j);
            }
            lemma_shift_in(byte, p, b, 0);
            let n = self.inner@.len();
            let new_view = self@;
            let old_view = old(self)@;
            assert(new_view.len() == old_view.len() + 1);
            assert forall|i: int| 0 <= i < new_view.len() implies #[trigger] new_view[i] == old_view.push(
                bit,
            )[i] by {
                let k = i / 8;
                let j = (i % 8) as u8;
                if k < n - 1 {
                    assert(self.inner@[k] == old_bytes[k]);
                } else {
                    assert(k == n - 1);
                    assert(j <= p);
                    if p != 0 && (j as int) < (p as int) {
                        assert(old_view[i] == low_bit(byte, p, j));
                    }
                }
            }
            assert(new_view =~= old_view.push(bit));
        }
    }

    /// Appends `bits` in order.
    pub fn extend(&mut self, bits: &[bool])
        requires
            old(self).wf(),
        ensures
            final(self).wf(),
            final(self)@ == old(self)@ + bits@,
    {
        let mut i: usize = 0;
        while i < bits.len()
            invariant
                i <= bits@.len(),
                self.wf(),
                self@ == old(self)@ + bits@.take(i as int),
            decreases bits@.len() - i,
        {
            self.push(bits[i]);
            proof {
                assert(bits@.take(i + 1) =~= bits@.take(i as int).push(bits@[i as int]));
            }
            i += 1;
        }
        proof {
            assert(bits@.take(bits@.len() as int) =~= bits@);
        }
    }

    /// The number of bits in the last byte, or 0 when it is full.
    pub fn bit_position(&self) -> (r: &u8)
        ensures
            *r == self.spec_bit_pos(),
    {
        &self.bit_pos
    }

    /// The number of bits the bytes hold, counting the unfilled part of the last one.
    pub fn n_bits(&self) -> (r: usize)
        requires
            8 * self.bytes().len() <= usize::MAX,
        ensures
            r == 8 * self.bytes().len(),
    {
        self.inner.len() * 8
    }

    /// The number of bytes.
    pub fn n_bytes(&self) -> (r: usize)
        ensures
            r == self.bytes().len(),
    {
        self.inner.len()
    }

    /// Whether the queue holds no bytes.
    pub fn is_empty(&self) -> (r: bool)
        ensures
            r == (self.bytes().len() == 0),
    {
        self.n_bytes() == 0
    }

    /// Removes all bits, keeping the allocation.
    pub fn clear(&mut self)
        ensures
            final(self).wf(),
            final(self)@ == Seq::<bool>::empty(),
            final(self).bytes().len() == 0,
    {
        self.inner.clear();
        self.bit_pos = 0;
        proof {
            assert(self@ =~= Seq::<bool>::empty());
        }
    }

    /// The backing bytes.
    pub fn as_slice(&self) -> (r: &[u8])
        ensures
            r@ == self.bytes(),
    {
        self.inner.as_slice()
    }

    /// The backing bytes, to change in place.
    pub fn as_mut_slice(&mut self) -> (r: &mut [u8])
        ensures
            r@ == old(self).bytes(),
            final(self).bytes() == final(r)@,
            final(self).spec_bit_pos() == old(self).spec_bit_pos(),
    {
        self.inner.as_mut_slice()
    }
}

} // verus!
